//! Editor helpers that do not depend on the UI toolkit: hex brush footprints,
//! resource file classification, human-readable sizes, and palette colours.

use vstd::prelude::*;
use crate::events::{lowercase_utf8, to_lowercase_bytes};

verus! {

// ---------------------------------------------------------------------------
// Hex brush
// ---------------------------------------------------------------------------

/// `x as i32` (two's complement wrap) for a `u32`.
pub open spec fn wrap_i32(x: u32) -> int {
    if x <= i32::MAX { x as int } else { x - 0x1_0000_0000 }
}

/// The tile offset `(dq, dr)` from `(cq, cr)` is painted: within the brush diamond
/// (|dq| + |dr| <= 2 * ir) and inside the `w` x `h` grid.
pub open spec fn brush_hit(cq: u32, cr: u32, ir: int, w: u32, h: u32, dq: int, dr: int) -> bool {
    let nq = wrap_i32(cq) + dq;
    let nr = wrap_i32(cr) + dr;
    &&& vstd::math::abs(dq) + vstd::math::abs(dr) <= ir * 2
    &&& nq >= 0 && nr >= 0 && nq < w && nr < h
}

/// Painted tiles of row `dr`, for column offsets `-ir .. k` (in order).
pub open spec fn brush_row(cq: u32, cr: u32, ir: int, w: u32, h: u32, dr: int, k: int) -> Seq<(u32, u32)>
    decreases k + ir,
{
    if k <= -ir {
        Seq::empty()
    } else {
        let prev = brush_row(cq, cr, ir, w, h, dr, k - 1);
        if brush_hit(cq, cr, ir, w, h, k - 1, dr) {
            prev.push(((wrap_i32(cq) + k - 1) as u32, (wrap_i32(cr) + dr) as u32))
        } else {
            prev
        }
    }
}

/// Painted tiles of rows `-ir .. k` (each row over all column offsets `-ir ..= ir`).
pub open spec fn brush_rows(cq: u32, cr: u32, ir: int, w: u32, h: u32, k: int) -> Seq<(u32, u32)>
    decreases k + ir,
{
    if k <= -ir {
        Seq::empty()
    } else {
        brush_rows(cq, cr, ir, w, h, k - 1) + brush_row(cq, cr, ir, w, h, k - 1, ir + 1)
    }
}

/// Tiles painted by a hex brush of `radius` at `(cq, cr)` in a `w` x `h` grid, in row
/// order then column order. Radius 0 paints only the centre, when it is inside the grid.
pub open spec fn spec_hex_brush_tiles(cq: u32, cr: u32, radius: u32, w: u32, h: u32) -> Seq<(u32, u32)> {
    if radius == 0 {
        if cq < w && cr < h { seq![(cq, cr)] } else { Seq::empty() }
    } else {
        let ir = wrap_i32(radius);
        brush_rows(cq, cr, ir, w, h, ir + 1)
    }
}

/// The brush computation stays within `i32`: a zero radius, a radius that wraps to a
/// negative `i32` other than `i32::MIN` (nothing is painted), or a radius below 2^30 whose
/// offsets from the (wrapped) centre stay inside `i32`.
pub open spec fn hex_brush_ok(cq: u32, cr: u32, radius: u32) -> bool {
    let ir = wrap_i32(radius);
    ||| radius == 0
    ||| ir < 0 && ir != i32::MIN
    ||| ir >= 0 && ir * 2 <= i32::MAX
        && wrap_i32(cq) - ir >= i32::MIN && wrap_i32(cq) + ir <= i32::MAX
        && wrap_i32(cr) - ir >= i32::MIN && wrap_i32(cr) + ir <= i32::MAX
}

fn to_i32_wrapping(x: u32) -> (r: i64)
    ensures
        r == wrap_i32(x),
{
    if x <= 0x7fff_ffff { x as i64 } else { x as i64 - 0x1_0000_0000 }
}

/// Tiles covered by a hex brush of `radius` centred at `(cq, cr)`, clipped to `bounds`.
pub fn hex_brush_tiles(cq: u32, cr: u32, radius: u32, bounds: (u32, u32)) -> (r: Vec<(u32, u32)>)
    requires
        hex_brush_ok(cq, cr, radius),
    ensures
        r@ == spec_hex_brush_tiles(cq, cr, radius, bounds.0, bounds.1),
{
    let (w, h) = bounds;
    if radius == 0 {
        let mut v: Vec<(u32, u32)> = Vec::new();
        if cq < w && cr < h {
            v.push((cq, cr));
            proof {
                assert(v@ =~= seq![(cq, cr)]);
            }
        }
        return v;
    }
    let mut out: Vec<(u32, u32)> = Vec::new();
    let ir: i64 = to_i32_wrapping(radius);
    let q0: i64 = to_i32_wrapping(cq);
    let r0: i64 = to_i32_wrapping(cr);
    if ir < 0 {
        proof {
            assert(brush_rows(cq, cr, ir as int, w, h, ir + 1) =~= Seq::empty());
        }
        return out;
    }
    let mut dr: i64 = -ir;
    while dr <= ir
        invariant
            0 <= ir <= i32::MAX / 2,
            ir == wrap_i32(radius),
            q0 == wrap_i32(cq),
            r0 == wrap_i32(cr),
            q0 - ir >= i32::MIN && q0 + ir <= i32::MAX,
            r0 - ir >= i32::MIN && r0 + ir <= i32::MAX,
            -ir <= dr <= ir + 1,
            out@ == brush_rows(cq, cr, ir as int, w, h, dr as int),
        decreases ir + 1 - dr,
    {
        let mut dq: i64 = -ir;
        let ghost before = out@;
        while dq <= ir
            invariant
                0 <= ir <= i32::MAX / 2,
                q0 == wrap_i32(cq),
                r0 == wrap_i32(cr),
                q0 - ir >= i32::MIN && q0 + ir <= i32::MAX,
                r0 - ir >= i32::MIN && r0 + ir <= i32::MAX,
                -ir <= dr <= ir,
                -ir <= dq <= ir + 1,
                out@ == before + brush_row(cq, cr, ir as int, w, h, dr as int, dq as int),
            decreases ir + 1 - dq,
        {
            let adq = if dq < 0 { -dq } else { dq };
            let adr = if dr < 0 { -dr } else { dr };
            let nq = q0 + dq;
            let nr = r0 + dr;
            if adq + adr <= ir * 2 && nq >= 0 && nr >= 0 && nq < w as i64 && nr < h as i64 {
                out.push((nq as u32, nr as u32));
                proof {
                    assert(out@ =~= before + brush_row(cq, cr, ir as int, w, h, dr as int, dq + 1));
                }
            }
            dq += 1;
        }
        dr += 1;
    }
    out
}

/// Every tile of `s` lies inside the `w` x `h` grid.
pub open spec fn tiles_in_bounds(s: Seq<(u32, u32)>, w: u32, h: u32) -> bool {
    forall|i: int| 0 <= i < s.len() ==> (#[trigger] s[i]).0 < w && s[i].1 < h
}

proof fn lemma_brush_row_in_bounds(cq: u32, cr: u32, ir: int, w: u32, h: u32, dr: int, k: int)
    ensures
        tiles_in_bounds(brush_row(cq, cr, ir, w, h, dr, k), w, h),
    decreases k + ir,
{
    if k > -ir {
        lemma_brush_row_in_bounds(cq, cr, ir, w, h, dr, k - 1);
    }
}

proof fn lemma_brush_rows_in_bounds(cq: u32, cr: u32, ir: int, w: u32, h: u32, k: int)
    ensures
        tiles_in_bounds(brush_rows(cq, cr, ir, w, h, k), w, h),
    decreases k + ir,
{
    if k > -ir {
        lemma_brush_rows_in_bounds(cq, cr, ir, w, h, k - 1);
        lemma_brush_row_in_bounds(cq, cr, ir, w, h, k - 1, ir + 1);
        let a = brush_rows(cq, cr, ir, w, h, k - 1);
        let b = brush_row(cq, cr, ir, w, h, k - 1, ir + 1);
        assert forall|i: int| 0 <= i < (a + b).len() implies (#[trigger] (a + b)[i]).0 < w && (a + b)[i].1 < h by {
            if i < a.len() {
                assert((a + b)[i] == a[i]);
            } else {
                assert((a + b)[i] == b[i - a.len()]);
            }
        }
    }
}

/// The hex brush only ever yields tiles inside the bounds it is given, whatever the
/// centre and radius.
pub proof fn law_hex_brush_in_bounds(cq: u32, cr: u32, radius: u32, w: u32, h: u32)
    ensures
        tiles_in_bounds(spec_hex_brush_tiles(cq, cr, radius, w, h), w, h),
{
    if radius != 0 {
        lemma_brush_rows_in_bounds(cq, cr, wrap_i32(radius), w, h, wrap_i32(radius) + 1);
    }
}

// ---------------------------------------------------------------------------
// Resource file classification
// ---------------------------------------------------------------------------

/// What a file in the resource browser is.
#[derive(Clone, Copy, Debug, PartialEq, Eq, Hash, Structural)]
pub enum FileKind {
    Folder,
    Image,
    Audio,
    Font,
    Script,
    GameMap,
    Json,
    Prefab,
    Other,
}

/// The extension of the last component of `path` as `std::path::Path::extension`
/// returns it (as UTF-8 text), if any.
pub uninterp spec fn path_extension_of(path: Seq<char>) -> Option<Seq<char>>;

/// The stem of the last component of `path` as `std::path::Path::file_stem` returns it
/// (as UTF-8 text), if any.
pub uninterp spec fn path_file_stem_of(path: Seq<char>) -> Option<Seq<char>>;

/// Extension of the path's file name (`std::path::Path::extension`), as text.
///
/// Trusted: the result is `path_extension_of(path@)`, a function of the path alone.
#[verifier::external_body]
fn path_extension(path: &str) -> (r: Option<String>)
    ensures
        r matches Some(s) ==> path_extension_of(path@) == Some(s@),
        r is None ==> path_extension_of(path@) is None,
{
    std::path::Path::new(path).extension().and_then(|e| e.to_str()).map(|e| e.to_owned())
}

/// Stem of the path's file name (`std::path::Path::file_stem`), as text.
///
/// Trusted: the result is `path_file_stem_of(path@)`, a function of the path alone.
#[verifier::external_body]
fn path_file_stem(path: &str) -> (r: Option<String>)
    ensures
        r matches Some(s) ==> path_file_stem_of(path@) == Some(s@),
        r is None ==> path_file_stem_of(path@) is None,
{
    std::path::Path::new(path).file_stem().and_then(|e| e.to_str()).map(|e| e.to_owned())
}

/// ASCII lower-casing of one character.
pub open spec fn ascii_lower(c: char) -> char {
    if 'A' <= c && c <= 'Z' { ((c as u32) + 32) as char } else { c }
}

/// ASCII lower-casing of a text (other characters unchanged).
pub open spec fn ascii_lowercase(s: Seq<char>) -> Seq<char> {
    s.map_values(|c: char| ascii_lower(c))
}

fn to_ascii_lowercase(s: &str) -> (r: String)
    ensures
        r@ == ascii_lowercase(s@),
{
    let lower = "abcdefghijklmnopqrstuvwxyz";
    proof {
        reveal_strlit("abcdefghijklmnopqrstuvwxyz");
        assert forall|k: int| 0 <= k < 26 implies #[trigger] lower@[k] == ((k + 97) as u32) as char by {
            if k == 0 { assert(lower@[k] == 'a'); }
            if k == 1 { assert(lower@[k] == 'b'); }
            if k == 2 { assert(lower@[k] == 'c'); }
            if k == 3 { assert(lower@[k] == 'd'); }
            if k == 4 { assert(lower@[k] == 'e'); }
            if k == 5 { assert(lower@[k] == 'f'); }
            if k == 6 { assert(lower@[k] == 'g'); }
            if k == 7 { assert(lower@[k] == 'h'); }
            if k == 8 { assert(lower@[k] == 'i'); }
            if k == 9 { assert(lower@[k] == 'j'); }
            if k == 10 { assert(lower@[k] == 'k'); }
            if k == 11 { assert(lower@[k] == 'l'); }
            if k == 12 { assert(lower@[k] == 'm'); }
            if k == 13 { assert(lower@[k] == 'n'); }
            if k == 14 { assert(lower@[k] == 'o'); }
            if k == 15 { assert(lower@[k] == 'p'); }
            if k == 16 { assert(lower@[k] == 'q'); }
            if k == 17 { assert(lower@[k] == 'r'); }
            if k == 18 { assert(lower@[k] == 's'); }
            if k == 19 { assert(lower@[k] == 't'); }
            if k == 20 { assert(lower@[k] == 'u'); }
            if k == 21 { assert(lower@[k] == 'v'); }
            if k == 22 { assert(lower@[k] == 'w'); }
            if k == 23 { assert(lower@[k] == 'x'); }
            if k == 24 { assert(lower@[k] == 'y'); }
            if k == 25 { assert(lower@[k] == 'z'); }
        }
    }
    let n = s.unicode_len();
    let mut out = String::new();
    let mut i: usize = 0;
    while i < n
        invariant
            n == s@.len(),
            i <= n,
            lower@.len() == 26,
            forall|k: int| 0 <= k < 26 ==> #[trigger] lower@[k] == ((k + 97) as u32) as char,
            out@ == ascii_lowercase(s@.take(i as int)),
        decreases n - i,
    {
        let c = s.get_char(i);
        if 'A' <= c && c <= 'Z' {
            let k = (c as u32 - 65) as usize;
            out.append(lower.substring_char(k, k + 1));
        } else {
            out.append(s.substring_char(i, i + 1));
        }
        proof {
            assert(ascii_lowercase(s@.take(i + 1)) =~= ascii_lowercase(s@.take(i as int)).push(ascii_lower(c)));
        }
        i += 1;
    }
    proof {
        assert(s@.take(n as int) =~= s@);
    }
    out
}

/// `needle` occurs in `hay` at position `i`.
pub open spec fn occurs_at(hay: Seq<char>, needle: Seq<char>, i: int) -> bool {
    0 <= i && i + needle.len() <= hay.len() && hay.subrange(i, i + needle.len()) == needle
}

/// `needle` occurs somewhere in `hay`.
pub open spec fn contains_text(hay: Seq<char>, needle: Seq<char>) -> bool {
    exists|i: int| occurs_at(hay, needle, i)
}

fn str_contains(hay: &str, needle: &str) -> (r: bool)
    ensures
        r == contains_text(hay@, needle@),
{
    let n = hay.unicode_len();
    let m = needle.unicode_len();
    if m > n {
        proof {
            assert forall|j: int| !occurs_at(hay@, needle@, j) by {}
        }
        return false;
    }
    let mut i: usize = 0;
    while i <= n - m
        invariant
            n == hay@.len(),
            m == needle@.len(),
            m <= n,
            i <= n - m + 1,
            forall|j: int| 0 <= j < i ==> !occurs_at(hay@, needle@, j),
        decreases n - m + 1 - i,
    {
        let mut k: usize = 0;
        let mut same = true;
        proof {
            assert(hay@.subrange(i as int, i as int) =~= needle@.subrange(0, 0));
        }
        while k < m
            invariant
                n == hay@.len(),
                m == needle@.len(),
                i + m <= n,
                k <= m,
                same == (hay@.subrange(i as int, i + k) == needle@.subrange(0, k as int)),
            decreases m - k,
        {
            if same && hay.get_char(i + k) != needle.get_char(k) {
                same = false;
                proof {
                    assert(hay@.subrange(i as int, i + k + 1)[k as int] != needle@.subrange(0, k + 1)[k as int]);
                }
            } else if same {
                proof {
                    assert(hay@.subrange(i as int, i + k + 1) =~= needle@.subrange(0, k + 1));
                }
            } else {
                proof {
                    assert(hay@.subrange(i as int, i + k + 1).subrange(0, k as int) =~= hay@.subrange(i as int, i + k));
                    assert(needle@.subrange(0, k + 1).subrange(0, k as int) =~= needle@.subrange(0, k as int));
                }
            }
            k += 1;
        }
        proof {
            assert(needle@.subrange(0, m as int) =~= needle@);
        }
        if same {
            proof {
                assert(occurs_at(hay@, needle@, i as int));
            }
            return true;
        }
        i += 1;
    }
    false
}

/// Kind of a file from its extension (lower-cased) and, for JSON, its stem.
pub open spec fn kind_for(ext: Seq<char>, stem: Seq<char>) -> FileKind {
    if ext == "png"@ || ext == "jpg"@ || ext == "jpeg"@ || ext == "bmp"@ || ext == "webp"@
        || ext == "gif"@ || ext == "tga"@ {
        FileKind::Image
    } else if ext == "mp3"@ || ext == "ogg"@ || ext == "wav"@ || ext == "flac"@ || ext == "aac"@ {
        FileKind::Audio
    } else if ext == "ttf"@ || ext == "otf"@ {
        FileKind::Font
    } else if ext == "cpp"@ || ext == "c"@ || ext == "h"@ || ext == "hpp"@ || ext == "rs"@
        || ext == "lua"@ || ext == "py"@ {
        FileKind::Script
    } else if ext == "tmap"@ {
        FileKind::GameMap
    } else if ext == "json"@ {
        if contains_text(stem, "prefab"@) { FileKind::Prefab } else { FileKind::Json }
    } else {
        FileKind::Other
    }
}

/// Kind of a file with extension `ext` (compared in ASCII lower case) and file stem
/// `stem`, either missing.
pub open spec fn parts_kind(ext: Option<Seq<char>>, stem: Option<Seq<char>>) -> FileKind {
    let e = match ext { Some(e) => ascii_lowercase(e), None => Seq::empty() };
    let s = match stem { Some(s) => s, None => Seq::empty() };
    kind_for(e, s)
}

/// Kind of the file at `path`; `is_dir` says whether the path names a directory.
pub open spec fn spec_file_kind(path: Seq<char>, is_dir: bool) -> FileKind {
    if is_dir {
        FileKind::Folder
    } else {
        parts_kind(path_extension_of(path), path_file_stem_of(path))
    }
}

/// Character-wise equality of two strings.
pub(crate) fn str_eq(a: &str, b: &str) -> (r: bool)
    ensures
        r == (a@ == b@),
{
    let n = a.unicode_len();
    if n != b.unicode_len() {
        return false;
    }
    let mut i: usize = 0;
    while i < n
        invariant
            n == a@.len(),
            n == b@.len(),
            i <= n,
            forall|j: int| 0 <= j < i ==> a@[j] == b@[j],
        decreases n - i,
    {
        if a.get_char(i) != b.get_char(i) {
            return false;
        }
        i += 1;
    }
    proof {
        assert(a@ =~= b@);
    }
    true
}

impl FileKind {
    /// Classifies the file at `path` (directory status supplied by the caller, who
    /// asks the file system).
    pub fn from_path(path: &str, is_dir: bool) -> (r: FileKind)
        ensures
            r == spec_file_kind(path@, is_dir),
    {
        if is_dir {
            return FileKind::Folder;
        }
        let ext = path_extension(path);
        let stem = path_file_stem(path);
        let e: Option<&str> = match &ext {
            Some(x) => Some(x.as_str()),
            None => None,
        };
        let t: Option<&str> = match &stem {
            Some(x) => Some(x.as_str()),
            None => None,
        };
        FileKind::from_parts(e, t)
    }

    /// Classifies a file by its extension (any ASCII case) and its file stem, as
    /// `Path::extension` and `Path::file_stem` give them.
    pub fn from_parts(ext: Option<&str>, stem: Option<&str>) -> (r: FileKind)
        ensures
            r == parts_kind(
                match ext { Some(e) => Some(e@), None => None },
                match stem { Some(s) => Some(s@), None => None },
            ),
    {
        let lowered: String = match ext {
            Some(x) => to_ascii_lowercase(x),
            None => String::new(),
        };
        let stem_text: &str = match stem {
            Some(x) => x,
            None => "",
        };
        proof {
            reveal_strlit("");
            assert(lowered@ == (match ext { Some(x) => ascii_lowercase(x@), None => Seq::<char>::empty() }));
            assert(stem_text@ == (match stem { Some(x) => x@, None => Seq::<char>::empty() }));
        }
        let e = lowered.as_str();
        proof {
            reveal_strlit("png"); reveal_strlit("jpg"); reveal_strlit("jpeg"); reveal_strlit("bmp");
            reveal_strlit("webp"); reveal_strlit("gif"); reveal_strlit("tga"); reveal_strlit("mp3");
            reveal_strlit("ogg"); reveal_strlit("wav"); reveal_strlit("flac"); reveal_strlit("aac");
            reveal_strlit("ttf"); reveal_strlit("otf"); reveal_strlit("cpp"); reveal_strlit("c");
            reveal_strlit("h"); reveal_strlit("hpp"); reveal_strlit("rs"); reveal_strlit("lua");
            reveal_strlit("py"); reveal_strlit("tmap"); reveal_strlit("json");
        }
        if str_eq(e, "png") || str_eq(e, "jpg") || str_eq(e, "jpeg") || str_eq(e, "bmp")
            || str_eq(e, "webp") || str_eq(e, "gif") || str_eq(e, "tga") {
            FileKind::Image
        } else if str_eq(e, "mp3") || str_eq(e, "ogg") || str_eq(e, "wav") || str_eq(e, "flac")
            || str_eq(e, "aac") {
            FileKind::Audio
        } else if str_eq(e, "ttf") || str_eq(e, "otf") {
            FileKind::Font
        } else if str_eq(e, "cpp") || str_eq(e, "c") || str_eq(e, "h") || str_eq(e, "hpp")
            || str_eq(e, "rs") || str_eq(e, "lua") || str_eq(e, "py") {
            FileKind::Script
        } else if str_eq(e, "tmap") {
            FileKind::GameMap
        } else if str_eq(e, "json") {
            if str_contains(stem_text, "prefab") {
                FileKind::Prefab
            } else {
                FileKind::Json
            }
        } else {
            FileKind::Other
        }
    }

    /// Icon glyph shown for the kind.
    pub fn icon(self) -> (r: &'static str)
        ensures
            r@ == match self {
                FileKind::Folder => "\u{1F4C1}"@,
                FileKind::Image => "\u{1F5BC}"@,
                FileKind::Audio => "\u{1F3B5}"@,
                FileKind::Font => "\u{1F524}"@,
                FileKind::Script => "\u{1F4DC}"@,
                FileKind::GameMap => "\u{1F5FA}"@,
                FileKind::Json => "\u{2699}"@,
                FileKind::Prefab => "\u{1F9E9}"@,
                FileKind::Other => "\u{1F4C4}"@,
            },
    {
        match self {
            FileKind::Folder => "\u{1F4C1}",
            FileKind::Image => "\u{1F5BC}",
            FileKind::Audio => "\u{1F3B5}",
            FileKind::Font => "\u{1F524}",
            FileKind::Script => "\u{1F4DC}",
            FileKind::GameMap => "\u{1F5FA}",
            FileKind::Json => "\u{2699}",
            FileKind::Prefab => "\u{1F9E9}",
            FileKind::Other => "\u{1F4C4}",
        }
    }

    /// Label colour for the kind, as RGBA.
    pub fn color(self) -> (r: [u8; 4])
        ensures
            r == match self {
                FileKind::Folder => [220u8, 190u8, 100u8, 255u8],
                FileKind::Image => [120u8, 200u8, 120u8, 255u8],
                FileKind::Audio => [120u8, 160u8, 220u8, 255u8],
                FileKind::Font => [200u8, 140u8, 200u8, 255u8],
                FileKind::Script => [220u8, 180u8, 100u8, 255u8],
                FileKind::GameMap => [100u8, 200u8, 180u8, 255u8],
                FileKind::Json => [180u8, 180u8, 180u8, 255u8],
                FileKind::Prefab => [180u8, 120u8, 220u8, 255u8],
                FileKind::Other => [150u8, 150u8, 150u8, 255u8],
            },
    {
        match self {
            FileKind::Folder => [220, 190, 100, 255],
            FileKind::Image => [120, 200, 120, 255],
            FileKind::Audio => [120, 160, 220, 255],
            FileKind::Font => [200, 140, 200, 255],
            FileKind::Script => [220, 180, 100, 255],
            FileKind::GameMap => [100, 200, 180, 255],
            FileKind::Json => [180, 180, 180, 255],
            FileKind::Prefab => [180, 120, 220, 255],
            FileKind::Other => [150, 150, 150, 255],
        }
    }
}

/// One entry in the resource browser.
#[derive(Clone, Debug)]
pub struct ResourceEntry {
    pub path: String,
    pub name: String,
    pub kind: FileKind,
    pub size: u64,
}

/// The file name is hidden: it starts with a dot.
pub open spec fn is_hidden_name(name: Seq<char>) -> bool {
    name.len() > 0 && name[0] == '.'
}

/// `a` comes before `b` in byte order (a proper prefix comes first).
pub open spec fn bytes_before(a: Seq<u8>, b: Seq<u8>) -> bool
    decreases a.len(),
{
    if a.len() == 0 {
        b.len() > 0
    } else if b.len() == 0 {
        false
    } else if a[0] != b[0] {
        a[0] < b[0]
    } else {
        bytes_before(a.drop_first(), b.drop_first())
    }
}

/// Entry `a`, sorted under key `a.1`, goes before entry `b`, sorted under key `b.1`:
/// folders first, then by key in byte order.
pub open spec fn keyed_precedes(a: (ResourceEntry, Seq<u8>), b: (ResourceEntry, Seq<u8>)) -> bool {
    let fa = a.0.kind == FileKind::Folder;
    let fb = b.0.kind == FileKind::Folder;
    (fa && !fb) || (fa == fb && bytes_before(a.1, b.1))
}

/// `e` inserted into `s` after every keyed entry that it does not go before.
pub open spec fn insert_keyed(s: Seq<(ResourceEntry, Seq<u8>)>, e: (ResourceEntry, Seq<u8>)) -> Seq<(ResourceEntry, Seq<u8>)>
    decreases s.len(),
{
    if s.len() == 0 {
        seq![e]
    } else if keyed_precedes(e, s[0]) {
        seq![e] + s
    } else {
        seq![s[0]] + insert_keyed(s.drop_first(), e)
    }
}

/// The keyed entries of `s` whose names are not hidden, in order.
pub open spec fn visible_keyed(s: Seq<(ResourceEntry, Seq<u8>)>) -> Seq<(ResourceEntry, Seq<u8>)>
    decreases s.len(),
{
    if s.len() == 0 {
        s
    } else if is_hidden_name(s.last().0.name@) {
        visible_keyed(s.drop_last())
    } else {
        visible_keyed(s.drop_last()).push(s.last())
    }
}

/// `s` stably sorted by `keyed_precedes`.
pub open spec fn sort_keyed(s: Seq<(ResourceEntry, Seq<u8>)>) -> Seq<(ResourceEntry, Seq<u8>)>
    decreases s.len(),
{
    if s.len() == 0 {
        s
    } else {
        insert_keyed(sort_keyed(s.drop_last()), s.last())
    }
}

/// The entries of `s`, each with its sort key, listed for the browser: hidden ones
/// dropped, folders first, then files, each group by key, ties in their given order.
pub open spec fn keyed_listing(s: Seq<(ResourceEntry, Seq<u8>)>) -> Seq<ResourceEntry> {
    entries_of(sort_keyed(visible_keyed(s)))
}

/// The entries of keyed entries, without their keys.
pub open spec fn entries_of(s: Seq<(ResourceEntry, Seq<u8>)>) -> Seq<ResourceEntry> {
    s.map_values(|p: (ResourceEntry, Seq<u8>)| p.0)
}

/// Each entry with its key from `keys` (same positions).
pub open spec fn zip_keys(es: Seq<ResourceEntry>, keys: Seq<Vec<u8>>) -> Seq<(ResourceEntry, Seq<u8>)> {
    Seq::new(es.len(), |i: int| (es[i], keys[i]@))
}

/// Each entry with its lower-cased name as its key.
pub open spec fn lowered_entries(s: Seq<ResourceEntry>) -> Seq<(ResourceEntry, Seq<u8>)> {
    s.map_values(|e: ResourceEntry| (e, lowercase_utf8(e.name@)))
}

/// What the browser lists of a directory's entries: hidden ones dropped, folders
/// first, then files, each group by lower-cased name, ties in their given order.
pub open spec fn browser_listing(s: Seq<ResourceEntry>) -> Seq<ResourceEntry> {
    keyed_listing(lowered_entries(s))
}

/// Byte order of two byte strings.
fn bytes_less(a: &[u8], b: &[u8]) -> (r: bool)
    ensures
        r == bytes_before(a@, b@),
{
    let n = a.len();
    let m = b.len();
    let mut i: usize = 0;
    while i < n && i < m && a[i] == b[i]
        invariant
            n == a@.len(),
            m == b@.len(),
            i <= n,
            i <= m,
            forall|k: int| 0 <= k < i ==> a@[k] == b@[k],
        decreases n - i,
    {
        i += 1;
    }
    proof {
        lemma_bytes_before_skip(a@, b@, i as int);
    }
    if i == n {
        i < m
    } else if i == m {
        false
    } else {
        a[i] < b[i]
    }
}

/// Byte order is decided after a common prefix.
proof fn lemma_bytes_before_skip(a: Seq<u8>, b: Seq<u8>, i: int)
    requires
        0 <= i <= a.len(),
        i <= b.len(),
        forall|k: int| 0 <= k < i ==> a[k] == b[k],
    ensures
        bytes_before(a, b) == bytes_before(a.skip(i), b.skip(i)),
    decreases i,
{
    if i == 0 {
        assert(a.skip(0) =~= a);
        assert(b.skip(0) =~= b);
    } else {
        assert(a[0] == b[0]);
        let a1 = a.drop_first();
        let b1 = b.drop_first();
        assert forall|k: int| 0 <= k < i - 1 implies a1[k] == b1[k] by {
            assert(a1[k] == a[k + 1]);
            assert(b1[k] == b[k + 1]);
        }
        lemma_bytes_before_skip(a1, b1, i - 1);
        assert(a1.skip(i - 1) =~= a.skip(i));
        assert(b1.skip(i - 1) =~= b.skip(i));
    }
}

/// Inserting before the first keyed entry that `e` goes before is `insert_keyed`.
proof fn lemma_insert_keyed_at(s: Seq<(ResourceEntry, Seq<u8>)>, e: (ResourceEntry, Seq<u8>), j: int)
    requires
        0 <= j <= s.len(),
        forall|k: int| 0 <= k < j ==> !keyed_precedes(e, #[trigger] s[k]),
        j < s.len() ==> keyed_precedes(e, s[j]),
    ensures
        insert_keyed(s, e) == s.insert(j, e),
    decreases j,
{
    if j == 0 {
        assert(insert_keyed(s, e) =~= s.insert(0, e));
    } else {
        assert(!keyed_precedes(e, s[0]));
        let t = s.drop_first();
        assert forall|k: int| 0 <= k < j - 1 implies !keyed_precedes(e, #[trigger] t[k]) by {
            assert(t[k] == s[k + 1]);
        }
        lemma_insert_keyed_at(t, e, j - 1);
        assert(s.insert(j, e) =~= seq![s[0]] + t.insert(j - 1, e));
    }
}

/// The text of each string.
pub open spec fn str_views(s: Seq<&str>) -> Seq<Seq<char>> {
    s.map_values(|e: &str| e@)
}

/// The extension of `path`, compared without regard to ASCII case, is one of `exts`.
pub open spec fn extension_listed(path: Seq<char>, exts: Seq<Seq<char>>) -> bool {
    match path_extension_of(path) {
        Some(e) => exists|i: int| 0 <= i < exts.len() && ascii_lowercase(#[trigger] exts[i]) == ascii_lowercase(e),
        None => false,
    }
}

/// Whether the extension of `path` is one of `extensions`, ignoring ASCII case
/// (the filter of a resource folder scan).
pub fn has_listed_extension(path: &str, extensions: &[&str]) -> (r: bool)
    ensures
        r == extension_listed(path@, str_views(extensions@)),
{
    let ghost exts = str_views(extensions@);
    match path_extension(path) {
        None => false,
        Some(e) => {
            let le = to_ascii_lowercase(e.as_str());
            let n = extensions.len();
            let mut i: usize = 0;
            while i < n
                invariant
                    n == extensions@.len(),
                    i <= n,
                    exts == str_views(extensions@),
                    le@ == ascii_lowercase(e@),
                    path_extension_of(path@) == Some(e@),
                    forall|k: int| 0 <= k < i ==> ascii_lowercase(#[trigger] exts[k]) != le@,
                decreases n - i,
            {
                let lx = to_ascii_lowercase(extensions[i]);
                assert(exts[i as int] == extensions@[i as int]@);
                if str_eq(lx.as_str(), le.as_str()) {
                    assert(ascii_lowercase(exts[i as int]) == ascii_lowercase(e@));
                    return true;
                }
                i += 1;
            }
            false
        },
    }
}

/// Whether the file name `name` is hidden (starts with a dot).
pub fn is_hidden(name: &str) -> (r: bool)
    ensures
        r == is_hidden_name(name@),
{
    name.unicode_len() > 0 && name.get_char(0) == '.'
}

/// Arranges entries for the resource browser, each sorted under the key at its
/// position in `keys`: hidden entries (name starting with a dot) are dropped; folders
/// come first, then files; within each group entries are ordered by key in byte order,
/// equal keys keeping their given order.
pub fn arrange_keyed_entries(entries: Vec<ResourceEntry>, keys: Vec<Vec<u8>>) -> (r: Vec<ResourceEntry>)
    requires
        keys@.len() == entries@.len(),
    ensures
        r@ == keyed_listing(zip_keys(entries@, keys@)),
{
    let ghost p = zip_keys(entries@, keys@);
    let mut rest = entries;
    let mut rest_keys = keys;
    let mut sorted: Vec<ResourceEntry> = Vec::new();
    let mut sorted_keys: Vec<Vec<u8>> = Vec::new();
    let ghost mut t: int = 0;
    proof {
        assert(zip_keys(rest@, rest_keys@) =~= p.skip(0));
        assert(zip_keys(sorted@, sorted_keys@) =~= sort_keyed(visible_keyed(p.take(0))));
    }
    while rest.len() > 0
        invariant
            0 <= t <= p.len(),
            rest@.len() == p.len() - t,
            rest_keys@.len() == rest@.len(),
            zip_keys(rest@, rest_keys@) == p.skip(t),
            sorted_keys@.len() == sorted@.len(),
            zip_keys(sorted@, sorted_keys@) == sort_keyed(visible_keyed(p.take(t))),
        decreases rest@.len(),
    {
        let ghost z0 = zip_keys(rest@, rest_keys@);
        let ghost r0 = rest@;
        let ghost k0 = rest_keys@;
        let e = rest.remove(0);
        let key = rest_keys.remove(0);
        proof {
            assert(z0[0] == (e, key@));
            assert(p.skip(t)[0] == p[t]);
            assert(p[t] == (e, key@));
            assert forall|i: int| 0 <= i < rest@.len() implies #[trigger] zip_keys(rest@, rest_keys@)[i] == p.skip(t + 1)[i] by {
                assert(rest@[i] == r0[i + 1]);
                assert(rest_keys@[i] == k0[i + 1]);
                assert(z0[i + 1] == p.skip(t)[i + 1]);
            }
            assert(zip_keys(rest@, rest_keys@) =~= p.skip(t + 1));
            assert(p.take(t + 1) =~= p.take(t).push((e, key@)));
            assert(p.take(t + 1).drop_last() =~= p.take(t));
            assert(p.take(t + 1).last() == (e, key@));
            t = t + 1;
        }
        let ghost ek = (e, key@);
        let ghost vis = visible_keyed(p.take(t - 1));
        if !is_hidden(e.name.as_str()) {
            let folder = matches!(e.kind, FileKind::Folder);
            let mut j: usize = 0;
            while j < sorted.len()
                && !(
                    (folder && !matches!(sorted[j].kind, FileKind::Folder))
                    || (folder == matches!(sorted[j].kind, FileKind::Folder)
                        && bytes_less(key.as_slice(), sorted_keys[j].as_slice()))
                )
                invariant
                    j <= sorted@.len(),
                    sorted_keys@.len() == sorted@.len(),
                    ek == (e, key@),
                    folder == (e.kind == FileKind::Folder),
                    forall|k: int| 0 <= k < j ==> !keyed_precedes(ek, #[trigger] zip_keys(sorted@, sorted_keys@)[k]),
                decreases sorted@.len() - j,
            {
                assert(zip_keys(sorted@, sorted_keys@)[j as int] == (sorted@[j as int], sorted_keys@[j as int]@));
                j += 1;
            }
            let ghost z = zip_keys(sorted@, sorted_keys@);
            proof {
                if j < sorted@.len() {
                    assert(z[j as int] == (sorted@[j as int], sorted_keys@[j as int]@));
                }
                lemma_insert_keyed_at(z, ek, j as int);
                assert(visible_keyed(p.take(t)) == vis.push(ek));
                assert(vis.push(ek).drop_last() =~= vis);
                assert(sort_keyed(vis.push(ek)) == insert_keyed(sort_keyed(vis), ek));
            }
            sorted.insert(j, e);
            sorted_keys.insert(j, key);
            proof {
                assert(zip_keys(sorted@, sorted_keys@) =~= z.insert(j as int, ek));
            }
        } else {
            proof {
                assert(visible_keyed(p.take(t)) == vis);
            }
        }
    }
    proof {
        assert(p.take(p.len() as int) =~= p);
        assert(sorted@ =~= entries_of(zip_keys(sorted@, sorted_keys@)));
    }
    sorted
}

/// Arranges a directory's entries for the resource browser: hidden entries (name
/// starting with a dot) are dropped; folders come first, then files; within each
/// group entries are ordered by their lower-cased names, equal names keeping their
/// given order.
pub fn arrange_entries(entries: Vec<ResourceEntry>) -> (r: Vec<ResourceEntry>)
    ensures
        r@ == browser_listing(entries@),
{
    let n = entries.len();
    let mut keys: Vec<Vec<u8>> = Vec::new();
    let mut i: usize = 0;
    while i < n
        invariant
            n == entries@.len(),
            i <= n,
            keys@.len() == i,
            forall|k: int| 0 <= k < i ==> (#[trigger] keys@[k])@ == lowercase_utf8(entries@[k].name@),
        decreases n - i,
    {
        keys.push(to_lowercase_bytes(entries[i].name.as_str()));
        i += 1;
    }
    proof {
        assert(zip_keys(entries@, keys@) =~= lowered_entries(entries@));
    }
    arrange_keyed_entries(entries, keys)
}

/// No keyed entry of `s` goes before an earlier one.
pub open spec fn keyed_in_order(s: Seq<(ResourceEntry, Seq<u8>)>) -> bool {
    forall|i: int, j: int| 0 <= i < j < s.len() ==> !keyed_precedes(#[trigger] s[j], #[trigger] s[i])
}

proof fn lemma_bytes_before_asym(a: Seq<u8>, b: Seq<u8>)
    requires
        bytes_before(a, b),
    ensures
        !bytes_before(b, a),
    decreases a.len(),
{
    if a.len() > 0 && b.len() > 0 && a[0] == b[0] {
        lemma_bytes_before_asym(a.drop_first(), b.drop_first());
    }
}

proof fn lemma_bytes_before_trans(a: Seq<u8>, b: Seq<u8>, c: Seq<u8>)
    requires
        bytes_before(a, b),
        bytes_before(b, c),
    ensures
        bytes_before(a, c),
    decreases a.len(),
{
    if a.len() > 0 && a[0] == b[0] && b[0] == c[0] {
        lemma_bytes_before_trans(a.drop_first(), b.drop_first(), c.drop_first());
    }
}

proof fn lemma_keyed_precedes_asym(a: (ResourceEntry, Seq<u8>), b: (ResourceEntry, Seq<u8>))
    requires
        keyed_precedes(a, b),
    ensures
        !keyed_precedes(b, a),
{
    if (a.0.kind == FileKind::Folder) == (b.0.kind == FileKind::Folder) {
        lemma_bytes_before_asym(a.1, b.1);
    }
}

proof fn lemma_keyed_precedes_trans(a: (ResourceEntry, Seq<u8>), b: (ResourceEntry, Seq<u8>), c: (ResourceEntry, Seq<u8>))
    requires
        keyed_precedes(a, b),
        keyed_precedes(b, c),
    ensures
        keyed_precedes(a, c),
{
    let fa = a.0.kind == FileKind::Folder;
    let fb = b.0.kind == FileKind::Folder;
    let fc = c.0.kind == FileKind::Folder;
    if fa == fb && fb == fc {
        lemma_bytes_before_trans(a.1, b.1, c.1);
    }
}

/// `insert_keyed` inserts at the first position whose entry `e` goes before.
proof fn lemma_insert_keyed_position(s: Seq<(ResourceEntry, Seq<u8>)>, e: (ResourceEntry, Seq<u8>)) -> (j: int)
    ensures
        0 <= j <= s.len(),
        insert_keyed(s, e) == s.insert(j, e),
        forall|k: int| 0 <= k < j ==> !keyed_precedes(e, #[trigger] s[k]),
        j < s.len() ==> keyed_precedes(e, s[j]),
    decreases s.len(),
{
    if s.len() == 0 {
        assert(insert_keyed(s, e) =~= s.insert(0, e));
        0
    } else if keyed_precedes(e, s[0]) {
        assert(insert_keyed(s, e) =~= s.insert(0, e));
        0
    } else {
        let t = s.drop_first();
        let j1 = lemma_insert_keyed_position(t, e);
        assert(s.insert(j1 + 1, e) =~= seq![s[0]] + t.insert(j1, e));
        assert forall|k: int| 0 <= k < j1 + 1 implies !keyed_precedes(e, #[trigger] s[k]) by {
            if k > 0 {
                assert(s[k] == t[k - 1]);
            }
        }
        if j1 < t.len() {
            assert(s[j1 + 1] == t[j1]);
        }
        j1 + 1
    }
}

proof fn lemma_insert_keyed_in_order(s: Seq<(ResourceEntry, Seq<u8>)>, e: (ResourceEntry, Seq<u8>))
    requires
        keyed_in_order(s),
    ensures
        keyed_in_order(insert_keyed(s, e)),
        insert_keyed(s, e).to_multiset() == s.to_multiset().insert(e),
{
    let j = lemma_insert_keyed_position(s, e);
    let r = s.insert(j, e);
    vstd::seq_lib::to_multiset_insert(s, j, e);
    assert forall|a: int, b: int| 0 <= a < b < r.len() implies !keyed_precedes(#[trigger] r[b], #[trigger] r[a]) by {
        if b < j {
            assert(r[a] == s[a] && r[b] == s[b]);
        } else if b == j {
            assert(r[a] == s[a]);
        } else if a == j {
            assert(r[b] == s[b - 1]);
            assert(keyed_precedes(e, s[j]));
            if b - 1 == j {
                lemma_keyed_precedes_asym(e, s[j]);
            } else if keyed_precedes(s[b - 1], e) {
                lemma_keyed_precedes_trans(s[b - 1], e, s[j]);
                assert(!keyed_precedes(s[b - 1], s[j]));
            }
        } else if a < j {
            assert(r[a] == s[a] && r[b] == s[b - 1]);
        } else {
            assert(r[a] == s[a - 1] && r[b] == s[b - 1]);
        }
    }
}

proof fn lemma_sort_keyed(s: Seq<(ResourceEntry, Seq<u8>)>)
    ensures
        keyed_in_order(sort_keyed(s)),
        sort_keyed(s).to_multiset() == s.to_multiset(),
    decreases s.len(),
{
    if s.len() > 0 {
        lemma_sort_keyed(s.drop_last());
        lemma_insert_keyed_in_order(sort_keyed(s.drop_last()), s.last());
        vstd::seq_lib::to_multiset_build(s.drop_last(), s.last());
        assert(s.drop_last().push(s.last()) =~= s);
    }
}

proof fn lemma_visible_keyed(s: Seq<(ResourceEntry, Seq<u8>)>)
    ensures
        forall|p: (ResourceEntry, Seq<u8>)| #[trigger] visible_keyed(s).to_multiset().count(p)
            == if is_hidden_name(p.0.name@) { 0 } else { s.to_multiset().count(p) },
    decreases s.len(),
{
    broadcast use vstd::multiset::group_multiset_axioms;
    if s.len() == 0 {
        broadcast use vstd::seq_lib::group_to_multiset_ensures;
        assert(visible_keyed(s) == s);
    } else {
        let t = s.drop_last();
        lemma_visible_keyed(t);
        vstd::seq_lib::to_multiset_build(t, s.last());
        assert(t.push(s.last()) =~= s);
        if !is_hidden_name(s.last().0.name@) {
            vstd::seq_lib::to_multiset_build(visible_keyed(t), s.last());
            assert(visible_keyed(s) == visible_keyed(t).push(s.last()));
        } else {
            assert(visible_keyed(s) == visible_keyed(t));
        }
        assert forall|p: (ResourceEntry, Seq<u8>)| #[trigger] visible_keyed(s).to_multiset().count(p)
            == if is_hidden_name(p.0.name@) { 0 } else { s.to_multiset().count(p) } by {
            assert(visible_keyed(t).to_multiset().count(p)
                == if is_hidden_name(p.0.name@) { 0 } else { t.to_multiset().count(p) });
        }
    }
}

/// The keyed listing holds exactly the keyed entries whose names are not hidden, each
/// as often as it was given, and no entry in it goes before an earlier one (folders
/// first, then by key).
pub proof fn law_keyed_listing(s: Seq<(ResourceEntry, Seq<u8>)>)
    ensures
        keyed_in_order(sort_keyed(visible_keyed(s))),
        forall|p: (ResourceEntry, Seq<u8>)| #[trigger] sort_keyed(visible_keyed(s)).to_multiset().count(p)
            == if is_hidden_name(p.0.name@) { 0 } else { s.to_multiset().count(p) },
{
    lemma_visible_keyed(s);
    lemma_sort_keyed(visible_keyed(s));
}

/// Entries carry their lower-cased names as keys: counting entries counts keyed pairs.
proof fn lemma_first_count(q: Seq<(ResourceEntry, Seq<u8>)>)
    requires
        forall|i: int| 0 <= i < q.len() ==> (#[trigger] q[i]).1 == lowercase_utf8(q[i].0.name@),
    ensures
        forall|e: ResourceEntry| #[trigger] entries_of(q).to_multiset().count(e)
            == q.to_multiset().count((e, lowercase_utf8(e.name@))),
    decreases q.len(),
{
    broadcast use vstd::multiset::group_multiset_axioms;
    broadcast use vstd::seq_lib::group_to_multiset_ensures;
    let m = entries_of(q);
    if q.len() > 0 {
        let t = q.drop_last();
        assert forall|i: int| 0 <= i < t.len() implies (#[trigger] t[i]).1 == lowercase_utf8(t[i].0.name@) by {
            assert(t[i] == q[i]);
        }
        lemma_first_count(t);
        let mt = entries_of(t);
        assert(m =~= mt.push(q.last().0));
        assert(t.push(q.last()) =~= q);
        assert(q.last() == q[q.len() - 1]);
        assert(q.last() == (q.last().0, lowercase_utf8(q.last().0.name@)));
    } else {
        assert(m =~= Seq::<ResourceEntry>::empty());
    }
}

proof fn lemma_browser_pairs(s: Seq<ResourceEntry>)
    ensures
        forall|i: int| 0 <= i < sort_keyed(visible_keyed(lowered_entries(s))).len()
            ==> (#[trigger] sort_keyed(visible_keyed(lowered_entries(s)))[i]).1
                == lowercase_utf8(sort_keyed(visible_keyed(lowered_entries(s)))[i].0.name@),
        forall|e: ResourceEntry| #[trigger] browser_listing(s).to_multiset().count(e)
            == if is_hidden_name(e.name@) { 0 } else { s.to_multiset().count(e) },
{
    broadcast use vstd::seq_lib::group_to_multiset_ensures;
    let l = lowered_entries(s);
    let r = sort_keyed(visible_keyed(l));
    law_keyed_listing(l);
    assert forall|i: int| 0 <= i < l.len() implies (#[trigger] l[i]).1 == lowercase_utf8(l[i].0.name@) by {}
    assert forall|i: int| 0 <= i < r.len() implies (#[trigger] r[i]).1 == lowercase_utf8(r[i].0.name@) by {
        let p = r[i];
        assert(r.contains(p));
        assert(r.to_multiset().count(p) > 0);
        assert(l.to_multiset().count(p) > 0);
        assert(l.contains(p));
        let k = choose|k: int| 0 <= k < l.len() && l[k] == p;
    }
    lemma_first_count(r);
    lemma_first_count(l);
    assert(entries_of(l) =~= s);
}

/// The browser listing holds exactly the entries that are not hidden, each as often
/// as it was given.
pub proof fn law_listing_keeps_visible_entries(s: Seq<ResourceEntry>)
    ensures
        forall|e: ResourceEntry| #[trigger] browser_listing(s).to_multiset().count(e)
            == if is_hidden_name(e.name@) { 0 } else { s.to_multiset().count(e) },
{
    lemma_browser_pairs(s);
}

/// In the browser listing folders come before files, and within each group a later
/// entry's lower-cased name never comes before an earlier one's.
pub proof fn law_listing_folders_first_then_by_name(s: Seq<ResourceEntry>)
    ensures
        forall|i: int, j: int| 0 <= i < j < browser_listing(s).len() ==> {
            let a = #[trigger] browser_listing(s)[i];
            let b = #[trigger] browser_listing(s)[j];
            &&& b.kind == FileKind::Folder ==> a.kind == FileKind::Folder
            &&& (a.kind == FileKind::Folder) == (b.kind == FileKind::Folder)
                ==> !bytes_before(lowercase_utf8(b.name@), lowercase_utf8(a.name@))
        },
{
    let r = sort_keyed(visible_keyed(lowered_entries(s)));
    lemma_browser_pairs(s);
    law_keyed_listing(lowered_entries(s));
    assert forall|i: int, j: int| 0 <= i < j < browser_listing(s).len() implies {
        let a = #[trigger] browser_listing(s)[i];
        let b = #[trigger] browser_listing(s)[j];
        &&& b.kind == FileKind::Folder ==> a.kind == FileKind::Folder
        &&& (a.kind == FileKind::Folder) == (b.kind == FileKind::Folder)
            ==> !bytes_before(lowercase_utf8(b.name@), lowercase_utf8(a.name@))
    } by {
        assert(browser_listing(s)[i] == r[i].0);
        assert(browser_listing(s)[j] == r[j].0);
        assert(!keyed_precedes(r[j], r[i]));
        assert(r[i].1 == lowercase_utf8(r[i].0.name@));
        assert(r[j].1 == lowercase_utf8(r[j].0.name@));
    }
}


// ---------------------------------------------------------------------------
// Human-readable sizes
// ---------------------------------------------------------------------------

/// The decimal digit character for `d` (0..=9).
pub open spec fn digit_char(d: nat) -> char {
    ((d + 48) as u32) as char
}

/// Decimal text of `n`, without leading zeros.
pub open spec fn decimal(n: nat) -> Seq<char>
    decreases n,
{
    if n < 10 {
        seq![digit_char(n)]
    } else {
        decimal(n / 10).push(digit_char(n % 10))
    }
}

/// `num / den` rounded to the nearest integer, ties to the even neighbour.
pub open spec fn round_half_even(num: nat, den: nat) -> nat
    recommends
        den > 0,
{
    let q = num / den;
    let r = num % den;
    if 2 * r > den {
        q + 1
    } else if 2 * r < den {
        q
    } else if q % 2 == 0 {
        q
    } else {
        q + 1
    }
}

/// Text of a number of tenths with exactly one decimal: `12.3`.
pub open spec fn one_decimal(tenths: nat) -> Seq<char> {
    decimal(tenths / 10) + seq!['.'] + seq![digit_char(tenths % 10)]
}

/// Number of low bits dropped when `b` is held in a binary64 float (53-bit significand).
pub open spec fn f64_dropped_bits(b: nat, s: nat) -> nat
    decreases 11 - s,
{
    if s >= 11 || b < vstd::arithmetic::power2::pow2(53 + s) {
        s
    } else {
        f64_dropped_bits(b, s + 1)
    }
}

/// The value of `b as f64` for a `u64` `b`: rounded to 53 significant bits, ties to even.
pub open spec fn f64_value_of(b: nat) -> nat {
    let s = f64_dropped_bits(b, 0);
    let unit = vstd::arithmetic::power2::pow2(s);
    round_half_even(b, unit) * unit
}

/// `format_size` text: bytes below 1 KiB as `N B`; below 1 MiB as KiB with one decimal;
/// otherwise MiB with one decimal. Decimals are those of the `f64` quotient, rounded to
/// nearest with ties to even.
pub open spec fn spec_format_size(bytes: u64) -> Seq<char> {
    if bytes < 1024 {
        decimal(bytes as nat) + " B"@
    } else if bytes < 1024 * 1024 {
        one_decimal(round_half_even((bytes * 10) as nat, 1024)) + " KB"@
    } else {
        one_decimal(round_half_even(f64_value_of(bytes as nat) * 10, 1024 * 1024)) + " MB"@
    }
}

fn exec_round_half_even(num: u128, den: u128) -> (r: u128)
    requires
        den > 0,
        num < u128::MAX / 2,
    ensures
        r == round_half_even(num as nat, den as nat),
{
    let q = num / den;
    let r = num % den;
    proof {
        vstd::arithmetic::div_mod::lemma_fundamental_div_mod(num as int, den as int);
        assert(q <= num) by (nonlinear_arith) requires q == num / den, den > 0;
        assert(r < den) by (nonlinear_arith) requires r == num % den, den > 0;
    }
    if 2 * r > den {
        q + 1
    } else if 2 * r < den {
        q
    } else if q % 2 == 0 {
        q
    } else {
        q + 1
    }
}

/// Appends the decimal text of `n`.
pub(crate) fn push_decimal(out: &mut String, n: u128)
    ensures
        final(out)@ == old(out)@ + decimal(n as nat),
    decreases n,
{
    let digits = "0123456789";
    proof {
        reveal_strlit("0123456789");
    }
    if n >= 10 {
        push_decimal(out, n / 10);
    }
    let d = (n % 10) as usize;
    proof {
        assert forall|k: int| 0 <= k < 10 implies #[trigger] digits@[k] == digit_char(k as nat) by {
            if k == 0 { assert(digits@[k] == '0'); }
            if k == 1 { assert(digits@[k] == '1'); }
            if k == 2 { assert(digits@[k] == '2'); }
            if k == 3 { assert(digits@[k] == '3'); }
            if k == 4 { assert(digits@[k] == '4'); }
            if k == 5 { assert(digits@[k] == '5'); }
            if k == 6 { assert(digits@[k] == '6'); }
            if k == 7 { assert(digits@[k] == '7'); }
            if k == 8 { assert(digits@[k] == '8'); }
            if k == 9 { assert(digits@[k] == '9'); }
        }
    }
    out.append(digits.substring_char(d, d + 1));
    proof {
        assert(digits@.subrange(d as int, d + 1) =~= seq![digit_char(d as nat)]);
        if n >= 10 {
            assert(decimal(n as nat) == decimal((n / 10) as nat).push(digit_char((n % 10) as nat)));
        }
    }
}

/// Smallest `s` (up to 11) with `b < 2^(53 + s)`, and `2^s`.
fn dropped_bits(b: u64) -> (r: (u32, u128))
    ensures
        r.0 == f64_dropped_bits(b as nat, 0),
        r.0 <= 11,
        r.1 == vstd::arithmetic::power2::pow2(r.0 as nat),
        1 <= r.1 <= 0x800,
{
    let mut s: u32 = 0;
    let mut unit: u128 = 1;
    let mut lim: u128 = 0x20_0000_0000_0000;
    proof {
        vstd::arithmetic::power2::lemma2_to64();
        vstd::arithmetic::power2::lemma2_to64_rest();
    }
    while s < 11 && (b as u128) >= lim
        invariant
            s <= 11,
            unit == vstd::arithmetic::power2::pow2(s as nat),
            lim == vstd::arithmetic::power2::pow2((53 + s) as nat),
            1 <= unit <= 0x800,
            lim <= 0x1_0000_0000_0000_0000,
            f64_dropped_bits(b as nat, s as nat) == f64_dropped_bits(b as nat, 0),
        decreases 11 - s,
    {
        proof {
            vstd::arithmetic::power2::lemma_pow2_unfold((s + 1) as nat);
            vstd::arithmetic::power2::lemma_pow2_unfold((53 + s + 1) as nat);
            vstd::arithmetic::power2::lemma2_to64();
            vstd::arithmetic::power2::lemma2_to64_rest();
            assert(s + 1 <= 11);
            if s + 1 < 11 {
                vstd::arithmetic::power2::lemma_pow2_strictly_increases((s + 1) as nat, 11);
                vstd::arithmetic::power2::lemma_pow2_strictly_increases((53 + s + 1) as nat, 64);
            }
        }
        s += 1;
        unit = unit * 2;
        lim = lim * 2;
    }
    (s, unit)
}

/// Human-readable file size: `512 B`, `1.5 KB`, `2.0 MB`.
pub fn format_size(bytes: u64) -> (r: String)
    ensures
        r@ == spec_format_size(bytes),
{
    let mut out = String::new();
    proof {
        reveal_strlit(" B");
        reveal_strlit(" KB");
        reveal_strlit(" MB");
        reveal_strlit(".");
    }
    if bytes < 1024 {
        push_decimal(&mut out, bytes as u128);
        out.append(" B");
    } else if bytes < 1024 * 1024 {
        let t = exec_round_half_even(bytes as u128 * 10, 1024);
        push_decimal(&mut out, t / 10);
        out.append(".");
        push_decimal(&mut out, t % 10);
        out.append(" KB");
    } else {
        let (s, unit) = dropped_bits(bytes);
        proof {
            vstd::arithmetic::power2::lemma_pow2_pos(s as nat);
        }
        let rq = exec_round_half_even(bytes as u128, unit);
        proof {
            lemma_round_half_even_bound(bytes as nat, unit as nat);
            assert(rq * unit <= (bytes as int / unit as int) * unit + unit) by (nonlinear_arith)
                requires rq <= bytes as int / unit as int + 1, unit > 0;
            assert((bytes as int / unit as int) * unit <= bytes) by (nonlinear_arith)
                requires unit > 0, bytes >= 0;
        }
        let v = rq * unit;
        let t = exec_round_half_even(v * 10, 1024 * 1024);
        push_decimal(&mut out, t / 10);
        out.append(".");
        push_decimal(&mut out, t % 10);
        out.append(" MB");
    }
    out
}

proof fn lemma_round_half_even_bound(num: nat, den: nat)
    requires
        den > 0,
    ensures
        round_half_even(num, den) <= num / den + 1,
{
}

/// The nation palette (RGBA), cycled through by nation id.
pub open spec fn nation_palette(i: int) -> [u8; 4] {
    if i == 0 { [0x8Bu8, 0x45u8, 0x13u8, 255u8] }
    else if i == 1 { [0x41u8, 0x69u8, 0xE1u8, 255u8] }
    else if i == 2 { [0x22u8, 0x8Bu8, 0x22u8, 255u8] }
    else if i == 3 { [0xDCu8, 0x14u8, 0x3Cu8, 255u8] }
    else if i == 4 { [0xFFu8, 0xD7u8, 0x00u8, 255u8] }
    else if i == 5 { [0x99u8, 0x32u8, 0xCCu8, 255u8] }
    else if i == 6 { [0x00u8, 0xBFu8, 0xFFu8, 255u8] }
    else if i == 7 { [0xFFu8, 0x63u8, 0x47u8, 255u8] }
    else if i == 8 { [0x2Eu8, 0x8Bu8, 0x57u8, 255u8] }
    else if i == 9 { [0x93u8, 0x70u8, 0xDBu8, 255u8] }
    else if i == 10 { [0x87u8, 0xCEu8, 0xEBu8, 255u8] }
    else if i == 11 { [0xB8u8, 0x86u8, 0x0Bu8, 255u8] }
    else if i == 12 { [0xCDu8, 0x5Cu8, 0x5Cu8, 255u8] }
    else if i == 13 { [0x20u8, 0xB2u8, 0xAAu8, 255u8] }
    else if i == 14 { [0x69u8, 0x69u8, 0x69u8, 255u8] }
    else { [0xFFu8, 0x69u8, 0xB4u8, 255u8] }
}

fn palette_entry(i: u32) -> (r: [u8; 4])
    requires
        i < 16,
    ensures
        r == nation_palette(i as int),
{
    if i == 0 { [0x8B, 0x45, 0x13, 255] }
    else if i == 1 { [0x41, 0x69, 0xE1, 255] }
    else if i == 2 { [0x22, 0x8B, 0x22, 255] }
    else if i == 3 { [0xDC, 0x14, 0x3C, 255] }
    else if i == 4 { [0xFF, 0xD7, 0x00, 255] }
    else if i == 5 { [0x99, 0x32, 0xCC, 255] }
    else if i == 6 { [0x00, 0xBF, 0xFF, 255] }
    else if i == 7 { [0xFF, 0x63, 0x47, 255] }
    else if i == 8 { [0x2E, 0x8B, 0x57, 255] }
    else if i == 9 { [0x93, 0x70, 0xDB, 255] }
    else if i == 10 { [0x87, 0xCE, 0xEB, 255] }
    else if i == 11 { [0xB8, 0x86, 0x0B, 255] }
    else if i == 12 { [0xCD, 0x5C, 0x5C, 255] }
    else if i == 13 { [0x20, 0xB2, 0xAA, 255] }
    else if i == 14 { [0x69, 0x69, 0x69, 255] }
    else { [0xFF, 0x69, 0xB4, 255] }
}

/// Colour of nation `nation_raw` (RGBA): gray 80 for no nation, else the palette entry
/// `(nation_raw - 1) % 16`.
pub open spec fn nation_rgba(nation_raw: u32) -> [u8; 4] {
    if nation_raw == 0 { [80u8, 80u8, 80u8, 255u8] } else { nation_palette((nation_raw - 1) % 16) }
}

/// Colour of nation `nation_raw` (RGBA), as `nation_rgba`.
pub fn nation_color(nation_raw: u32) -> (r: [u8; 4])
    ensures
        r == nation_rgba(nation_raw),
{
    if nation_raw == 0 {
        return [80, 80, 80, 255];
    }
    palette_entry((nation_raw - 1) % 16)
}

/// Hash of a province id that spreads the hues: Knuth's multiplicative hash.
pub open spec fn province_hash(raw: u32) -> u32 {
    raw.wrapping_mul(2654435761u32)
}

/// Colour of province `raw` (RGBA): dark gray for no province; else each channel is
/// 60 plus one byte of `province_hash(raw)` (low, middle, high) modulo 180.
pub open spec fn province_rgba(raw: u32) -> [u8; 4] {
    if raw == 0 {
        [0x30u8, 0x30u8, 0x30u8, 255u8]
    } else {
        [
            (60 + (province_hash(raw) % 256) % 180) as u8,
            (60 + ((province_hash(raw) / 256) % 256) % 180) as u8,
            (60 + ((province_hash(raw) / 65536) % 256) % 180) as u8,
            255u8,
        ]
    }
}

/// Colour of province `raw` (RGBA), as `province_rgba`.
pub fn province_color(raw: u32) -> (r: [u8; 4])
    ensures
        r == province_rgba(raw),
{
    if raw == 0 {
        return [0x30, 0x30, 0x30, 255];
    }
    let h = raw.wrapping_mul(2654435761u32);
    let r8 = (h & 0xFF) as u8;
    let g8 = ((h >> 8u32) & 0xFF) as u8;
    let b8 = ((h >> 16u32) & 0xFF) as u8;
    proof {
        assert(h & 0xFF == h % 256) by (bit_vector);
        assert((h >> 8u32) & 0xFF == (h / 256) % 256) by (bit_vector);
        assert((h >> 16u32) & 0xFF == (h / 65536) % 256) by (bit_vector);
    }
    [60 + (r8 % 180), 60 + (g8 % 180), 60 + (b8 % 180), 255]
}

} // verus!
