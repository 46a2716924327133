//! Map painting: what a brush, fill, eraser or eyedropper stroke does to a map
//! layout, the province store and the painter's selection, and the undo history
//! of such strokes.

use vstd::prelude::*;
use vstd::arithmetic::div_mod::{lemma_fundamental_div_mod, lemma_fundamental_div_mod_converse, lemma_mod_bound};
use crate::archetypes::{unknown_terrain_color, Province, TerrainRegistry};
use crate::map_file::{compute_adjacency_from_layout, lists_clean, listed, square_adjacent, square_neighbors_of, square_tile};
use crate::editor_utils::{
    hex_brush_ok, hex_brush_tiles, nation_color, nation_rgba, province_color, province_rgba, spec_hex_brush_tiles,
};
use crate::world::{grid_index, HexMapLayout, MapLayout, NationId, ProvinceId, ProvinceStore, ScopeId};

verus! {

/// The province terrain `terrain` carries across from `start`: a set holding `start`
/// and, with each province in it, every adjacent stored province of that terrain.
pub open spec fn terrain_closed(l: MapLayout, ps: Seq<Province>, terrain: u8, start: u32, s: Set<u32>) -> bool {
    &&& s.contains(start)
    &&& forall|a: u32, b: u32|
        #![trigger s.contains(a), square_adjacent(l, a, b)]
        s.contains(a) && square_adjacent(l, a, b) && 1 <= b <= ps.len() && ps[b - 1].terrain == terrain
            ==> s.contains(b)
}

/// The provinces connected to `start` through adjacent stored provinces of terrain
/// `terrain`: those in every such closed set.
pub open spec fn terrain_region(l: MapLayout, ps: Seq<Province>, terrain: u8, start: u32) -> Set<u32> {
    Set::new(|p: u32| forall|s: Set<u32>| #[trigger] terrain_closed(l, ps, terrain, start, s) ==> s.contains(p))
}

/// Number of `true` entries.
pub open spec fn count_true(s: Seq<bool>) -> nat
    decreases s.len(),
{
    if s.len() == 0 {
        0
    } else {
        count_true(s.drop_last()) + if s.last() { 1nat } else { 0nat }
    }
}

proof fn lemma_count_true_bound(s: Seq<bool>)
    ensures
        count_true(s) <= s.len(),
    decreases s.len(),
{
    if s.len() > 0 {
        lemma_count_true_bound(s.drop_last());
    }
}

proof fn lemma_count_true_set(s: Seq<bool>, i: int)
    requires
        0 <= i < s.len(),
        !s[i],
    ensures
        count_true(s.update(i, true)) == count_true(s) + 1,
    decreases s.len(),
{
    let t = s.update(i, true);
    if i == s.len() - 1 {
        assert(t.drop_last() =~= s.drop_last());
    } else {
        assert(t.drop_last() =~= s.drop_last().update(i, true));
        lemma_count_true_set(s.drop_last(), i);
    }
}

proof fn lemma_count_true_none(n: nat)
    ensures
        count_true(Seq::new(n, |i: int| false)) == 0,
    decreases n,
{
    if n > 0 {
        assert(Seq::new(n, |i: int| false).drop_last() =~= Seq::new((n - 1) as nat, |i: int| false));
        lemma_count_true_none((n - 1) as nat);
    }
}

/// Stored province `b` has terrain `terrain`.
pub open spec fn has_terrain(ps: Seq<Province>, b: u32, terrain: u8) -> bool {
    1 <= b <= ps.len() && ps[b - 1].terrain == terrain
}

/// Provinces connected to `start_prov` through tile-adjacent provinces of terrain
/// `terrain` (of the store), `start_prov` first, each once.
pub fn find_connected_provinces_by_terrain(
    layout: &MapLayout,
    start_prov: u32,
    terrain: u8,
    store: &ProvinceStore,
) -> (r: Vec<u32>)
    requires
        store.provinces@.len() <= u32::MAX,
    ensures
        r@.len() >= 1,
        r@[0] == start_prov,
        r@.no_duplicates(),
        r@.to_set() == terrain_region(*layout, store.provinces@, terrain, start_prov),
{
    let ghost l = *layout;
    let ghost ps = store.provinces@;
    let n = store.provinces.len();
    let adj = compute_adjacency_from_layout(layout, n as u32);
    let inside = start_prov >= 1 && (start_prov as usize) <= n;
    let mut visited: Vec<bool> = vec![false; n];
    let mut queue: Vec<u32> = Vec::new();
    proof {
        assert(visited@ =~= Seq::new(n as nat, |i: int| false));
        lemma_count_true_none(n as nat);
    }
    if inside {
        proof {
            lemma_count_true_set(visited@, start_prov - 1);
        }
        visited.set((start_prov - 1) as usize, true);
        queue.push(start_prov);
        proof {
            assert forall|i: int| 0 <= i < n && #[trigger] visited@[i] implies queue@.contains((i + 1) as u32) by {
                assert(i == start_prov - 1);
                assert(queue@[0] == (i + 1) as u32);
            }
        }
    } else {
        let seeds = square_neighbors_of(layout, start_prov);
        let sn = seeds.len();
        let mut i: usize = 0;
        while i < sn
            invariant
                n == ps.len(),
                n <= u32::MAX,
                ps == store.provinces@,
                l == *layout,
                !(1 <= start_prov <= n),
                sn == seeds@.len(),
                i <= sn,
                forall|b: u32| #[trigger] seeds@.contains(b) <==> square_adjacent(l, start_prov, b),
                visited@.len() == n,
                count_true(visited@) == queue@.len(),
                queue@.no_duplicates(),
                forall|k: int| 0 <= k < queue@.len() ==> 1 <= #[trigger] queue@[k] <= n && visited@[queue@[k] - 1],
                forall|j: int| 0 <= j < n && #[trigger] visited@[j] ==> queue@.contains((j + 1) as u32),
                forall|q: int| 0 <= q < i && has_terrain(ps, #[trigger] seeds@[q], terrain) ==> visited@[seeds@[q] - 1],
                forall|s: Set<u32>|
                    #[trigger] terrain_closed(l, ps, terrain, start_prov, s)
                        ==> forall|k: int| 0 <= k < queue@.len() ==> s.contains(#[trigger] queue@[k]),
            decreases sn - i,
        {
            let b = seeds[i];
            proof {
                assert(seeds@.contains(b));
            }
            if b >= 1 && b <= n as u32 && !visited[(b - 1) as usize]
                && store.provinces[(b - 1) as usize].terrain == terrain {
                let ghost qb = queue@;
                let ghost vb = visited@;
                proof {
                    lemma_count_true_set(visited@, b - 1);
                }
                visited.set((b - 1) as usize, true);
                queue.push(b);
                proof {
                    assert(!qb.contains(b)) by {
                        if qb.contains(b) {
                            let k = choose|k: int| 0 <= k < qb.len() && qb[k] == b;
                            assert(vb[qb[k] - 1]);
                        }
                    }
                    assert forall|j: int| 0 <= j < n && #[trigger] visited@[j] implies queue@.contains((j + 1) as u32) by {
                        if j == b - 1 {
                            assert(queue@[qb.len() as int] == b);
                        } else {
                            assert(vb[j]);
                            let k = choose|k: int| 0 <= k < qb.len() && qb[k] == (j + 1) as u32;
                            assert(queue@[k] == (j + 1) as u32);
                        }
                    }
                    assert forall|s: Set<u32>| #[trigger] terrain_closed(l, ps, terrain, start_prov, s)
                        implies forall|k: int| 0 <= k < queue@.len() ==> s.contains(#[trigger] queue@[k]) by {
                        assert(s.contains(start_prov));
                        assert(square_adjacent(l, start_prov, b));
                        assert(s.contains(b));
                        assert forall|k: int| 0 <= k < queue@.len() implies s.contains(#[trigger] queue@[k]) by {
                            if k < qb.len() {
                                assert(queue@[k] == qb[k]);
                            }
                        }
                    }
                }
            }
            i += 1;
        }
        proof {
            assert forall|b: u32| #[trigger] square_adjacent(l, start_prov, b) && has_terrain(ps, b, terrain)
                implies visited@[b - 1] by {
                assert(seeds@.contains(b));
                let q = choose|q: int| 0 <= q < seeds@.len() && seeds@[q] == b;
                assert(has_terrain(ps, seeds@[q], terrain));
            }
        }
    }
    let mut head: usize = 0;
    while head < queue.len()
        invariant
            n == ps.len(),
            n <= u32::MAX,
            ps == store.provinces@,
            l == *layout,
            adj@.len() == n,
            lists_clean(adj@),
            forall|a: u32, b: u32| listed(adj@, a, b) <==> (a <= n && square_adjacent(l, a, b)),
            visited@.len() == n,
            count_true(visited@) == queue@.len(),
            head <= queue@.len(),
            inside == (1 <= start_prov <= n),
            inside ==> queue@.len() >= 1 && queue@[0] == start_prov,
            !inside ==> forall|b: u32| #[trigger] square_adjacent(l, start_prov, b) && has_terrain(ps, b, terrain)
                ==> visited@[b - 1],
            queue@.no_duplicates(),
            forall|k: int| 0 <= k < queue@.len() ==> 1 <= #[trigger] queue@[k] <= n && visited@[queue@[k] - 1],
            forall|i: int| 0 <= i < n && #[trigger] visited@[i] ==> queue@.contains((i + 1) as u32),
            forall|k: int, b: u32|
                0 <= k < head && #[trigger] square_adjacent(l, queue@[k], b) && has_terrain(ps, b, terrain)
                    ==> visited@[b - 1],
            forall|s: Set<u32>|
                #[trigger] terrain_closed(l, ps, terrain, start_prov, s)
                    ==> forall|k: int| 0 <= k < queue@.len() ==> s.contains(#[trigger] queue@[k]),
        decreases n - head,
    {
        proof {
            lemma_count_true_bound(visited@);
        }
        let a = queue[head];
        let nbrs = adj.get(ProvinceId::from_raw(a));
        let m = nbrs.len();
        let ghost q0 = queue@;
        let mut j: usize = 0;
        while j < m
            invariant
                n == ps.len(),
                n <= u32::MAX,
                ps == store.provinces@,
                l == *layout,
                adj@.len() == n,
                lists_clean(adj@),
                1 <= a <= n,
                nbrs@ == adj@[a - 1],
                m == nbrs@.len(),
                j <= m,
                visited@.len() == n,
                count_true(visited@) == queue@.len(),
                head < queue@.len(),
                queue@[head as int] == a,
                q0.len() <= queue@.len(),
                forall|k: int| 0 <= k < q0.len() ==> queue@[k] == q0[k],
                inside == (1 <= start_prov <= n),
                inside ==> queue@.len() >= 1 && queue@[0] == start_prov,
                !inside ==> forall|b: u32| #[trigger] square_adjacent(l, start_prov, b) && has_terrain(ps, b, terrain)
                    ==> visited@[b - 1],
                queue@.no_duplicates(),
                forall|k: int| 0 <= k < queue@.len() ==> 1 <= #[trigger] queue@[k] <= n && visited@[queue@[k] - 1],
                forall|i: int| 0 <= i < n && #[trigger] visited@[i] ==> queue@.contains((i + 1) as u32),
                forall|k: int, b: u32|
                    0 <= k < head && #[trigger] square_adjacent(l, queue@[k], b) && has_terrain(ps, b, terrain)
                        ==> visited@[b - 1],
                forall|q: int| 0 <= q < j && has_terrain(ps, #[trigger] nbrs@[q], terrain) ==> visited@[nbrs@[q] - 1],
                forall|q: int| 0 <= q < m ==> square_adjacent(l, a, #[trigger] nbrs@[q]),
                forall|s: Set<u32>|
                    #[trigger] terrain_closed(l, ps, terrain, start_prov, s)
                        ==> forall|k: int| 0 <= k < queue@.len() ==> s.contains(#[trigger] queue@[k]),
            decreases m - j,
        {
            let b = nbrs[j];
            if b >= 1 && b <= n as u32 && !visited[(b - 1) as usize]
                && store.provinces[(b - 1) as usize].terrain == terrain {
                let ghost qb = queue@;
                let ghost vb = visited@;
                proof {
                    lemma_count_true_set(visited@, b - 1);
                }
                visited.set((b - 1) as usize, true);
                queue.push(b);
                proof {
                    assert(!qb.contains(b)) by {
                        if qb.contains(b) {
                            let k = choose|k: int| 0 <= k < qb.len() && qb[k] == b;
                            assert(vb[qb[k] - 1]);
                        }
                    }
                    assert forall|i: int| 0 <= i < n && #[trigger] visited@[i] implies queue@.contains((i + 1) as u32) by {
                        if i == b - 1 {
                            assert(queue@[qb.len() as int] == b);
                        } else {
                            assert(vb[i]);
                            let k = choose|k: int| 0 <= k < qb.len() && qb[k] == (i + 1) as u32;
                            assert(queue@[k] == (i + 1) as u32);
                        }
                    }
                    assert forall|s: Set<u32>| #[trigger] terrain_closed(l, ps, terrain, start_prov, s)
                        implies forall|k: int| 0 <= k < queue@.len() ==> s.contains(#[trigger] queue@[k]) by {
                        assert(s.contains(qb[head as int]));
                        assert(square_adjacent(l, a, b));
                        assert(s.contains(b));
                        assert forall|k: int| 0 <= k < queue@.len() implies s.contains(#[trigger] queue@[k]) by {
                            if k < qb.len() {
                                assert(queue@[k] == qb[k]);
                            }
                        }
                    }
                }
            }
            j += 1;
        }
        proof {
            assert forall|k: int, b: u32|
                0 <= k < head + 1 && #[trigger] square_adjacent(l, queue@[k], b) && has_terrain(ps, b, terrain)
                    implies visited@[b - 1] by {
                if k == head {
                    assert(listed(adj@, a, b));
                    let q = choose|q: int| 0 <= q < nbrs@.len() && nbrs@[q] == b;
                    assert(has_terrain(ps, nbrs@[q], terrain));
                }
            }
        }
        head += 1;
    }
    let mut r: Vec<u32> = Vec::new();
    if !inside {
        r.push(start_prov);
    }
    let ghost q = queue@;
    r.append(&mut queue);
    proof {
        assert(inside ==> r@ =~= q);
        assert(!inside ==> r@ =~= seq![start_prov] + q);
        assert(r@.len() >= 1 && r@[0] == start_prov);
        assert(r@.no_duplicates()) by {
            if !inside {
                assert forall|i: int, j: int| 0 <= i < j < r@.len() implies r@[i] != r@[j] by {
                    if i == 0 {
                        assert(r@[j] == q[j - 1]);
                    } else {
                        assert(r@[i] == q[i - 1] && r@[j] == q[j - 1]);
                    }
                }
            }
        }
        let v = r@.to_set();
        assert forall|p: u32| v.contains(p) <==> (p == start_prov || q.contains(p)) by {
            if v.contains(p) {
                let k = choose|k: int| 0 <= k < r@.len() && r@[k] == p;
                if !inside && k > 0 {
                    assert(q[k - 1] == p);
                }
            }
            if q.contains(p) {
                let k = choose|k: int| 0 <= k < q.len() && q[k] == p;
                if inside {
                    assert(r@[k] == p);
                } else {
                    assert(r@[k + 1] == p);
                }
            }
            if p == start_prov {
                assert(r@[0] == p);
            }
        }
        assert(terrain_closed(l, ps, terrain, start_prov, v)) by {
            assert forall|a: u32, b: u32|
                #![trigger v.contains(a), square_adjacent(l, a, b)]
                v.contains(a) && square_adjacent(l, a, b) && 1 <= b <= ps.len() && ps[b - 1].terrain == terrain
                    implies v.contains(b) by {
                assert(has_terrain(ps, b, terrain));
                if q.contains(a) {
                    let k = choose|k: int| 0 <= k < q.len() && q[k] == a;
                    assert(square_adjacent(l, q[k], b));
                    assert(visited@[b - 1]);
                } else {
                    assert(a == start_prov);
                    if inside {
                        assert(q[0] == a);
                        assert(square_adjacent(l, q[0], b));
                    }
                    assert(visited@[b - 1]);
                }
                assert(q.contains(((b - 1) + 1) as u32));
            }
        }
        assert forall|p: u32| #[trigger] v.contains(p) <==> terrain_region(l, ps, terrain, start_prov).contains(p) by {
            if v.contains(p) {
                assert forall|s: Set<u32>| #[trigger] terrain_closed(l, ps, terrain, start_prov, s) implies s.contains(p) by {
                    if q.contains(p) {
                        let k = choose|k: int| 0 <= k < q.len() && q[k] == p;
                        assert(s.contains(q[k]));
                    }
                }
            }
            if terrain_region(l, ps, terrain, start_prov).contains(p) {
                assert(terrain_closed(l, ps, terrain, start_prov, v));
            }
        }
        assert(v =~= terrain_region(l, ps, terrain, start_prov));
    }
    r
}


/// What painting on the map edits.
#[derive(Clone, Copy, Debug, PartialEq, Eq, Structural)]
pub enum MapEditorPaintMode {
    /// Paint nation ownership of provinces.
    PaintOwnership,
    /// Edit which province each tile holds.
    EditProvinces,
}

/// A keyboard shortcut of the map editor.
#[derive(Clone, Copy, Debug, PartialEq, Eq, Structural)]
pub enum EditorShortcut {
    /// Command+Z.
    Undo,
    /// Command+Shift+Z.
    Redo,
    /// Tab: switch the paint mode.
    TogglePaintMode,
    /// `[`: shrink the brush.
    ShrinkBrush,
    /// `]`: grow the brush.
    GrowBrush,
    /// N: show or hide province names.
    ToggleNames,
}

/// The editor state that shortcuts change.
#[derive(Clone, Copy, Debug, PartialEq, Eq, Structural)]
pub struct ShortcutState {
    pub paint_mode: MapEditorPaintMode,
    pub brush_radius: u32,
    pub show_names: bool,
}

/// What the editor does after a shortcut besides changing its state.
#[derive(Clone, Copy, Debug, PartialEq, Eq, Structural)]
pub enum ShortcutAction {
    Nothing,
    Undo,
    Redo,
}

/// Largest brush radius that `]` reaches.
pub const MAX_BRUSH_RADIUS: u32 = 3;

/// A shortcut's effect: undo and redo work everywhere; the others only in the map
/// editor, where Tab switches the paint mode, `[` shrinks the brush (not below 0),
/// `]` grows it (up to 3) and N toggles the names.
pub open spec fn shortcut_step(st: ShortcutState, key: EditorShortcut, in_map_editor: bool) -> (ShortcutState, ShortcutAction) {
    match key {
        EditorShortcut::Undo => (st, ShortcutAction::Undo),
        EditorShortcut::Redo => (st, ShortcutAction::Redo),
        _ => if !in_map_editor {
            (st, ShortcutAction::Nothing)
        } else {
            match key {
                EditorShortcut::TogglePaintMode => (ShortcutState {
                    paint_mode: match st.paint_mode {
                        MapEditorPaintMode::PaintOwnership => MapEditorPaintMode::EditProvinces,
                        MapEditorPaintMode::EditProvinces => MapEditorPaintMode::PaintOwnership,
                    },
                    ..st
                }, ShortcutAction::Nothing),
                EditorShortcut::ShrinkBrush => (ShortcutState {
                    brush_radius: if st.brush_radius == 0 { 0 } else { (st.brush_radius - 1) as u32 },
                    ..st
                }, ShortcutAction::Nothing),
                EditorShortcut::GrowBrush => (ShortcutState {
                    brush_radius: if st.brush_radius + 1 < MAX_BRUSH_RADIUS { (st.brush_radius + 1) as u32 } else { MAX_BRUSH_RADIUS },
                    ..st
                }, ShortcutAction::Nothing),
                _ => (ShortcutState { show_names: !st.show_names, ..st }, ShortcutAction::Nothing),
            }
        },
    }
}

/// Applies one keyboard shortcut to the editor state; the caller then performs the
/// returned action (undo or redo).
pub fn apply_shortcut(st: ShortcutState, key: EditorShortcut, in_map_editor: bool) -> (r: (ShortcutState, ShortcutAction))
    requires
        in_map_editor && key == EditorShortcut::GrowBrush ==> st.brush_radius < u32::MAX,
    ensures
        r == shortcut_step(st, key, in_map_editor),
{
    match key {
        EditorShortcut::Undo => (st, ShortcutAction::Undo),
        EditorShortcut::Redo => (st, ShortcutAction::Redo),
        _ => {
            if !in_map_editor {
                return (st, ShortcutAction::Nothing);
            }
            match key {
                EditorShortcut::TogglePaintMode => {
                    let mode = match st.paint_mode {
                        MapEditorPaintMode::PaintOwnership => MapEditorPaintMode::EditProvinces,
                        MapEditorPaintMode::EditProvinces => MapEditorPaintMode::PaintOwnership,
                    };
                    (ShortcutState { paint_mode: mode, ..st }, ShortcutAction::Nothing)
                },
                EditorShortcut::ShrinkBrush => {
                    let r = if st.brush_radius == 0 { 0 } else { st.brush_radius - 1 };
                    (ShortcutState { brush_radius: r, ..st }, ShortcutAction::Nothing)
                },
                EditorShortcut::GrowBrush => {
                    let g = st.brush_radius + 1;
                    let r = if g < MAX_BRUSH_RADIUS { g } else { MAX_BRUSH_RADIUS };
                    (ShortcutState { brush_radius: r, ..st }, ShortcutAction::Nothing)
                },
                _ => (ShortcutState { show_names: !st.show_names, ..st }, ShortcutAction::Nothing),
            }
        },
    }
}

/// A layout whose tiles cover exactly its grid.
pub open spec fn layout_well_formed(l: MapLayout) -> bool {
    l.tiles@.len() == l.width * l.height
}

/// Index of grid cell `p` in a grid `w` wide.
pub open spec fn cell_index(w: u32, p: (int, int)) -> int {
    p.1 * w + p.0
}

/// Cell `p` lies on the grid of `l`.
pub open spec fn on_grid(l: MapLayout, p: (int, int)) -> bool {
    0 <= p.0 < l.width && 0 <= p.1 < l.height
}

/// Cells `a` and `b` share an edge.
pub open spec fn grid_step(a: (int, int), b: (int, int)) -> bool {
    ||| b.0 == a.0 - 1 && b.1 == a.1
    ||| b.0 == a.0 + 1 && b.1 == a.1
    ||| b.0 == a.0 && b.1 == a.1 - 1
    ||| b.0 == a.0 && b.1 == a.1 + 1
}

/// A set of cells holding `start` and, with each cell, every edge-sharing grid cell
/// whose tile holds `target`.
pub open spec fn fill_closed(l: MapLayout, start: (int, int), target: u32, s: Set<(int, int)>) -> bool {
    &&& s.contains(start)
    &&& forall|a: (int, int), b: (int, int)|
        #![trigger s.contains(a), grid_step(a, b)]
        s.contains(a) && grid_step(a, b) && on_grid(l, b) && square_tile(l, b.0, b.1) == target ==> s.contains(b)
}

/// The cells a flood fill from `(x, y)` reaches: those connected to it through
/// edge-sharing cells holding the same province id as `(x, y)`.
pub open spec fn flood_region(l: MapLayout, x: u32, y: u32) -> Set<(int, int)> {
    Set::new(
        |p: (int, int)|
            forall|s: Set<(int, int)>|
                #[trigger] fill_closed(l, (x as int, y as int), square_tile(l, x as int, y as int), s)
                    ==> s.contains(p),
    )
}

/// The tiles of `l` after a flood fill from `(x, y)` with `v`.
pub open spec fn flood_filled(l: MapLayout, x: u32, y: u32, v: u32) -> Seq<u32> {
    Seq::new(
        l.tiles@.len(),
        |i: int|
            if l.width > 0 && flood_region(l, x, y).contains((i % (l.width as int), i / (l.width as int))) {
                v
            } else {
                l.tiles@[i]
            },
    )
}

/// The cell of a queued coordinate pair.
pub open spec fn cell_of(c: (u32, u32)) -> (int, int) {
    (c.0 as int, c.1 as int)
}

proof fn lemma_cell_in_tiles(w: u32, h: u32, x: int, y: int)
    requires
        0 <= x < w,
        0 <= y < h,
    ensures
        0 <= y * w + x < w * h,
{
    assert(0 <= y * w + x < w * h) by (nonlinear_arith)
        requires
            0 <= x < w,
            0 <= y < h,
    ;
}

proof fn lemma_on_grid_index(l: MapLayout, p: (int, int))
    requires
        layout_well_formed(l),
        on_grid(l, p),
    ensures
        0 <= cell_index(l.width, p) < l.tiles@.len(),
{
    lemma_cell_in_tiles(l.width, l.height, p.0, p.1);
}

proof fn lemma_cell_index_coords(w: u32, x: int, y: int)
    requires
        0 <= x < w,
        0 <= y,
    ensures
        (y * w + x) / (w as int) == y,
        (y * w + x) % (w as int) == x,
{
    lemma_fundamental_div_mod_converse(y * w + x, w as int, y, x);
}

proof fn lemma_index_cell(w: u32, h: u32, i: int)
    requires
        w > 0,
        0 <= i < w * h,
    ensures
        0 <= i % (w as int) < w,
        0 <= i / (w as int) < h,
        cell_index(w, (i % (w as int), i / (w as int))) == i,
{
    lemma_fundamental_div_mod(i, w as int);
    lemma_mod_bound(i, w as int);
    let q = i / (w as int);
    let r = i % (w as int);
    assert(i == (w as int) * q + r);
    assert(q * (w as int) == (w as int) * q) by (nonlinear_arith);
    assert(0 <= q < h) by (nonlinear_arith)
        requires
            i == (w as int) * q + r,
            0 <= r < w,
            0 <= i < w * h,
            w > 0,
    ;
}

proof fn lemma_cell_index_injective(l: MapLayout, p: (int, int), q: (int, int))
    requires
        on_grid(l, p),
        on_grid(l, q),
        cell_index(l.width, p) == cell_index(l.width, q),
    ensures
        p == q,
{
    lemma_cell_index_coords(l.width, p.0, p.1);
    lemma_cell_index_coords(l.width, q.0, q.1);
}

/// Bookkeeping of the flood fill: `visited` marks the queued cells (all holding
/// `target` and lying in every closed set), and the cells before `head` have had
/// their qualifying neighbours marked.
spec fn fill_state(
    l: MapLayout,
    start: (int, int),
    target: u32,
    visited: Seq<bool>,
    queue: Seq<(u32, u32)>,
    head: int,
) -> bool {
    &&& visited.len() == l.tiles@.len()
    &&& count_true(visited) == queue.len()
    &&& 0 <= head <= queue.len()
    &&& queue.len() >= 1
    &&& cell_of(queue[0]) == start
    &&& forall|k: int|
        0 <= k < queue.len() ==> on_grid(l, cell_of(#[trigger] queue[k])) && visited[cell_index(l.width, cell_of(queue[k]))]
            && square_tile(l, queue[k].0 as int, queue[k].1 as int) == target
    &&& forall|i: int|
        0 <= i < visited.len() && #[trigger] visited[i] ==> exists|k: int|
            0 <= k < queue.len() && #[trigger] cell_index(l.width, cell_of(queue[k])) == i
    &&& forall|k: int, b: (int, int)|
        0 <= k < head && #[trigger] grid_step(cell_of(queue[k]), b) && on_grid(l, b) && square_tile(l, b.0, b.1) == target
            ==> visited[cell_index(l.width, b)]
    &&& forall|s: Set<(int, int)>|
        #[trigger] fill_closed(l, start, target, s) ==> forall|k: int|
            0 <= k < queue.len() ==> s.contains(cell_of(#[trigger] queue[k]))
}

/// Marks and queues cell `(nx, ny)`, a neighbour of the cell at `head`, when it holds
/// `target` and is not marked yet.
fn visit_cell(
    tiles: &Vec<u32>,
    w: u32,
    target: u32,
    visited: &mut Vec<bool>,
    queue: &mut Vec<(u32, u32)>,
    nx: u32,
    ny: u32,
    Ghost(l): Ghost<MapLayout>,
    Ghost(start): Ghost<(int, int)>,
    Ghost(head): Ghost<int>,
)
    requires
        layout_well_formed(l),
        l.tiles@ == tiles@,
        l.width == w,
        fill_state(l, start, target, old(visited)@, old(queue)@, head),
        0 <= head < old(queue)@.len(),
        grid_step(cell_of(old(queue)@[head]), (nx as int, ny as int)),
        on_grid(l, (nx as int, ny as int)),
    ensures
        fill_state(l, start, target, final(visited)@, final(queue)@, head),
        old(queue)@.len() <= final(queue)@.len(),
        forall|k: int| 0 <= k < old(queue)@.len() ==> final(queue)@[k] == old(queue)@[k],
        final(visited)@ == old(visited)@.update(
            cell_index(w, (nx as int, ny as int)),
            old(visited)@[cell_index(w, (nx as int, ny as int))] || square_tile(l, nx as int, ny as int) == target,
        ),
{
    let ghost p = (nx as int, ny as int);
    let n = tiles.len();
    proof {
        lemma_cell_in_tiles(w, l.height, nx as int, ny as int);
    }
    let i = (ny as usize) * (w as usize) + (nx as usize);
    if tiles[i] == target && !visited[i] {
        let ghost vb = visited@;
        let ghost qb = queue@;
        proof {
            lemma_count_true_set(visited@, i as int);
        }
        visited.set(i, true);
        queue.push((nx, ny));
        proof {
            assert(cell_of(queue@[qb.len() as int]) == p);
            assert forall|j: int| 0 <= j < visited@.len() && #[trigger] visited@[j] implies exists|k: int|
                0 <= k < queue@.len() && #[trigger] cell_index(l.width, cell_of(queue@[k])) == j by {
                if j == i {
                    assert(cell_index(l.width, cell_of(queue@[qb.len() as int])) == j);
                } else {
                    assert(vb[j]);
                    let k = choose|k: int| 0 <= k < qb.len() && #[trigger] cell_index(l.width, cell_of(qb[k])) == j;
                    assert(queue@[k] == qb[k]);
                    assert(cell_index(l.width, cell_of(queue@[k])) == j);
                }
            }
            assert forall|k: int|
                0 <= k < queue@.len() implies on_grid(l, cell_of(#[trigger] queue@[k])) && visited@[cell_index(l.width, cell_of(queue@[k]))]
                    && square_tile(l, queue@[k].0 as int, queue@[k].1 as int) == target by {
                if k < qb.len() {
                    assert(queue@[k] == qb[k]);
                    lemma_on_grid_index(l, cell_of(qb[k]));
                }
            }
            assert forall|s: Set<(int, int)>| #[trigger] fill_closed(l, start, target, s) implies forall|k: int|
                0 <= k < queue@.len() ==> s.contains(cell_of(#[trigger] queue@[k])) by {
                assert(s.contains(cell_of(qb[head])));
                assert(grid_step(cell_of(qb[head]), p));
                assert(s.contains(p));
                assert forall|k: int| 0 <= k < queue@.len() implies s.contains(cell_of(#[trigger] queue@[k])) by {
                    if k < qb.len() {
                        assert(queue@[k] == qb[k]);
                    }
                }
            }
            assert forall|k: int, b: (int, int)|
                0 <= k < head && #[trigger] grid_step(cell_of(queue@[k]), b) && on_grid(l, b) && square_tile(l, b.0, b.1) == target
                    implies visited@[cell_index(l.width, b)] by {
                assert(queue@[k] == qb[k]);
                lemma_on_grid_index(l, b);
                assert(vb[cell_index(l.width, b)]);
            }
        }
    } else {
        proof {
            assert(visited@ =~= old(visited)@.update(i as int, old(visited)@[i as int] || tiles@[i as int] == target));
        }
    }
}

/// Flood fill from the grid cell `(x, y)`: every cell connected to it through
/// edge-sharing cells holding the same province id as `(x, y)` gets `value`.
pub fn flood_fill_square(layout: &mut MapLayout, x: u32, y: u32, value: u32)
    requires
        layout_well_formed(*old(layout)),
        x < old(layout).width,
        y < old(layout).height,
    ensures
        final(layout).width == old(layout).width,
        final(layout).height == old(layout).height,
        final(layout).tiles@ == flood_filled(*old(layout), x, y, value),
{
    let ghost l = *layout;
    let ghost start = (x as int, y as int);
    let w = layout.width;
    let h = layout.height;
    let n = layout.tiles.len();
    proof {
        lemma_cell_in_tiles(w, h, x as int, y as int);
    }
    let si = (y as usize) * (w as usize) + (x as usize);
    let target = layout.tiles[si];
    let mut visited: Vec<bool> = vec![false; n];
    let mut queue: Vec<(u32, u32)> = Vec::new();
    proof {
        assert(visited@ =~= Seq::new(n as nat, |i: int| false));
        lemma_count_true_none(n as nat);
        lemma_count_true_set(visited@, si as int);
    }
    visited.set(si, true);
    queue.push((x, y));
    proof {
        assert(square_tile(l, x as int, y as int) == target);
        assert forall|j: int| 0 <= j < visited@.len() && #[trigger] visited@[j] implies exists|k: int|
            0 <= k < queue@.len() && #[trigger] cell_index(l.width, cell_of(queue@[k])) == j by {
            assert(j == si);
            assert(cell_index(l.width, cell_of(queue@[0])) == j);
        }
        assert forall|s: Set<(int, int)>| #[trigger] fill_closed(l, start, target, s) implies forall|k: int|
            0 <= k < queue@.len() ==> s.contains(cell_of(#[trigger] queue@[k])) by {
            assert forall|k: int| 0 <= k < queue@.len() implies s.contains(cell_of(#[trigger] queue@[k])) by {
                assert(k == 0);
            }
        }
        assert(fill_state(l, start, target, visited@, queue@, 0));
    }
    let mut head: usize = 0;
    while head < queue.len()
        invariant
            l.tiles@ == layout.tiles@,
            l == *layout,
            layout_well_formed(l),
            w == l.width,
            h == l.height,
            n == l.tiles@.len(),
            start == (x as int, y as int),
            target == square_tile(l, x as int, y as int),
            fill_state(l, start, target, visited@, queue@, head as int),
        decreases n - head,
    {
        proof {
            lemma_count_true_bound(visited@);
        }
        let c = queue[head];
        let cx = c.0;
        let cy = c.1;
        let ghost q0 = queue@;
        let ghost v0 = visited@;
        proof {
            assert(on_grid(l, cell_of(q0[head as int])));
        }
        if cx > 0 {
            visit_cell(&layout.tiles, w, target, &mut visited, &mut queue, cx - 1, cy, Ghost(l), Ghost(start), Ghost(head as int));
        }
        let ghost v1 = visited@;
        if cx + 1 < w {
            visit_cell(&layout.tiles, w, target, &mut visited, &mut queue, cx + 1, cy, Ghost(l), Ghost(start), Ghost(head as int));
        }
        let ghost v2 = visited@;
        if cy > 0 {
            visit_cell(&layout.tiles, w, target, &mut visited, &mut queue, cx, cy - 1, Ghost(l), Ghost(start), Ghost(head as int));
        }
        let ghost v3 = visited@;
        if cy + 1 < h {
            visit_cell(&layout.tiles, w, target, &mut visited, &mut queue, cx, cy + 1, Ghost(l), Ghost(start), Ghost(head as int));
        }
        proof {
            assert(queue@[head as int] == c);
            assert(v1.len() == n && v2.len() == n && v3.len() == n);
            assert(forall|i: int| 0 <= i < n && v1[i] ==> v2[i]);
            assert(forall|i: int| 0 <= i < n && v2[i] ==> v3[i]);
            assert(forall|i: int| 0 <= i < n && v3[i] ==> visited@[i]);
            assert forall|k: int, b: (int, int)|
                0 <= k < head + 1 && #[trigger] grid_step(cell_of(queue@[k]), b) && on_grid(l, b) && square_tile(l, b.0, b.1) == target
                    implies visited@[cell_index(l.width, b)] by {
                lemma_on_grid_index(l, b);
                let ib = cell_index(l.width, b);
                if k < head {
                } else {
                    assert(cell_of(queue@[k]) == cell_of(c));
                    if b == (cx - 1, cy as int) {
                        assert(v1[ib]);
                    } else if b == (cx + 1, cy as int) {
                        assert(v2[ib]);
                    } else if b == (cx as int, cy - 1) {
                        assert(v3[ib]);
                    }
                }
            }
        }
        head += 1;
    }
    proof {
        lemma_fill_result(l, x, y, target, visited@, queue@);
    }
    let mut i: usize = 0;
    while i < n
        invariant
            i <= n,
            n == l.tiles@.len(),
            visited@.len() == n,
            layout.width == l.width,
            layout.height == l.height,
            layout.tiles@.len() == n,
            forall|j: int| 0 <= j < i ==> layout.tiles@[j] == (if visited@[j] { value } else { l.tiles@[j] }),
            forall|j: int| i <= j < n ==> layout.tiles@[j] == l.tiles@[j],
        decreases n - i,
    {
        if visited[i] {
            layout.tiles.set(i, value);
        }
        i += 1;
    }
    proof {
        assert forall|j: int| 0 <= j < n implies layout.tiles@[j] == flood_filled(l, x, y, value)[j] by {
            assert(visited@[j] == flood_region(l, x, y).contains((j % (w as int), j / (w as int))));
        }
        assert(layout.tiles@ =~= flood_filled(l, x, y, value));
    }
}

/// At the end of the fill, the marked cells are exactly the flood region.
proof fn lemma_fill_result(l: MapLayout, x: u32, y: u32, target: u32, visited: Seq<bool>, queue: Seq<(u32, u32)>)
    requires
        layout_well_formed(l),
        x < l.width,
        y < l.height,
        target == square_tile(l, x as int, y as int),
        fill_state(l, (x as int, y as int), target, visited, queue, queue.len() as int),
    ensures
        forall|j: int|
            0 <= j < visited.len() ==> visited[j] == flood_region(l, x, y).contains(
                (j % (l.width as int), j / (l.width as int)),
            ),
{
    let w = l.width;
    let start = (x as int, y as int);
    let v = Set::new(|p: (int, int)| on_grid(l, p) && visited[cell_index(w, p)]);
    assert(fill_closed(l, start, target, v)) by {
        assert(v.contains(cell_of(queue[0])));
        assert forall|a: (int, int), b: (int, int)|
            #![trigger v.contains(a), grid_step(a, b)]
            v.contains(a) && grid_step(a, b) && on_grid(l, b) && square_tile(l, b.0, b.1) == target
                implies v.contains(b) by {
            lemma_cell_in_tiles(w, l.height, a.0, a.1);
            let ia = cell_index(w, a);
            assert(visited[ia]);
            let k = choose|k: int| 0 <= k < queue.len() && #[trigger] cell_index(w, cell_of(queue[k])) == ia;
            assert(on_grid(l, cell_of(queue[k])));
            lemma_cell_index_injective(l, cell_of(queue[k]), a);
            assert(grid_step(cell_of(queue[k]), b));
        }
    }
    assert forall|j: int| 0 <= j < visited.len() implies visited[j] == flood_region(l, x, y).contains(
        (j % (w as int), j / (w as int)),
    ) by {
        lemma_index_cell(w, l.height, j);
        let p = (j % (w as int), j / (w as int));
        if visited[j] {
            let k = choose|k: int| 0 <= k < queue.len() && #[trigger] cell_index(w, cell_of(queue[k])) == j;
            assert(on_grid(l, cell_of(queue[k])));
            lemma_cell_index_injective(l, cell_of(queue[k]), p);
            assert forall|s: Set<(int, int)>|
                #[trigger] fill_closed(l, start, target, s) implies s.contains(p) by {
                assert(s.contains(cell_of(queue[k])));
            }
            assert(flood_region(l, x, y).contains(p));
        }
        if flood_region(l, x, y).contains(p) {
            assert(fill_closed(l, start, target, v));
            assert(v.contains(p));
        }
    }
}


/// Distance between two integers.
pub open spec fn int_dist(a: int, b: int) -> int {
    if a >= b { a - b } else { b - a }
}

/// Tile `i` of a grid `w` wide and `h` high lies within `r` cells of `(x, y)` along
/// both axes.
pub open spec fn in_square_brush(w: u32, h: u32, x: u32, y: u32, r: u32, i: int) -> bool {
    &&& w > 0
    &&& 0 <= i
    &&& i / (w as int) < h
    &&& int_dist(i % (w as int), x as int) <= r
    &&& int_dist(i / (w as int), y as int) <= r
}

/// The tiles of `l` after a square brush of radius `r` at `(x, y)` paints `v`.
pub open spec fn square_brushed(l: MapLayout, x: u32, y: u32, r: u32, v: u32) -> Seq<u32> {
    Seq::new(
        l.tiles@.len(),
        |i: int| if in_square_brush(l.width, l.height, x, y, r, i) { v } else { l.tiles@[i] },
    )
}

/// Paints `value` on every grid tile within `radius` cells of `(x, y)` along both
/// axes (a square of side `2 * radius + 1`, clipped to the grid).
pub fn paint_square_brush(layout: &mut MapLayout, x: u32, y: u32, radius: u32, value: u32)
    ensures
        final(layout).width == old(layout).width,
        final(layout).height == old(layout).height,
        final(layout).tiles@ == square_brushed(*old(layout), x, y, radius, value),
{
    let ghost l = *layout;
    let w = layout.width;
    let h = layout.height;
    if w == 0 || h == 0 {
        proof {
            assert forall|i: int| 0 <= i < l.tiles@.len() implies !in_square_brush(w, h, x, y, radius, i) by {
                if w > 0 {
                    lemma_fundamental_div_mod(i, w as int);
                    lemma_mod_bound(i, w as int);
                    assert(i / (w as int) >= 0) by (nonlinear_arith)
                        requires
                            i >= 0,
                            w > 0,
                    ;
                }
            }
            assert(layout.tiles@ =~= square_brushed(l, x, y, radius, value));
        }
        return;
    }
    let x0: u32 = if x >= radius { x - radius } else { 0 };
    let x1: u32 = if (x as u64) + (radius as u64) < (w as u64) { x + radius } else { w - 1 };
    let y0: u32 = if y >= radius { y - radius } else { 0 };
    let y1: u32 = if (y as u64) + (radius as u64) < (h as u64) { y + radius } else { h - 1 };
    let mut ty: u32 = y0;
    while ty <= y1
        invariant
            w == l.width,
            h == l.height,
            w > 0,
            h > 0,
            layout.width == w,
            layout.height == h,
            layout.tiles@.len() == l.tiles@.len(),
            x0 == (if x >= radius { x - radius } else { 0 }),
            x1 == (if x + radius < w { x + radius } else { w - 1 }),
            y0 == (if y >= radius { y - radius } else { 0 }),
            y1 == (if y + radius < h { y + radius } else { h - 1 }),
            y0 <= ty,
            ty <= y1 + 1 || ty == y0,
            forall|i: int| 0 <= i < l.tiles@.len() ==> layout.tiles@[i] == (if in_square_brush(w, h, x, y, radius, i) && i / (w as int) < ty {
                value
            } else {
                l.tiles@[i]
            }),
        decreases y1 + 1 - ty,
    {
        let mut tx: u32 = x0;
        while tx <= x1
            invariant
                w == l.width,
                h == l.height,
                w > 0,
                layout.width == w,
                layout.height == h,
                layout.tiles@.len() == l.tiles@.len(),
                x0 == (if x >= radius { x - radius } else { 0 }),
                x1 == (if x + radius < w { x + radius } else { w - 1 }),
                y0 == (if y >= radius { y - radius } else { 0 }),
                y1 == (if y + radius < h { y + radius } else { h - 1 }),
                y0 <= ty <= y1,
                x0 <= tx,
                tx <= x1 + 1 || tx == x0,
                forall|i: int| 0 <= i < l.tiles@.len() ==> layout.tiles@[i] == (if in_square_brush(w, h, x, y, radius, i)
                    && (i / (w as int) < ty || (i / (w as int) == ty && i % (w as int) < tx)) {
                    value
                } else {
                    l.tiles@[i]
                }),
            decreases x1 + 1 - tx,
        {
            let ghost before = layout.tiles@;
            layout.set(tx, ty, value);
            proof {
                let j = ty * w + tx;
                lemma_cell_index_coords(w, tx as int, ty as int);
                assert forall|i: int| 0 <= i < l.tiles@.len() implies layout.tiles@[i] == (if in_square_brush(w, h, x, y, radius, i)
                    && (i / (w as int) < ty || (i / (w as int) == ty && i % (w as int) < tx + 1)) {
                    value
                } else {
                    l.tiles@[i]
                }) by {
                    lemma_fundamental_div_mod(i, w as int);
                    lemma_mod_bound(i, w as int);
                    if i / (w as int) == ty && i % (w as int) == tx {
                        assert(i == (w as int) * (ty as int) + tx);
                        assert((w as int) * (ty as int) == ty * w) by (nonlinear_arith);
                        assert(i == j);
                    } else if i == j {
                        assert(false);
                    }
                }
            }
            tx += 1;
        }
        proof {
            assert forall|i: int| 0 <= i < l.tiles@.len() implies layout.tiles@[i] == (if in_square_brush(w, h, x, y, radius, i)
                && i / (w as int) < ty + 1 {
                value
            } else {
                l.tiles@[i]
            }) by {
                lemma_mod_bound(i, w as int);
            }
        }
        ty += 1;
    }
    proof {
        assert forall|i: int| 0 <= i < l.tiles@.len() implies layout.tiles@[i] == square_brushed(l, x, y, radius, value)[i] by {
            lemma_mod_bound(i, w as int);
        }
        assert(layout.tiles@ =~= square_brushed(l, x, y, radius, value));
    }
}


/// `tiles` after setting each listed cell, in order, to `v` (cells whose index falls
/// outside the tiles are skipped).
pub open spec fn cells_painted(tiles: Seq<u32>, w: u32, cells: Seq<(u32, u32)>, v: u32) -> Seq<u32>
    decreases cells.len(),
{
    if cells.len() == 0 {
        tiles
    } else {
        let t = cells_painted(tiles, w, cells.drop_last(), v);
        let i = grid_index(w, cells.last().0, cells.last().1);
        if i < t.len() { t.update(i, v) } else { t }
    }
}

/// Paints `value` on every hex of the hex brush of `radius` at `(q, r)`.
pub fn paint_hex_brush(layout: &mut HexMapLayout, q: u32, r: u32, radius: u32, value: u32)
    requires
        hex_brush_ok(q, r, radius),
    ensures
        final(layout).width == old(layout).width,
        final(layout).height == old(layout).height,
        final(layout).tiles@ == cells_painted(
            old(layout).tiles@,
            old(layout).width,
            spec_hex_brush_tiles(q, r, radius, old(layout).width, old(layout).height),
            value,
        ),
{
    let ghost t0 = layout.tiles@;
    let cells = hex_brush_tiles(q, r, radius, (layout.width, layout.height));
    let n = cells.len();
    let mut k: usize = 0;
    while k < n
        invariant
            k <= n,
            n == cells@.len(),
            layout.width == old(layout).width,
            layout.height == old(layout).height,
            t0 == old(layout).tiles@,
            layout.tiles@ == cells_painted(t0, layout.width, cells@.take(k as int), value),
        decreases n - k,
    {
        let c = cells[k];
        layout.set(c.0, c.1, value);
        proof {
            assert(cells@.take(k + 1).drop_last() =~= cells@.take(k as int));
        }
        k += 1;
    }
    proof {
        assert(cells@.take(n as int) =~= cells@);
    }
}

/// The tool a stroke applies.
#[derive(Clone, Copy, PartialEq, Eq, Debug, Structural)]
pub enum MapTool {
    Brush,
    Fill,
    Erase,
    Eyedropper,
}

/// What the map shows and a stroke edits: terrain, the province layout, or ownership.
#[derive(Clone, Copy, PartialEq, Eq, Debug, Structural)]
pub enum MapViewMode {
    Terrain,
    Province,
    Political,
}

/// What the painter has selected: a terrain, a province id and a nation id.
#[derive(Clone, Copy, PartialEq, Eq, Debug, Structural)]
pub struct PaintSelection {
    pub terrain: u8,
    pub province: Option<u32>,
    pub nation: Option<u32>,
}

/// `p` with terrain `t`.
pub open spec fn with_terrain(p: Province, t: u8) -> Province {
    Province {
        id: p.id,
        owner: p.owner,
        occupation: p.occupation,
        terrain: t,
        development: p.development,
        population: p.population,
    }
}

/// `p` with owner `o`.
pub open spec fn with_owner(p: Province, o: Option<NationId>) -> Province {
    Province {
        id: p.id,
        owner: o,
        occupation: p.occupation,
        terrain: p.terrain,
        development: p.development,
        population: p.population,
    }
}

/// The nation with raw id `n`; none for 0.
pub open spec fn nation_for(n: u32) -> Option<NationId> {
    if n == 0 { None } else { Some(NationId::with_raw(n)) }
}

/// The raw id of an owner.
pub open spec fn owner_raw(o: Option<NationId>) -> Option<u32> {
    match o {
        Some(id) => Some(id.spec_raw()),
        None => None,
    }
}

/// The owner a political stroke hands out: the selected nation, if any.
pub open spec fn selected_owner(sel: PaintSelection) -> Option<NationId> {
    match sel.nation {
        Some(n) => nation_for(n),
        None => None,
    }
}

/// Province `prov` (raw id) of `ps`, when stored, given terrain `t`.
pub open spec fn terrain_set(ps: Seq<Province>, prov: u32, t: u8) -> Seq<Province> {
    if 1 <= prov <= ps.len() { ps.update(prov - 1, with_terrain(ps[prov - 1], t)) } else { ps }
}

/// Province `prov` (raw id) of `ps`, when stored, given owner `o`.
pub open spec fn owner_set(ps: Seq<Province>, prov: u32, o: Option<NationId>) -> Seq<Province> {
    if 1 <= prov <= ps.len() { ps.update(prov - 1, with_owner(ps[prov - 1], o)) } else { ps }
}

/// Every province of `ps` whose raw id is in `region` given terrain `t`.
pub open spec fn terrain_filled(ps: Seq<Province>, region: Set<u32>, t: u8) -> Seq<Province> {
    Seq::new(ps.len(), |i: int| if region.contains((i + 1) as u32) { with_terrain(ps[i], t) } else { ps[i] })
}

/// Every province of `ps` owned by `from` handed to `to`.
pub open spec fn owner_replaced(ps: Seq<Province>, from: Option<NationId>, to: Option<NationId>) -> Seq<Province> {
    Seq::new(ps.len(), |i: int| if ps[i].owner == from { with_owner(ps[i], to) } else { ps[i] })
}

/// What a brush or eraser stroke on province `prov` does to the provinces (fills are
/// layout-dependent and handled by the callers).
pub open spec fn stroke_provinces(tool: MapTool, mode: MapViewMode, prov: u32, ps: Seq<Province>, sel: PaintSelection) -> Seq<Province> {
    match (tool, mode) {
        (MapTool::Brush, MapViewMode::Terrain) => terrain_set(ps, prov, sel.terrain),
        (MapTool::Brush, MapViewMode::Political) => match sel.nation {
            Some(n) => owner_set(ps, prov, nation_for(n)),
            None => ps,
        },
        (MapTool::Erase, MapViewMode::Terrain) => terrain_set(ps, prov, 0),
        (MapTool::Erase, MapViewMode::Political) => owner_set(ps, prov, None),
        _ => ps,
    }
}

/// What a stroke on province `prov` does to the selection: the eyedropper picks up
/// the province's terrain, id or owner.
pub open spec fn stroke_selection(tool: MapTool, mode: MapViewMode, prov: u32, ps: Seq<Province>, sel: PaintSelection) -> PaintSelection {
    match (tool, mode) {
        (MapTool::Eyedropper, MapViewMode::Terrain) => if 1 <= prov <= ps.len() {
            PaintSelection { terrain: ps[prov - 1].terrain, province: sel.province, nation: sel.nation }
        } else {
            sel
        },
        (MapTool::Eyedropper, MapViewMode::Province) => if prov > 0 {
            PaintSelection { terrain: sel.terrain, province: Some(prov), nation: sel.nation }
        } else {
            sel
        },
        (MapTool::Eyedropper, MapViewMode::Political) => if 1 <= prov <= ps.len() {
            PaintSelection { terrain: sel.terrain, province: sel.province, nation: owner_raw(ps[prov - 1].owner) }
        } else {
            sel
        },
        _ => sel,
    }
}

/// What a square-map stroke at `(x, y)` does to the provinces.
pub open spec fn square_stroke_provinces(
    tool: MapTool,
    mode: MapViewMode,
    l: MapLayout,
    x: u32,
    y: u32,
    ps: Seq<Province>,
    sel: PaintSelection,
) -> Seq<Province> {
    let prov = square_tile(l, x as int, y as int);
    match (tool, mode) {
        (MapTool::Fill, MapViewMode::Terrain) => if 1 <= prov <= ps.len() && ps[prov - 1].terrain != sel.terrain {
            terrain_filled(ps, terrain_region(l, ps, ps[prov - 1].terrain, prov), sel.terrain)
        } else {
            ps
        },
        (MapTool::Fill, MapViewMode::Political) => if 1 <= prov <= ps.len() && ps[prov - 1].owner != selected_owner(sel) {
            owner_replaced(ps, ps[prov - 1].owner, selected_owner(sel))
        } else {
            ps
        },
        _ => stroke_provinces(tool, mode, prov, ps, sel),
    }
}

/// What a square-map stroke at `(x, y)` with brush `radius` does to the tiles.
pub open spec fn square_stroke_tiles(tool: MapTool, mode: MapViewMode, l: MapLayout, x: u32, y: u32, radius: u32, sel: PaintSelection) -> Seq<u32> {
    match (tool, mode, sel.province) {
        (MapTool::Brush, MapViewMode::Province, Some(s)) => square_brushed(l, x, y, radius, s),
        (MapTool::Fill, MapViewMode::Province, Some(s)) => if square_tile(l, x as int, y as int) != s {
            flood_filled(l, x, y, s)
        } else {
            l.tiles@
        },
        (MapTool::Erase, MapViewMode::Province, _) => square_brushed(l, x, y, radius, 0),
        _ => l.tiles@,
    }
}

/// The province under hex `(q, r)`: 0 when the index falls outside the tiles.
pub open spec fn hex_tile(l: HexMapLayout, q: u32, r: u32) -> u32 {
    if grid_index(l.width, q, r) < l.tiles@.len() { l.tiles@[grid_index(l.width, q, r)] } else { 0 }
}

/// What a hex-map stroke at `(q, r)` with brush `radius` does to the tiles (hex maps
/// have no fill).
pub open spec fn hex_stroke_tiles(tool: MapTool, mode: MapViewMode, l: HexMapLayout, q: u32, r: u32, radius: u32, sel: PaintSelection) -> Seq<u32> {
    let cells = spec_hex_brush_tiles(q, r, radius, l.width, l.height);
    match (tool, mode, sel.province) {
        (MapTool::Brush, MapViewMode::Province, Some(s)) => cells_painted(l.tiles@, l.width, cells, s),
        (MapTool::Erase, MapViewMode::Province, _) => cells_painted(l.tiles@, l.width, cells, 0),
        _ => l.tiles@,
    }
}

fn nation_from(n: u32) -> (r: Option<NationId>)
    ensures
        r == nation_for(n),
{
    if n == 0 {
        None
    } else {
        let id = NationId::from_raw(n);
        proof {
            NationId::lemma_with_raw(n);
            NationId::lemma_raw_injective(id, NationId::with_raw(n));
        }
        Some(id)
    }
}

fn same_owner(a: Option<NationId>, b: Option<NationId>) -> (r: bool)
    ensures
        r == (a == b),
{
    match (a, b) {
        (Some(x), Some(y)) => {
            proof {
                NationId::lemma_raw_injective(x, y);
            }
            x.raw() == y.raw()
        },
        (None, None) => true,
        _ => false,
    }
}

fn owner_raw_of(o: Option<NationId>) -> (r: Option<u32>)
    ensures
        r == owner_raw(o),
{
    match o {
        Some(id) => Some(id.raw()),
        None => None,
    }
}

/// Gives stored province `prov` terrain `t`.
fn set_terrain_at(store: &mut ProvinceStore, prov: u32, t: u8)
    ensures
        final(store).provinces@ == terrain_set(old(store).provinces@, prov, t),
{
    if prov >= 1 && ((prov - 1) as usize) < store.provinces.len() {
        let i = (prov - 1) as usize;
        let mut p = store.provinces[i];
        p.terrain = t;
        store.provinces.set(i, p);
    }
}

/// Gives stored province `prov` owner `o`.
fn set_owner_at(store: &mut ProvinceStore, prov: u32, o: Option<NationId>)
    ensures
        final(store).provinces@ == owner_set(old(store).provinces@, prov, o),
{
    if prov >= 1 && ((prov - 1) as usize) < store.provinces.len() {
        let i = (prov - 1) as usize;
        let mut p = store.provinces[i];
        p.owner = o;
        store.provinces.set(i, p);
    }
}

/// Gives every listed stored province terrain `t`.
fn fill_terrain_of(store: &mut ProvinceStore, provs: &Vec<u32>, t: u8)
    requires
        old(store).provinces@.len() <= u32::MAX,
    ensures
        final(store).provinces@ == terrain_filled(old(store).provinces@, provs@.to_set(), t),
{
    let ghost ps = store.provinces@;
    let n = store.provinces.len();
    let m = provs.len();
    let mut k: usize = 0;
    while k < m
        invariant
            k <= m,
            m == provs@.len(),
            n == ps.len(),
            n <= u32::MAX,
            store.provinces@.len() == n,
            ps == old(store).provinces@,
            forall|i: int| 0 <= i < n ==> store.provinces@[i] == (if provs@.take(k as int).contains((i + 1) as u32) {
                with_terrain(ps[i], t)
            } else {
                ps[i]
            }),
        decreases m - k,
    {
        let pr = provs[k];
        let ghost before = store.provinces@;
        if pr >= 1 && ((pr - 1) as usize) < n {
            let i = (pr - 1) as usize;
            let mut p = store.provinces[i];
            p.terrain = t;
            store.provinces.set(i, p);
        }
        proof {
            assert forall|i: int| 0 <= i < n implies store.provinces@[i] == (if provs@.take(k + 1).contains((i + 1) as u32) {
                with_terrain(ps[i], t)
            } else {
                ps[i]
            }) by {
                assert(provs@.take(k + 1) =~= provs@.take(k as int).push(pr));
                if provs@.take(k as int).contains((i + 1) as u32) {
                    let j = choose|j: int| 0 <= j < k && provs@.take(k as int)[j] == (i + 1) as u32;
                    assert(provs@.take(k + 1)[j] == (i + 1) as u32);
                }
                if (i + 1) as u32 == pr {
                    assert(provs@.take(k + 1)[k as int] == pr);
                }
            }
        }
        k += 1;
    }
    proof {
        assert(provs@.take(m as int) =~= provs@);
        assert(store.provinces@ =~= terrain_filled(ps, provs@.to_set(), t));
    }
}

/// Hands every stored province owned by `from` to `to`.
fn replace_owner(store: &mut ProvinceStore, from: Option<NationId>, to: Option<NationId>)
    ensures
        final(store).provinces@ == owner_replaced(old(store).provinces@, from, to),
{
    let ghost ps = store.provinces@;
    let n = store.provinces.len();
    let mut i: usize = 0;
    while i < n
        invariant
            i <= n,
            n == ps.len(),
            store.provinces@.len() == n,
            ps == old(store).provinces@,
            forall|j: int| 0 <= j < i ==> store.provinces@[j] == owner_replaced(ps, from, to)[j],
            forall|j: int| i <= j < n ==> store.provinces@[j] == ps[j],
        decreases n - i,
    {
        let mut p = store.provinces[i];
        if same_owner(p.owner, from) {
            p.owner = to;
            store.provinces.set(i, p);
        }
        i += 1;
    }
    proof {
        assert(store.provinces@ =~= owner_replaced(ps, from, to));
    }
}

/// A brush, eraser or eyedropper stroke on province `prov` (fills excluded).
fn apply_stroke(tool: MapTool, mode: MapViewMode, prov: u32, store: &mut ProvinceStore, sel: &mut PaintSelection)
    ensures
        final(store).provinces@ == stroke_provinces(tool, mode, prov, old(store).provinces@, *old(sel)),
        *final(sel) == stroke_selection(tool, mode, prov, old(store).provinces@, *old(sel)),
{
    let n = store.provinces.len();
    match (tool, mode) {
        (MapTool::Brush, MapViewMode::Terrain) => set_terrain_at(store, prov, sel.terrain),
        (MapTool::Brush, MapViewMode::Political) => {
            if let Some(nr) = sel.nation {
                let o = nation_from(nr);
                set_owner_at(store, prov, o);
            }
        },
        (MapTool::Erase, MapViewMode::Terrain) => set_terrain_at(store, prov, 0),
        (MapTool::Erase, MapViewMode::Political) => set_owner_at(store, prov, None),
        (MapTool::Eyedropper, MapViewMode::Terrain) => {
            if prov >= 1 && ((prov - 1) as usize) < n {
                sel.terrain = store.provinces[(prov - 1) as usize].terrain;
            }
        },
        (MapTool::Eyedropper, MapViewMode::Province) => {
            if prov > 0 {
                sel.province = Some(prov);
            }
        },
        (MapTool::Eyedropper, MapViewMode::Political) => {
            if prov >= 1 && ((prov - 1) as usize) < n {
                sel.nation = owner_raw_of(store.provinces[(prov - 1) as usize].owner);
            }
        },
        _ => {},
    }
}

/// One stroke of `tool` in view `mode` on the square-map tile `(x, y)`: paints tiles
/// (province view), province terrain or ownership, or picks up a selection.
pub fn paint_square(
    tool: MapTool,
    mode: MapViewMode,
    layout: &mut MapLayout,
    store: &mut ProvinceStore,
    sel: &mut PaintSelection,
    x: u32,
    y: u32,
    radius: u32,
)
    requires
        tool == MapTool::Fill && mode == MapViewMode::Province ==> layout_well_formed(*old(layout))
            && x < old(layout).width && y < old(layout).height,
        tool == MapTool::Fill && mode == MapViewMode::Terrain ==> old(store).provinces@.len() <= u32::MAX,
    ensures
        final(layout).width == old(layout).width,
        final(layout).height == old(layout).height,
        final(layout).tiles@ == square_stroke_tiles(tool, mode, *old(layout), x, y, radius, *old(sel)),
        final(store).provinces@ == square_stroke_provinces(tool, mode, *old(layout), x, y, old(store).provinces@, *old(sel)),
        *final(sel) == stroke_selection(tool, mode, square_tile(*old(layout), x as int, y as int), old(store).provinces@, *old(sel)),
{
    let ghost l = *layout;
    let prov = layout.get(x, y);
    proof {
        assert(prov == square_tile(l, x as int, y as int));
    }
    match (tool, mode) {
        (MapTool::Brush, MapViewMode::Province) => {
            if let Some(s) = sel.province {
                paint_square_brush(layout, x, y, radius, s);
            }
        },
        (MapTool::Erase, MapViewMode::Province) => {
            paint_square_brush(layout, x, y, radius, 0);
        },
        (MapTool::Fill, MapViewMode::Province) => {
            if let Some(s) = sel.province {
                if prov != s {
                    flood_fill_square(layout, x, y, s);
                }
            }
        },
        (MapTool::Fill, MapViewMode::Terrain) => {
            let n = store.provinces.len();
            if prov >= 1 && ((prov - 1) as usize) < n {
                let old_terrain = store.provinces[(prov - 1) as usize].terrain;
                if old_terrain != sel.terrain {
                    let region = find_connected_provinces_by_terrain(layout, prov, old_terrain, store);
                    fill_terrain_of(store, &region, sel.terrain);
                }
            }
        },
        (MapTool::Fill, MapViewMode::Political) => {
            let n = store.provinces.len();
            if prov >= 1 && ((prov - 1) as usize) < n {
                let old_owner = store.provinces[(prov - 1) as usize].owner;
                let new_owner = match sel.nation {
                    Some(nr) => nation_from(nr),
                    None => None,
                };
                if !same_owner(old_owner, new_owner) {
                    replace_owner(store, old_owner, new_owner);
                }
            }
        },
        _ => {
            apply_stroke(tool, mode, prov, store, sel);
        },
    }
}

/// One stroke of `tool` in view `mode` on hex `(q, r)`: paints hexes (province view),
/// province terrain or ownership, or picks up a selection. Fill does nothing on hex maps.
pub fn paint_hex(
    tool: MapTool,
    mode: MapViewMode,
    layout: &mut HexMapLayout,
    store: &mut ProvinceStore,
    sel: &mut PaintSelection,
    q: u32,
    r: u32,
    radius: u32,
)
    requires
        mode == MapViewMode::Province && (tool == MapTool::Brush || tool == MapTool::Erase) ==> hex_brush_ok(q, r, radius),
    ensures
        final(layout).width == old(layout).width,
        final(layout).height == old(layout).height,
        final(layout).tiles@ == hex_stroke_tiles(tool, mode, *old(layout), q, r, radius, *old(sel)),
        final(store).provinces@ == (if tool == MapTool::Fill {
            old(store).provinces@
        } else {
            stroke_provinces(tool, mode, hex_tile(*old(layout), q, r), old(store).provinces@, *old(sel))
        }),
        *final(sel) == stroke_selection(tool, mode, hex_tile(*old(layout), q, r), old(store).provinces@, *old(sel)),
{
    let prov = layout.get(q, r);
    match (tool, mode) {
        (MapTool::Brush, MapViewMode::Province) => {
            if let Some(s) = sel.province {
                paint_hex_brush(layout, q, r, radius, s);
            }
        },
        (MapTool::Erase, MapViewMode::Province) => {
            paint_hex_brush(layout, q, r, radius, 0);
        },
        (MapTool::Fill, _) => {},
        _ => {
            apply_stroke(tool, mode, prov, store, sel);
        },
    }
}


/// `undo` after recording `snapshot`, keeping at most `max` snapshots (the oldest goes).
pub open spec fn recorded<T>(undo: Seq<T>, snapshot: T, max: nat) -> Seq<T> {
    if undo.len() + 1 > max { undo.push(snapshot).drop_first() } else { undo.push(snapshot) }
}

/// Undo with `current` the present state: `(undo, redo, state to restore)`.
pub open spec fn undone<T>(undo: Seq<T>, redo: Seq<T>, current: T) -> (Seq<T>, Seq<T>, Option<T>) {
    if undo.len() == 0 {
        (undo, redo, None)
    } else {
        (undo.drop_last(), redo.push(current), Some(undo.last()))
    }
}

/// Redo with `current` the present state: `(undo, redo, state to restore)`.
pub open spec fn redone<T>(undo: Seq<T>, redo: Seq<T>, current: T) -> (Seq<T>, Seq<T>, Option<T>) {
    if redo.len() == 0 {
        (undo, redo, None)
    } else {
        (undo.push(current), redo.drop_last(), Some(redo.last()))
    }
}

/// Undo/redo history of editor snapshots: a stroke records the state before it; undo
/// hands back the last recorded state and keeps the present one for redo.
pub struct EditHistory<T> {
    pub undo_stack: Vec<T>,
    pub redo_stack: Vec<T>,
    pub max_undo: usize,
}

impl<T> EditHistory<T> {
    pub fn new(max_undo: usize) -> (r: Self)
        ensures
            r.undo_stack@.len() == 0,
            r.redo_stack@.len() == 0,
            r.max_undo == max_undo,
    {
        EditHistory { undo_stack: Vec::new(), redo_stack: Vec::new(), max_undo }
    }

    /// Records `snapshot` (the state before an edit); forgets the redo states and the
    /// oldest snapshot when more than `max_undo` are kept.
    pub fn record(&mut self, snapshot: T)
        ensures
            final(self).undo_stack@ == recorded(old(self).undo_stack@, snapshot, old(self).max_undo as nat),
            final(self).redo_stack@.len() == 0,
            final(self).max_undo == old(self).max_undo,
    {
        self.redo_stack.clear();
        self.undo_stack.push(snapshot);
        if self.undo_stack.len() > self.max_undo {
            self.undo_stack.remove(0);
            proof {
                assert(self.undo_stack@ =~= old(self).undo_stack@.push(snapshot).drop_first());
            }
        }
    }

    /// Undoes: returns the state to restore (the last recorded one) and keeps `current`
    /// for redo; `None` (and nothing changed) when there is nothing to undo.
    pub fn undo(&mut self, current: T) -> (r: Option<T>)
        ensures
            (final(self).undo_stack@, final(self).redo_stack@, r) == undone(old(self).undo_stack@, old(self).redo_stack@, current),
            final(self).max_undo == old(self).max_undo,
    {
        match self.undo_stack.pop() {
            Some(s) => {
                self.redo_stack.push(current);
                Some(s)
            },
            None => None,
        }
    }

    /// Redoes: returns the state to restore (the last undone one) and keeps `current`
    /// for undo; `None` (and nothing changed) when there is nothing to redo.
    pub fn redo(&mut self, current: T) -> (r: Option<T>)
        ensures
            (final(self).undo_stack@, final(self).redo_stack@, r) == redone(old(self).undo_stack@, old(self).redo_stack@, current),
            final(self).max_undo == old(self).max_undo,
    {
        match self.redo_stack.pop() {
            Some(s) => {
                self.undo_stack.push(current);
                Some(s)
            },
            None => None,
        }
    }

    pub fn can_undo(&self) -> (r: bool)
        ensures
            r == (self.undo_stack@.len() > 0),
    {
        self.undo_stack.len() > 0
    }

    pub fn can_redo(&self) -> (r: bool)
        ensures
            r == (self.redo_stack@.len() > 0),
    {
        self.redo_stack.len() > 0
    }
}

/// Undo right after recording gives back the recorded state (when at least one
/// snapshot is kept).
pub proof fn law_undo_returns_recorded<T>(undo: Seq<T>, snapshot: T, max: nat, current: T)
    requires
        max >= 1,
    ensures
        undone(recorded(undo, snapshot, max), Seq::empty(), current).2 == Some(snapshot),
{
    let u = recorded(undo, snapshot, max);
    assert(u.len() > 0);
    assert(u.last() == snapshot);
}

/// Redo right after an undo gives back the state that was present before the undo, and
/// leaves the redo stack as it was.
pub proof fn law_redo_reverts_undo<T>(undo: Seq<T>, redo: Seq<T>, current: T, restored: T)
    requires
        undo.len() > 0,
    ensures
        ({
            let (u1, r1, _) = undone(undo, redo, current);
            let (u2, r2, back) = redone(u1, r1, restored);
            back == Some(current) && r2 == redo && u2 == undo.drop_last().push(restored)
        }),
{
    let (u1, r1, _) = undone(undo, redo, current);
    assert(r1.drop_last() =~= redo);
}

/// Undo right after a redo gives back the state that was present before the redo.
pub proof fn law_undo_reverts_redo<T>(undo: Seq<T>, redo: Seq<T>, current: T, restored: T)
    requires
        redo.len() > 0,
    ensures
        ({
            let (u1, r1, _) = redone(undo, redo, current);
            let (u2, r2, back) = undone(u1, r1, restored);
            back == Some(current) && u2 == undo && r2 == redo.drop_last().push(restored)
        }),
{
    let (u1, r1, _) = redone(undo, redo, current);
    assert(u1.drop_last() =~= undo);
}

/// Recording never keeps more than `max` snapshots.
pub proof fn law_recorded_bounded<T>(undo: Seq<T>, snapshot: T, max: nat)
    requires
        max >= 1,
        undo.len() <= max,
    ensures
        recorded(undo, snapshot, max).len() <= max,
        recorded(undo, snapshot, max).last() == snapshot,
{
}


/// Colour of a tile holding no province, in political view.
pub const TILE_EMPTY_COLOR: [u8; 4] = [0x0f, 0x1f, 0x2f, 0xff];

/// Colour of a province no nation owns, in political view.
pub const TILE_UNOWNED_PROVINCE_COLOR: [u8; 4] = [0x9a, 0x85, 0x6b, 0xff];

/// The registry's colour for terrain `t`.
pub open spec fn terrain_rgba(reg: TerrainRegistry, t: u8) -> [u8; 4] {
    match reg.find_spec(t) {
        Some(k) => reg.types@[k].color,
        None => unknown_terrain_color(),
    }
}

/// Colour (RGBA) of a tile holding province `prov` in view `mode`: terrain colour,
/// a per-province hue, or the owner's colour.
pub open spec fn tile_rgba(mode: MapViewMode, prov: u32, ps: Seq<Province>, reg: TerrainRegistry) -> [u8; 4] {
    if prov == 0 {
        match mode {
            MapViewMode::Terrain => [0x30u8, 0x30u8, 0x30u8, 0xffu8],
            MapViewMode::Province => [0x20u8, 0x20u8, 0x20u8, 0xffu8],
            MapViewMode::Political => TILE_EMPTY_COLOR,
        }
    } else {
        match mode {
            MapViewMode::Terrain => if prov <= ps.len() {
                terrain_rgba(reg, ps[prov - 1].terrain)
            } else {
                [0x40u8, 0x40u8, 0x40u8, 0xffu8]
            },
            MapViewMode::Province => province_rgba(prov),
            MapViewMode::Political => if prov <= ps.len() {
                match ps[prov - 1].owner {
                    Some(o) => nation_rgba(o.spec_raw()),
                    None => TILE_UNOWNED_PROVINCE_COLOR,
                }
            } else {
                TILE_EMPTY_COLOR
            },
        }
    }
}

/// Colour (RGBA) the map shows for a tile holding province `prov` in view `mode`.
pub fn tile_color(mode: MapViewMode, prov: u32, store: &ProvinceStore, terrains: &TerrainRegistry) -> (r: [u8; 4])
    ensures
        r == tile_rgba(mode, prov, store.provinces@, *terrains),
{
    if prov == 0 {
        return match mode {
            MapViewMode::Terrain => [0x30, 0x30, 0x30, 0xff],
            MapViewMode::Province => [0x20, 0x20, 0x20, 0xff],
            MapViewMode::Political => TILE_EMPTY_COLOR,
        };
    }
    let i = (prov - 1) as usize;
    match mode {
        MapViewMode::Terrain => {
            if i < store.provinces.len() {
                terrains.color(store.provinces[i].terrain)
            } else {
                [0x40, 0x40, 0x40, 0xff]
            }
        },
        MapViewMode::Province => province_color(prov),
        MapViewMode::Political => {
            if i < store.provinces.len() {
                match store.provinces[i].owner {
                    Some(o) => nation_color(o.raw()),
                    None => TILE_UNOWNED_PROVINCE_COLOR,
                }
            } else {
                TILE_EMPTY_COLOR
            }
        },
    }
}

} // verus!
