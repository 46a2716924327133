//! Runtime game UI command buffer and prefab system.
//!
//! Scripts push immediate-mode UI commands during their ticks; the host renders them
//! each frame and clears the buffer. Button clicks are kept for scripts to poll.
//!
//! Prefabs record a sequence of commands as a reusable template; text fields holding
//! `{0}`, `{1}`, ... are substituted when a prefab is instantiated.

use vstd::prelude::*;
use crate::editor_utils::{decimal, push_decimal};

verus! {

/// One UI command from a script. Sizes and positions are kept as `f32` bit patterns.
pub enum UiCommand {
    BeginWindow { title: String, x_bits: u32, y_bits: u32, w_bits: u32, h_bits: u32 },
    EndWindow,
    BeginHorizontal,
    EndHorizontal,
    BeginVertical,
    EndVertical,
    Label { text: String, font_size_bits: u32 },
    Button { id: u32, text: String },
    ProgressBar { fraction_bits: u32, text: String, w_bits: u32 },
    Image { path: String, w_bits: u32, h_bits: u32 },
    Separator,
    Spacing { amount_bits: u32 },
    /// Colour for the next widget.
    SetColor { r: u8, g: u8, b: u8, a: u8 },
    /// Font size for the next widget.
    SetFontSize { size_bits: u32 },
}

/// What a command holds, as plain values.
pub enum UiCommandView {
    BeginWindow { title: Seq<char>, x_bits: u32, y_bits: u32, w_bits: u32, h_bits: u32 },
    EndWindow,
    BeginHorizontal,
    EndHorizontal,
    BeginVertical,
    EndVertical,
    Label { text: Seq<char>, font_size_bits: u32 },
    Button { id: u32, text: Seq<char> },
    ProgressBar { fraction_bits: u32, text: Seq<char>, w_bits: u32 },
    Image { path: Seq<char>, w_bits: u32, h_bits: u32 },
    Separator,
    Spacing { amount_bits: u32 },
    SetColor { r: u8, g: u8, b: u8, a: u8 },
    SetFontSize { size_bits: u32 },
}

impl View for UiCommand {
    type V = UiCommandView;

    open spec fn view(&self) -> UiCommandView {
        match self {
            UiCommand::BeginWindow { title, x_bits, y_bits, w_bits, h_bits } =>
                UiCommandView::BeginWindow { title: title@, x_bits: *x_bits, y_bits: *y_bits, w_bits: *w_bits, h_bits: *h_bits },
            UiCommand::EndWindow => UiCommandView::EndWindow,
            UiCommand::BeginHorizontal => UiCommandView::BeginHorizontal,
            UiCommand::EndHorizontal => UiCommandView::EndHorizontal,
            UiCommand::BeginVertical => UiCommandView::BeginVertical,
            UiCommand::EndVertical => UiCommandView::EndVertical,
            UiCommand::Label { text, font_size_bits } => UiCommandView::Label { text: text@, font_size_bits: *font_size_bits },
            UiCommand::Button { id, text } => UiCommandView::Button { id: *id, text: text@ },
            UiCommand::ProgressBar { fraction_bits, text, w_bits } =>
                UiCommandView::ProgressBar { fraction_bits: *fraction_bits, text: text@, w_bits: *w_bits },
            UiCommand::Image { path, w_bits, h_bits } => UiCommandView::Image { path: path@, w_bits: *w_bits, h_bits: *h_bits },
            UiCommand::Separator => UiCommandView::Separator,
            UiCommand::Spacing { amount_bits } => UiCommandView::Spacing { amount_bits: *amount_bits },
            UiCommand::SetColor { r, g, b, a } => UiCommandView::SetColor { r: *r, g: *g, b: *b, a: *a },
            UiCommand::SetFontSize { size_bits } => UiCommandView::SetFontSize { size_bits: *size_bits },
        }
    }
}

/// The placeholder for parameter `i`: `{i}` with `i` in decimal.
pub open spec fn placeholder(i: nat) -> Seq<char> {
    seq!['{'] + decimal(i) + seq!['}']
}

/// `s` with every occurrence of `pat` replaced by `rep`, occurrences taken left to right
/// without overlap (`pat` is not empty).
pub open spec fn replace_all(s: Seq<char>, pat: Seq<char>, rep: Seq<char>) -> Seq<char>
    decreases s.len(),
{
    if pat.len() == 0 || s.len() < pat.len() {
        s
    } else if s.take(pat.len() as int) == pat {
        rep + replace_all(s.skip(pat.len() as int), pat, rep)
    } else {
        seq![s[0]] + replace_all(s.skip(1), pat, rep)
    }
}

/// `s` after replacing the placeholders of the first `k` parameters, in order.
pub open spec fn substituted(s: Seq<char>, params: Seq<Seq<char>>, k: nat) -> Seq<char>
    decreases k,
{
    if k == 0 {
        s
    } else {
        let prev = substituted(s, params, (k - 1) as nat);
        replace_all(prev, placeholder((k - 1) as nat), params[k - 1])
    }
}

/// `s` with the placeholders of all `params` replaced.
pub open spec fn substitute_text(s: Seq<char>, params: Seq<Seq<char>>) -> Seq<char> {
    substituted(s, params, params.len())
}

/// `c` with the placeholders in its text fields replaced.
pub open spec fn substitute_view(c: UiCommandView, params: Seq<Seq<char>>) -> UiCommandView {
    match c {
        UiCommandView::BeginWindow { title, x_bits, y_bits, w_bits, h_bits } =>
            UiCommandView::BeginWindow { title: substitute_text(title, params), x_bits, y_bits, w_bits, h_bits },
        UiCommandView::Label { text, font_size_bits } => UiCommandView::Label { text: substitute_text(text, params), font_size_bits },
        UiCommandView::Button { id, text } => UiCommandView::Button { id, text: substitute_text(text, params) },
        UiCommandView::ProgressBar { fraction_bits, text, w_bits } =>
            UiCommandView::ProgressBar { fraction_bits, text: substitute_text(text, params), w_bits },
        UiCommandView::Image { path, w_bits, h_bits } => UiCommandView::Image { path: substitute_text(path, params), w_bits, h_bits },
        other => other,
    }
}

/// The text views of `params`.
pub open spec fn param_views(params: Seq<&str>) -> Seq<Seq<char>> {
    params.map_values(|p: &str| p@)
}

/// Whether `pat` occurs in `s` at `i`.
fn occurs_at(s: &str, n: usize, pat: &str, m: usize, i: usize) -> (r: bool)
    requires
        n == s@.len(),
        m == pat@.len(),
        i <= n,
    ensures
        r == (m <= n - i && s@.skip(i as int).take(m as int) == pat@),
{
    if m > n - i {
        return false;
    }
    let mut j: usize = 0;
    while j < m
        invariant
            m <= n - i,
            n == s@.len(),
            m == pat@.len(),
            j <= m,
            forall|k: int| 0 <= k < j ==> s@[i + k] == pat@[k],
        decreases m - j,
    {
        if s.get_char(i + j) != pat.get_char(j) {
            proof {
                assert(s@.skip(i as int).take(m as int)[j as int] != pat@[j as int]);
            }
            return false;
        }
        j += 1;
    }
    proof {
        assert(s@.skip(i as int).take(m as int) =~= pat@);
    }
    true
}

/// `s` with every occurrence of `pat` replaced by `rep` (see `replace_all`).
fn replace_text(s: &str, pat: &str, rep: &str) -> (r: String)
    requires
        pat@.len() > 0,
    ensures
        r@ == replace_all(s@, pat@, rep@),
{
    let n = s.unicode_len();
    let m = pat.unicode_len();
    let mut out = String::new();
    let mut i: usize = 0;
    proof {
        assert(s@.skip(0) =~= s@);
        assert(out@ + replace_all(s@, pat@, rep@) =~= replace_all(s@, pat@, rep@));
    }
    while i < n
        invariant
            n == s@.len(),
            m == pat@.len(),
            m > 0,
            i <= n,
            out@ + replace_all(s@.skip(i as int), pat@, rep@) == replace_all(s@, pat@, rep@),
        decreases n - i,
    {
        let ghost rest = s@.skip(i as int);
        if occurs_at(s, n, pat, m, i) {
            out.append(rep);
            proof {
                assert(rest.take(m as int) == pat@);
                assert(rest.skip(m as int) =~= s@.skip(i + m));
                assert(out@ + replace_all(s@.skip(i + m), pat@, rep@) =~= replace_all(s@, pat@, rep@));
            }
            i = i + m;
        } else {
            out.append(s.substring_char(i, i + 1));
            proof {
                assert(s@.subrange(i as int, i + 1) =~= seq![rest[0]]);
                assert(rest.skip(1) =~= s@.skip(i + 1));
                if rest.len() < pat@.len() {
                    assert(replace_all(rest, pat@, rep@) == rest);
                    assert(rest =~= seq![rest[0]] + rest.skip(1));
                    assert(replace_all(rest.skip(1), pat@, rep@) == rest.skip(1));
                }
                assert(out@ + replace_all(s@.skip(i + 1), pat@, rep@) =~= replace_all(s@, pat@, rep@));
            }
            i = i + 1;
        }
    }
    proof {
        assert(s@.skip(n as int) =~= Seq::<char>::empty());
        assert(out@ =~= out@ + replace_all(s@.skip(n as int), pat@, rep@));
    }
    out
}

/// The placeholder for parameter `i`.
fn placeholder_text(i: usize) -> (r: String)
    ensures
        r@ == placeholder(i as nat),
{
    let mut out = String::new();
    out.append("{");
    push_decimal(&mut out, i as u128);
    out.append("}");
    proof {
        reveal_strlit("{");
        reveal_strlit("}");
        assert(out@ =~= placeholder(i as nat));
    }
    out
}

/// `s` with the placeholders of all `params` replaced, parameter 0 first.
fn substitute_str(s: &str, params: &[&str]) -> (r: String)
    ensures
        r@ == substitute_text(s@, param_views(params@)),
{
    let mut out: String = s.to_owned();
    let mut i: usize = 0;
    while i < params.len()
        invariant
            i <= params@.len(),
            out@ == substituted(s@, param_views(params@), i as nat),
        decreases params@.len() - i,
    {
        let pat = placeholder_text(i);
        proof {
            assert(pat@.len() > 0);
        }
        let next = replace_text(out.as_str(), pat.as_str(), params[i]);
        out = next;
        i += 1;
    }
    out
}

impl UiCommand {
    /// This command with `{0}`, `{1}`, ... in its text fields replaced by `params`.
    pub fn substitute(&self, params: &[&str]) -> (r: UiCommand)
        ensures
            r@ == substitute_view(self@, param_views(params@)),
    {
        match self {
            UiCommand::BeginWindow { title, x_bits, y_bits, w_bits, h_bits } => UiCommand::BeginWindow {
                title: substitute_str(title.as_str(), params),
                x_bits: *x_bits,
                y_bits: *y_bits,
                w_bits: *w_bits,
                h_bits: *h_bits,
            },
            UiCommand::Label { text, font_size_bits } => UiCommand::Label {
                text: substitute_str(text.as_str(), params),
                font_size_bits: *font_size_bits,
            },
            UiCommand::Button { id, text } => UiCommand::Button { id: *id, text: substitute_str(text.as_str(), params) },
            UiCommand::ProgressBar { fraction_bits, text, w_bits } => UiCommand::ProgressBar {
                fraction_bits: *fraction_bits,
                text: substitute_str(text.as_str(), params),
                w_bits: *w_bits,
            },
            UiCommand::Image { path, w_bits, h_bits } => UiCommand::Image {
                path: substitute_str(path.as_str(), params),
                w_bits: *w_bits,
                h_bits: *h_bits,
            },
            UiCommand::EndWindow => UiCommand::EndWindow,
            UiCommand::BeginHorizontal => UiCommand::BeginHorizontal,
            UiCommand::EndHorizontal => UiCommand::EndHorizontal,
            UiCommand::BeginVertical => UiCommand::BeginVertical,
            UiCommand::EndVertical => UiCommand::EndVertical,
            UiCommand::Separator => UiCommand::Separator,
            UiCommand::Spacing { amount_bits } => UiCommand::Spacing { amount_bits: *amount_bits },
            UiCommand::SetColor { r, g, b, a } => UiCommand::SetColor { r: *r, g: *g, b: *b, a: *a },
            UiCommand::SetFontSize { size_bits } => UiCommand::SetFontSize { size_bits: *size_bits },
        }
    }
}

/// A reusable UI layout: a name (also its key) and recorded commands that may hold
/// placeholders.
pub struct UiPrefab {
    pub name: String,
    pub commands: Vec<UiCommand>,
}

/// The command views of `cmds`.
pub open spec fn command_views(cmds: Seq<UiCommand>) -> Seq<UiCommandView> {
    cmds.map_values(|c: UiCommand| c@)
}

impl UiPrefab {
    /// The prefab's commands with the placeholders replaced by `params`.
    pub fn instantiate(&self, params: &[&str]) -> (r: Vec<UiCommand>)
        ensures
            command_views(r@) == command_views(self.commands@).map_values(|c: UiCommandView| substitute_view(c, param_views(params@))),
    {
        let mut out: Vec<UiCommand> = Vec::new();
        let mut i: usize = 0;
        while i < self.commands.len()
            invariant
                i <= self.commands@.len(),
                out@.len() == i,
                forall|j: int| 0 <= j < i ==> (#[trigger] out@[j])@ == substitute_view(self.commands@[j]@, param_views(params@)),
            decreases self.commands@.len() - i,
        {
            let c = self.commands[i].substitute(params);
            out.push(c);
            i += 1;
        }
        proof {
            assert(command_views(out@) =~= command_views(self.commands@).map_values(|c: UiCommandView| substitute_view(c, param_views(params@))));
        }
        out
    }
}

/// Position of the first prefab named `name`.
pub open spec fn prefab_pos(s: Seq<UiPrefab>, name: Seq<char>) -> Option<int>
    decreases s.len(),
{
    if s.len() == 0 {
        None
    } else if s[0].name@ == name {
        Some(0)
    } else {
        match prefab_pos(s.drop_first(), name) {
            Some(p) => Some(p + 1),
            None => None,
        }
    }
}

proof fn lemma_prefab_pos(s: Seq<UiPrefab>, name: Seq<char>)
    ensures
        match prefab_pos(s, name) {
            Some(p) => 0 <= p < s.len() && s[p].name@ == name && forall|j: int| 0 <= j < p ==> #[trigger] s[j].name@ != name,
            None => forall|j: int| 0 <= j < s.len() ==> #[trigger] s[j].name@ != name,
        },
    decreases s.len(),
{
    if s.len() > 0 && s[0].name@ != name {
        let t = s.drop_first();
        lemma_prefab_pos(t, name);
        match prefab_pos(t, name) {
            Some(p) => {
                assert forall|j: int| 0 <= j < p + 1 implies #[trigger] s[j].name@ != name by {
                    if j > 0 {
                        assert(s[j] == t[j - 1]);
                    }
                }
            },
            None => {
                assert forall|j: int| 0 <= j < s.len() implies #[trigger] s[j].name@ != name by {
                    if j > 0 {
                        assert(s[j] == t[j - 1]);
                    }
                }
            },
        }
    }
}

/// `a` comes before or equals `b` in code point order.
pub open spec fn lex_le(a: Seq<char>, b: Seq<char>) -> bool
    decreases a.len(),
{
    if a.len() == 0 {
        true
    } else if b.len() == 0 {
        false
    } else if a[0] != b[0] {
        (a[0] as int) < (b[0] as int)
    } else {
        lex_le(a.drop_first(), b.drop_first())
    }
}

proof fn lemma_lex_total(a: Seq<char>, b: Seq<char>)
    ensures
        lex_le(a, b) || lex_le(b, a),
    decreases a.len(),
{
    if a.len() > 0 && b.len() > 0 {
        if a[0] == b[0] {
            lemma_lex_total(a.drop_first(), b.drop_first());
        } else {
        }
    }
}

/// Whether `a` comes before or equals `b` in code point order.
fn str_le(a: &str, b: &str) -> (r: bool)
    ensures
        r == lex_le(a@, b@),
{
    let n = a.unicode_len();
    let m = b.unicode_len();
    let mut i: usize = 0;
    proof {
        assert(a@.skip(0) =~= a@);
        assert(b@.skip(0) =~= b@);
    }
    while i < n && i < m
        invariant
            n == a@.len(),
            m == b@.len(),
            i <= n,
            i <= m,
            lex_le(a@, b@) == lex_le(a@.skip(i as int), b@.skip(i as int)),
        decreases n - i,
    {
        let ca = a.get_char(i);
        let cb = b.get_char(i);
        if ca != cb {
            let lt = (ca as u32) < (cb as u32);
            proof {
                assert(a@.skip(i as int)[0] == ca && b@.skip(i as int)[0] == cb);
            }
            return lt;
        }
        proof {
            assert(a@.skip(i as int).drop_first() =~= a@.skip(i + 1));
            assert(b@.skip(i as int).drop_first() =~= b@.skip(i + 1));
        }
        i += 1;
    }
    i == n
}

/// The names of `s`.
pub open spec fn prefab_names(s: Seq<UiPrefab>) -> Seq<Seq<char>> {
    s.map_values(|p: UiPrefab| p.name@)
}

/// Each entry comes before or equals the next.
pub open spec fn sorted_names(s: Seq<Seq<char>>) -> bool {
    forall|i: int| 0 <= i < s.len() - 1 ==> lex_le(#[trigger] s[i], s[i + 1])
}

/// Registry of UI prefabs, one per name (the first of a name is the one used).
pub struct UiPrefabRegistry {
    pub prefabs: Vec<UiPrefab>,
}

impl Default for UiPrefabRegistry {
    fn default() -> (r: Self)
        ensures
            r.prefabs@.len() == 0,
    {
        UiPrefabRegistry { prefabs: Vec::new() }
    }
}

impl UiPrefabRegistry {
    pub fn new() -> (r: Self)
        ensures
            r.prefabs@.len() == 0,
    {
        UiPrefabRegistry { prefabs: Vec::new() }
    }

    fn find(&self, name: &str) -> (r: Option<usize>)
        ensures
            match r {
                Some(i) => prefab_pos(self.prefabs@, name@) == Some(i as int) && i < self.prefabs@.len(),
                None => prefab_pos(self.prefabs@, name@) is None,
            },
    {
        proof {
            lemma_prefab_pos(self.prefabs@, name@);
        }
        let ghost pos = prefab_pos(self.prefabs@, name@);
        let mut i: usize = 0;
        while i < self.prefabs.len()
            invariant
                i <= self.prefabs@.len(),
                pos == prefab_pos(self.prefabs@, name@),
                match pos {
                    Some(p) => 0 <= p < self.prefabs@.len() && self.prefabs@[p].name@ == name@
                        && forall|j: int| 0 <= j < p ==> #[trigger] self.prefabs@[j].name@ != name@,
                    None => forall|j: int| 0 <= j < self.prefabs@.len() ==> #[trigger] self.prefabs@[j].name@ != name@,
                },
                forall|j: int| 0 <= j < i ==> #[trigger] self.prefabs@[j].name@ != name@,
            decreases self.prefabs@.len() - i,
        {
            if crate::editor_utils::str_eq(self.prefabs[i].name.as_str(), name) {
                return Some(i);
            }
            i += 1;
        }
        None
    }

    /// Store `prefab`, replacing the one with the same name if there is one.
    pub fn insert(&mut self, prefab: UiPrefab)
        ensures
            match prefab_pos(old(self).prefabs@, prefab.name@) {
                Some(p) => final(self).prefabs@ == old(self).prefabs@.update(p, prefab),
                None => final(self).prefabs@ == old(self).prefabs@.push(prefab),
            },
    {
        match self.find(prefab.name.as_str()) {
            Some(p) => {
                self.prefabs.set(p, prefab);
            },
            None => {
                self.prefabs.push(prefab);
            },
        }
    }

    /// The prefab named `name`, if any.
    pub fn get(&self, name: &str) -> (r: Option<&UiPrefab>)
        ensures
            match prefab_pos(self.prefabs@, name@) {
                Some(p) => r matches Some(x) && *x == self.prefabs@[p],
                None => r is None,
            },
    {
        match self.find(name) {
            Some(p) => Some(&self.prefabs[p]),
            None => None,
        }
    }

    /// Remove and return the prefab named `name`, if any.
    pub fn remove(&mut self, name: &str) -> (r: Option<UiPrefab>)
        ensures
            match prefab_pos(old(self).prefabs@, name@) {
                Some(p) => r == Some(old(self).prefabs@[p]) && final(self).prefabs@ == old(self).prefabs@.remove(p),
                None => r is None && final(self).prefabs@ == old(self).prefabs@,
            },
    {
        match self.find(name) {
            Some(p) => Some(self.prefabs.remove(p)),
            None => None,
        }
    }

    /// The prefab names in code point order (for display).
    pub fn names_sorted(&self) -> (r: Vec<&str>)
        ensures
            r@.map_values(|s: &str| s@).to_multiset() == prefab_names(self.prefabs@).to_multiset(),
            sorted_names(r@.map_values(|s: &str| s@)),
    {
        broadcast use vstd::seq_lib::group_to_multiset_ensures;
        let mut out: Vec<&str> = Vec::new();
        let mut k: usize = 0;
        while k < self.prefabs.len()
            invariant
                k <= self.prefabs@.len(),
                out@.map_values(|s: &str| s@).to_multiset() == prefab_names(self.prefabs@).take(k as int).to_multiset(),
                sorted_names(out@.map_values(|s: &str| s@)),
            decreases self.prefabs@.len() - k,
        {
            let x: &str = self.prefabs[k].name.as_str();
            let mut p: usize = 0;
            while p < out.len() && str_le(out[p], x)
                invariant
                    p <= out@.len(),
                    forall|q: int| 0 <= q < p ==> lex_le(#[trigger] out@[q]@, x@),
                decreases out@.len() - p,
            {
                p += 1;
            }
            let ghost before = out@.map_values(|s: &str| s@);
            proof {
                if p < out@.len() {
                    lemma_lex_total(out@[p as int]@, x@);
                }
            }
            out.insert(p, x);
            proof {
                let views = out@.map_values(|s: &str| s@);
                assert(views =~= before.insert(p as int, x@));
                assert forall|i: int| 0 <= i < views.len() - 1 implies lex_le(#[trigger] views[i], views[i + 1]) by {
                    if i < p - 1 {
                        assert(views[i] == before[i] && views[i + 1] == before[i + 1]);
                    } else if i == p - 1 {
                        assert(views[i] == before[i] && views[i + 1] == x@);
                    } else if i == p {
                        assert(views[i] == x@ && views[i + 1] == before[i]);
                    } else {
                        assert(views[i] == before[i - 1] && views[i + 1] == before[i]);
                    }
                }
                assert(prefab_names(self.prefabs@).take(k + 1) =~= prefab_names(self.prefabs@).take(k as int).push(x@));
                vstd::seq_lib::to_multiset_insert(before, p as int, x@);
                vstd::seq_lib::to_multiset_build(prefab_names(self.prefabs@).take(k as int), x@);
            }
            k += 1;
        }
        proof {
            assert(prefab_names(self.prefabs@).take(k as int) =~= prefab_names(self.prefabs@));
        }
        out
    }
}

/// This frame's commands, last frame's clicks, and the prefab being recorded.
pub struct UiCommandBuffer {
    /// Commands pushed by scripts this frame.
    pub commands: Vec<UiCommand>,
    /// Button ids clicked last frame.
    pub clicked_buttons: Vec<u32>,
    /// Name of the prefab being recorded, if any.
    pub recording_prefab: Option<String>,
    /// Commands recorded so far.
    pub recording_commands: Vec<UiCommand>,
}

impl Default for UiCommandBuffer {
    fn default() -> (r: Self)
        ensures
            r.commands@.len() == 0,
            r.clicked_buttons@.len() == 0,
            r.recording_prefab is None,
            r.recording_commands@.len() == 0,
    {
        UiCommandBuffer { commands: Vec::new(), clicked_buttons: Vec::new(), recording_prefab: None, recording_commands: Vec::new() }
    }
}

impl UiCommandBuffer {
    pub fn new() -> (r: Self)
        ensures
            r.commands@.len() == 0,
            r.clicked_buttons@.len() == 0,
            r.recording_prefab is None,
            r.recording_commands@.len() == 0,
    {
        UiCommandBuffer { commands: Vec::new(), clicked_buttons: Vec::new(), recording_prefab: None, recording_commands: Vec::new() }
    }

    /// Push a command: into the recording while a prefab is being recorded, else into
    /// this frame's commands.
    pub fn push(&mut self, cmd: UiCommand)
        ensures
            final(self).clicked_buttons@ == old(self).clicked_buttons@,
            final(self).recording_prefab == old(self).recording_prefab,
            old(self).recording_prefab is Some ==> final(self).recording_commands@ == old(self).recording_commands@.push(cmd)
                && final(self).commands@ == old(self).commands@,
            old(self).recording_prefab is None ==> final(self).commands@ == old(self).commands@.push(cmd)
                && final(self).recording_commands@ == old(self).recording_commands@,
    {
        if self.recording_prefab.is_some() {
            self.recording_commands.push(cmd);
        } else {
            self.commands.push(cmd);
        }
    }

    /// Whether button `id` was clicked last frame.
    pub fn was_clicked(&self, id: u32) -> (r: bool)
        ensures
            r == self.clicked_buttons@.contains(id),
    {
        let mut i: usize = 0;
        while i < self.clicked_buttons.len()
            invariant
                i <= self.clicked_buttons@.len(),
                forall|j: int| 0 <= j < i ==> self.clicked_buttons@[j] != id,
            decreases self.clicked_buttons@.len() - i,
        {
            if self.clicked_buttons[i] == id {
                return true;
            }
            i += 1;
        }
        false
    }

    /// Start recording into a prefab named `name` (any earlier recording is dropped).
    pub fn begin_recording(&mut self, name: &str)
        ensures
            final(self).recording_prefab matches Some(n) && n@ == name@,
            final(self).recording_commands@.len() == 0,
            final(self).commands@ == old(self).commands@,
            final(self).clicked_buttons@ == old(self).clicked_buttons@,
    {
        self.recording_prefab = Some(name.to_owned());
        self.recording_commands.clear();
    }

    /// Finish recording and return the prefab; `None` when not recording.
    pub fn end_recording(&mut self) -> (r: Option<UiPrefab>)
        ensures
            final(self).recording_prefab is None,
            final(self).commands@ == old(self).commands@,
            final(self).clicked_buttons@ == old(self).clicked_buttons@,
            match old(self).recording_prefab {
                Some(n) => r matches Some(p) && p.name == n && p.commands@ == old(self).recording_commands@
                    && final(self).recording_commands@.len() == 0,
                None => r is None && final(self).recording_commands@ == old(self).recording_commands@,
            },
    {
        let name = match self.recording_prefab.take() {
            Some(n) => n,
            None => { return None; },
        };
        let mut commands: Vec<UiCommand> = Vec::new();
        std::mem::swap(&mut commands, &mut self.recording_commands);
        Some(UiPrefab { name, commands })
    }

    /// Whether a prefab is being recorded.
    pub fn is_recording(&self) -> (r: bool)
        ensures
            r == self.recording_prefab is Some,
    {
        self.recording_prefab.is_some()
    }
}

} // verus!
