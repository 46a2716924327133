//! Generic progress trees (technology, culture, ideology, ...).
//!
//! A tree is a DAG of nodes with prerequisites. Definitions are data; progress is kept
//! per scope (nation, province, ...). Node costs and progress amounts are `f64`s kept
//! as bit patterns; the arithmetic on them runs outside this library.

use vstd::prelude::*;
use std::collections::HashMap;
use std::collections::HashSet;
use std::marker::PhantomData;
use crate::tags::{make_key, scoped_key, lemma_scoped_key_injective};
use crate::world::{NationId, ProvinceId, ScopeId};

verus! {

broadcast use vstd::std_specs::hash::group_hash_axioms;

#[derive(Clone, Copy, Debug, PartialEq, Eq, Hash, Structural)]
pub struct TreeId {
    raw: u32,
}

impl TreeId {
    #[verifier::type_invariant]
    spec fn nonzero(self) -> bool {
        self.raw != 0
    }

    /// The raw 1-based value.
    pub closed spec fn spec_raw(self) -> u32 {
        self.raw
    }

    /// Builds an id from its raw 1-based value (zero is not an id).
    pub fn from_raw(raw: u32) -> (r: Self)
        requires
            raw != 0,
        ensures
            r.spec_raw() == raw,
    {
        TreeId { raw }
    }

    pub fn raw(self) -> (r: u32)
        ensures
            r == self.spec_raw(),
            r != 0,
    {
        proof { use_type_invariant(&self); }
        self.raw
    }

    /// Two ids are equal exactly when their raw values are.
    pub proof fn lemma_raw_injective(a: Self, b: Self)
        ensures
            (a.spec_raw() == b.spec_raw()) == (a == b),
    {
    }
}

#[derive(Clone, Copy, Debug, PartialEq, Eq, Hash, Structural)]
pub struct NodeId {
    raw: u32,
}

impl NodeId {
    #[verifier::type_invariant]
    spec fn nonzero(self) -> bool {
        self.raw != 0
    }

    /// The raw 1-based value.
    pub closed spec fn spec_raw(self) -> u32 {
        self.raw
    }

    /// Builds an id from its raw 1-based value (zero is not an id).
    pub fn from_raw(raw: u32) -> (r: Self)
        requires
            raw != 0,
        ensures
            r.spec_raw() == raw,
    {
        NodeId { raw }
    }

    pub fn raw(self) -> (r: u32)
        ensures
            r == self.spec_raw(),
            r != 0,
    {
        proof { use_type_invariant(&self); }
        self.raw
    }

    /// Two ids are equal exactly when their raw values are.
    pub proof fn lemma_raw_injective(a: Self, b: Self)
        ensures
            (a.spec_raw() == b.spec_raw()) == (a == b),
    {
    }
}

/// One node of a tree.
pub struct ProgressNode {
    pub id: NodeId,
    pub name: String,
    /// Total progress required to unlock (`f64` bit pattern).
    pub cost_bits: u64,
    pub prerequisites: Vec<NodeId>,
    /// Game-defined opaque payload for unlock effects.
    pub effects_payload: Vec<u8>,
}

/// What a node holds, as plain values.
pub struct NodeView {
    pub id: NodeId,
    pub name: Seq<char>,
    pub cost_bits: u64,
    pub prerequisites: Seq<NodeId>,
    pub effects_payload: Seq<u8>,
}

impl View for ProgressNode {
    type V = NodeView;

    open spec fn view(&self) -> NodeView {
        NodeView {
            id: self.id,
            name: self.name@,
            cost_bits: self.cost_bits,
            prerequisites: self.prerequisites@,
            effects_payload: self.effects_payload@,
        }
    }
}

/// One tree definition.
pub struct ProgressTreeDefinition {
    pub id: TreeId,
    pub name: String,
    pub nodes: Vec<ProgressNode>,
}

/// What a tree holds, as plain values.
pub struct TreeView {
    pub id: TreeId,
    pub name: Seq<char>,
    pub nodes: Seq<NodeView>,
}

impl View for ProgressTreeDefinition {
    type V = TreeView;

    open spec fn view(&self) -> TreeView {
        TreeView { id: self.id, name: self.name@, nodes: node_views(self.nodes@) }
    }
}

/// The views of `ns`.
pub open spec fn node_views(ns: Seq<ProgressNode>) -> Seq<NodeView> {
    ns.map_values(|n: ProgressNode| n@)
}

/// The views of `ts`.
pub open spec fn tree_views(ts: Seq<ProgressTreeDefinition>) -> Seq<TreeView> {
    ts.map_values(|t: ProgressTreeDefinition| t@)
}

/// `x` raised to at least one.
pub open spec fn at_least_one(x: u32) -> u32 {
    if x >= 1 { x } else { 1 }
}

/// `x + 1`, stopping at `u32::MAX`.
pub open spec fn next_raw_after(x: u32) -> u32 {
    if x == u32::MAX { u32::MAX } else { (x + 1) as u32 }
}

/// The larger of two raw ids.
pub open spec fn max_raw(a: u32, b: u32) -> u32 {
    if a >= b { a } else { b }
}

/// Index entries of the nodes of tree `t`: node id to position, later ones winning.
pub open spec fn index_of_nodes(t: u32, ns: Seq<NodeView>) -> Map<u64, usize>
    decreases ns.len(),
{
    if ns.len() == 0 {
        Map::empty()
    } else {
        index_of_nodes(t, ns.drop_last()).insert(scoped_key(t, ns.last().id.spec_raw()), (ns.len() - 1) as usize)
    }
}

/// The index built from `ts`, tree by tree: (tree id, node id) to the node's position
/// in its tree, later entries winning.
pub open spec fn index_of_trees(ts: Seq<TreeView>) -> Map<u64, usize>
    decreases ts.len(),
{
    if ts.len() == 0 {
        Map::empty()
    } else {
        index_of_trees(ts.drop_last()).union_prefer_right(index_of_nodes(ts.last().id.spec_raw(), ts.last().nodes))
    }
}

/// The next node raw after folding the node ids of `ns` into `start`.
pub open spec fn next_node_in(start: u32, ns: Seq<NodeView>) -> u32
    decreases ns.len(),
{
    if ns.len() == 0 {
        start
    } else {
        max_raw(next_node_in(start, ns.drop_last()), next_raw_after(ns.last().id.spec_raw()))
    }
}

/// The next node raw after folding all node ids of `ts` into `start`.
pub open spec fn next_node_of(start: u32, ts: Seq<TreeView>) -> u32
    decreases ts.len(),
{
    if ts.len() == 0 {
        start
    } else {
        next_node_in(next_node_of(start, ts.drop_last()), ts.last().nodes)
    }
}

/// The next tree raw after folding the tree ids of `ts` into `start`.
pub open spec fn next_tree_of(start: u32, ts: Seq<TreeView>) -> u32
    decreases ts.len(),
{
    if ts.len() == 0 {
        start
    } else {
        max_raw(next_tree_of(start, ts.drop_last()), next_raw_after(ts.last().id.spec_raw()))
    }
}

/// Position of the first tree with id `id`.
pub open spec fn tree_pos(ts: Seq<TreeView>, id: TreeId) -> Option<int>
    decreases ts.len(),
{
    if ts.len() == 0 {
        None
    } else if ts[0].id == id {
        Some(0)
    } else {
        match tree_pos(ts.drop_first(), id) {
            Some(p) => Some(p + 1),
            None => None,
        }
    }
}

proof fn lemma_tree_pos(ts: Seq<TreeView>, id: TreeId)
    ensures
        match tree_pos(ts, id) {
            Some(p) => 0 <= p < ts.len() && ts[p].id == id && forall|j: int| 0 <= j < p ==> #[trigger] ts[j].id != id,
            None => forall|j: int| 0 <= j < ts.len() ==> #[trigger] ts[j].id != id,
        },
    decreases ts.len(),
{
    if ts.len() > 0 && ts[0].id != id {
        let t = ts.drop_first();
        lemma_tree_pos(t, id);
        assert forall|j: int| 1 <= j < ts.len() implies #[trigger] ts[j] == t[j - 1] by {}
    }
}

/// Holds of every id but `node`.
pub open spec fn other_than(node: NodeId) -> spec_fn(NodeId) -> bool {
    |p: NodeId| p != node
}

/// `n` without `node` among its prerequisites.
pub open spec fn strip_prereq(n: NodeView, node: NodeId) -> NodeView {
    NodeView { prerequisites: n.prerequisites.filter(other_than(node)), ..n }
}

fn strip_node_prereq(n: ProgressNode, node: NodeId) -> (r: ProgressNode)
    ensures
        r@ == strip_prereq(n@, node),
{
    let ghost orig = n@;
    let mut n = n;
    let ghost ps = n.prerequisites@;
    let mut kept: Vec<NodeId> = Vec::new();
    let mut i: usize = 0;
    proof {
        reveal(Seq::filter);
        assert(kept@ =~= ps.take(0).filter(other_than(node)));
    }
    while i < n.prerequisites.len()
        invariant
            n.prerequisites@ == ps,
            n@ == orig,
            i <= ps.len(),
            kept@ == ps.take(i as int).filter(other_than(node)),
        decreases ps.len() - i,
    {
        let p = n.prerequisites[i];
        proof {
            assert(ps.take(i + 1) =~= ps.take(i as int).push(p));
            ps.take(i as int).lemma_filter_push(p, other_than(node));
            NodeId::lemma_raw_injective(p, node);
        }
        if p.raw() != node.raw() {
            kept.push(p);
        }
        i += 1;
    }
    proof {
        assert(ps.take(i as int) =~= ps);
    }
    n.prerequisites = kept;
    n
}

/// Registry of all progress tree definitions.
///
/// Node lookups go through an index from (tree id, node id) to the node's position in
/// its tree; it is built lazily from `trees` and dropped by every change made through
/// these methods.
pub struct ProgressTrees {
    pub trees: Vec<ProgressTreeDefinition>,
    pub next_tree_raw: u32,
    pub next_node_raw: u32,
    node_index: HashMap<u64, usize>,
}

impl ProgressTrees {
    /// The trees, as plain values.
    pub closed spec fn trees_view(&self) -> Seq<TreeView> {
        tree_views(self.trees@)
    }

    pub closed spec fn next_tree(&self) -> u32 {
        self.next_tree_raw
    }

    pub closed spec fn next_node(&self) -> u32 {
        self.next_node_raw
    }

    /// The node index as it stands.
    pub closed spec fn index(&self) -> Map<u64, usize> {
        self.node_index@
    }

    /// The index the next lookup uses: rebuilt from the trees when empty.
    pub open spec fn ensured_index(&self) -> Map<u64, usize> {
        if self.index().is_empty() { index_of_trees(self.trees_view()) } else { self.index() }
    }

    /// The next tree raw after a lookup (a rebuild folds the tree ids in).
    pub open spec fn ensured_next_tree(&self) -> u32 {
        if self.index().is_empty() {
            at_least_one(next_tree_of(self.next_tree(), self.trees_view()))
        } else {
            self.next_tree()
        }
    }

    /// The next node raw after a lookup (a rebuild folds the node ids in).
    pub open spec fn ensured_next_node(&self) -> u32 {
        if self.index().is_empty() {
            at_least_one(next_node_of(self.next_node(), self.trees_view()))
        } else {
            self.next_node()
        }
    }

    /// Tree ids are distinct, node ids are distinct within each tree, and both next raw
    /// ids lie past every id in use.
    pub open spec fn well_formed(&self) -> bool {
        let tv = self.trees_view();
        &&& forall|i: int, j: int| 0 <= i < j < tv.len() ==> tv[i].id != tv[j].id
        &&& forall|i: int| 0 <= i < tv.len() ==> (#[trigger] tv[i]).id.spec_raw() < self.next_tree()
        &&& forall|i: int, j: int| 0 <= i < tv.len() && 0 <= j < tv[i].nodes.len() ==> (#[trigger] tv[i].nodes[j]).id.spec_raw() < self.next_node()
        &&& forall|i: int, j: int, k: int| 0 <= i < tv.len() && 0 <= j < k < tv[i].nodes.len() ==> tv[i].nodes[j].id != tv[i].nodes[k].id
    }

    pub fn new() -> (r: Self)
        ensures
            r.well_formed(),
            r.trees_view().len() == 0,
            r.next_tree() == 1,
            r.next_node() == 1,
            r.index().is_empty(),
    {
        let r = ProgressTrees { trees: Vec::new(), next_tree_raw: 1, next_node_raw: 1, node_index: HashMap::new() };
        proof {
            assert(r.index().dom() =~= Set::<u64>::empty());
        }
        r
    }

    /// Rebuild the node index from the trees, and raise the next raw ids past every
    /// id in them (and to at least one).
    pub fn rebuild_index(&mut self)
        ensures
            final(self).trees_view() == old(self).trees_view(),
            final(self).index() == index_of_trees(old(self).trees_view()),
            final(self).next_tree() == at_least_one(next_tree_of(old(self).next_tree(), old(self).trees_view())),
            final(self).next_node() == at_least_one(next_node_of(old(self).next_node(), old(self).trees_view())),
    {
        self.node_index.clear();
        let ghost tv = self.trees_view();
        let mut k: usize = 0;
        proof {
            assert(tv.take(0) =~= Seq::<TreeView>::empty());
            assert(self.node_index@ =~= Map::<u64, usize>::empty());
        }
        while k < self.trees.len()
            invariant
                k <= self.trees@.len(),
                tv == tree_views(self.trees@),
                tv == old(self).trees_view(),
                self.node_index@ == index_of_trees(tv.take(k as int)),
                self.next_tree_raw == next_tree_of(old(self).next_tree_raw, tv.take(k as int)),
                self.next_node_raw == next_node_of(old(self).next_node_raw, tv.take(k as int)),
            decreases self.trees@.len() - k,
        {
            let traw = self.trees[k].id.raw();
            let cand = if traw == u32::MAX { u32::MAX } else { traw + 1 };
            if cand > self.next_tree_raw {
                self.next_tree_raw = cand;
            }
            let ghost base = self.node_index@;
            let ghost nt = self.next_tree_raw;
            let ghost start = self.next_node_raw;
            let ghost nv = tv[k as int].nodes;
            let n = self.trees[k].nodes.len();
            let mut i: usize = 0;
            proof {
                assert(nv.take(0) =~= Seq::<NodeView>::empty());
                assert(base.union_prefer_right(index_of_nodes(traw, nv.take(0))) =~= base);
            }
            while i < n
                invariant
                    k < self.trees@.len(),
                    tv == tree_views(self.trees@),
                    n == nv.len(),
                    nv == tv[k as int].nodes,
                    traw == tv[k as int].id.spec_raw(),
                    i <= n,
                    self.node_index@ == base.union_prefer_right(index_of_nodes(traw, nv.take(i as int))),
                    self.next_node_raw == next_node_in(start, nv.take(i as int)),
                    self.next_tree_raw == nt,
                decreases n - i,
            {
                let nraw = self.trees[k].nodes[i].id.raw();
                proof {
                    assert(nv[i as int].id.spec_raw() == nraw);
                }
                let ncand = if nraw == u32::MAX { u32::MAX } else { nraw + 1 };
                if ncand > self.next_node_raw {
                    self.next_node_raw = ncand;
                }
                let key = make_key(traw, nraw);
                self.node_index.insert(key, i);
                proof {
                    assert(nv.take(i + 1).drop_last() =~= nv.take(i as int));
                    assert(self.node_index@ =~= base.union_prefer_right(index_of_nodes(traw, nv.take(i + 1))));
                }
                i += 1;
            }
            proof {
                assert(nv.take(n as int) =~= nv);
                assert(tv.take(k + 1).drop_last() =~= tv.take(k as int));
            }
            k += 1;
        }
        proof {
            assert(tv.take(k as int) =~= tv);
        }
        if self.next_tree_raw < 1 {
            self.next_tree_raw = 1;
        }
        if self.next_node_raw < 1 {
            self.next_node_raw = 1;
        }
    }
    fn find_tree(&self, tree: TreeId) -> (r: Option<usize>)
        ensures
            match r {
                Some(i) => tree_pos(self.trees_view(), tree) == Some(i as int) && i < self.trees_view().len(),
                None => tree_pos(self.trees_view(), tree) is None,
            },
    {
        proof {
            lemma_tree_pos(self.trees_view(), tree);
        }
        let ghost tv = self.trees_view();
        let ghost pos = tree_pos(tv, tree);
        let mut i: usize = 0;
        while i < self.trees.len()
            invariant
                i <= self.trees@.len(),
                tv == self.trees_view(),
                tv.len() == self.trees@.len(),
                pos == tree_pos(tv, tree),
                match pos {
                    Some(p) => 0 <= p < tv.len() && tv[p].id == tree && forall|j: int| 0 <= j < p ==> #[trigger] tv[j].id != tree,
                    None => forall|j: int| 0 <= j < tv.len() ==> #[trigger] tv[j].id != tree,
                },
                forall|j: int| 0 <= j < i ==> #[trigger] tv[j].id != tree,
            decreases self.trees@.len() - i,
        {
            let t = self.trees[i].id;
            proof {
                assert(tv[i as int].id == t);
                TreeId::lemma_raw_injective(t, tree);
            }
            if t.raw() == tree.raw() {
                return Some(i);
            }
            i += 1;
        }
        None
    }

    /// Add an empty tree named `name` under the next tree id, and return that id.
    pub fn add_tree(&mut self, name: &str) -> (r: TreeId)
        ensures
            r.spec_raw() == at_least_one(old(self).next_tree()),
            final(self).next_tree() == next_raw_after(r.spec_raw()),
            final(self).next_node() == old(self).next_node(),
            final(self).trees_view() == old(self).trees_view().push(TreeView { id: r, name: name@, nodes: Seq::empty() }),
            final(self).index().is_empty(),
    {
        let raw = if self.next_tree_raw < 1 { 1 } else { self.next_tree_raw };
        self.next_tree_raw = if raw == u32::MAX { u32::MAX } else { raw + 1 };
        let id = TreeId::from_raw(raw);
        let t = ProgressTreeDefinition { id, name: name.to_owned(), nodes: Vec::new() };
        proof {
            assert(t@.nodes =~= Seq::<NodeView>::empty());
        }
        self.trees.push(t);
        self.node_index.clear();
        proof {
            assert(self.trees_view() =~= old(self).trees_view().push(TreeView { id, name: name@, nodes: Seq::empty() }));
        }
        id
    }

    /// Take the next node id and, when a tree with id `tree` exists, append the node to
    /// the first such tree. The id is returned (and used up) either way.
    pub fn add_node(&mut self, tree: TreeId, name: &str, cost_bits: u64, prerequisites: Vec<NodeId>, effects_payload: Vec<u8>) -> (r: NodeId)
        ensures
            r.spec_raw() == at_least_one(old(self).next_node()),
            final(self).next_node() == next_raw_after(r.spec_raw()),
            final(self).next_tree() == old(self).next_tree(),
            final(self).index().is_empty(),
            match tree_pos(old(self).trees_view(), tree) {
                Some(p) => final(self).trees_view() == old(self).trees_view().update(p, TreeView {
                    nodes: old(self).trees_view()[p].nodes.push(NodeView {
                        id: r, name: name@, cost_bits, prerequisites: prerequisites@, effects_payload: effects_payload@,
                    }),
                    ..old(self).trees_view()[p]
                }),
                None => final(self).trees_view() == old(self).trees_view(),
            },
    {
        let raw = if self.next_node_raw < 1 { 1 } else { self.next_node_raw };
        self.next_node_raw = if raw == u32::MAX { u32::MAX } else { raw + 1 };
        let id = NodeId::from_raw(raw);
        let ghost nv = NodeView { id, name: name@, cost_bits, prerequisites: prerequisites@, effects_payload: effects_payload@ };
        match self.find_tree(tree) {
            Some(p) => {
                let node = ProgressNode { id, name: name.to_owned(), cost_bits, prerequisites, effects_payload };
                self.trees[p].nodes.push(node);
                proof {
                    let old_t = old(self).trees_view()[p as int];
                    assert(self.trees@[p as int]@.nodes =~= old_t.nodes.push(nv));
                    assert(self.trees_view() =~= old(self).trees_view().update(p as int, TreeView { nodes: old_t.nodes.push(nv), ..old_t }));
                }
            },
            None => {},
        }
        self.node_index.clear();
        id
    }

    fn ensure_index(&mut self)
        ensures
            final(self).trees_view() == old(self).trees_view(),
            final(self).index() == old(self).ensured_index(),
            final(self).next_tree() == old(self).ensured_next_tree(),
            final(self).next_node() == old(self).ensured_next_node(),
    {
        if !self.node_index.is_empty() {
            return;
        }
        self.rebuild_index();
    }

    /// The node `node` of tree `tree`, found through the index (built first if empty):
    /// the index gives a position, which is looked up in the first tree with id `tree`.
    pub fn get_node(&mut self, tree: TreeId, node: NodeId) -> (r: Option<&ProgressNode>)
        ensures
            final(self).trees_view() == old(self).trees_view(),
            final(self).index() == old(self).ensured_index(),
            final(self).next_tree() == old(self).ensured_next_tree(),
            final(self).next_node() == old(self).ensured_next_node(),
            match tree_pos(old(self).trees_view(), tree) {
                None => r is None,
                Some(p) => {
                    let k = scoped_key(tree.spec_raw(), node.spec_raw());
                    let ix = old(self).ensured_index();
                    if ix.contains_key(k) && (ix[k] as int) < old(self).trees_view()[p].nodes.len() {
                        r matches Some(x) && x@ == old(self).trees_view()[p].nodes[ix[k] as int]
                    } else {
                        r is None
                    }
                },
            },
    {
        self.ensure_index();
        let p = match self.find_tree(tree) {
            Some(p) => p,
            None => { return None; },
        };
        let key = make_key(tree.raw(), node.raw());
        let idx = match self.node_index.get(&key) {
            Some(i) => *i,
            None => { return None; },
        };
        if idx < self.trees[p].nodes.len() {
            proof {
                assert(self.trees@[p as int]@.nodes[idx as int] == self.trees@[p as int].nodes@[idx as int]@);
            }
            Some(&self.trees[p].nodes[idx])
        } else {
            None
        }
    }

    /// Remove every tree with id `tree`.
    pub fn remove_tree(&mut self, tree: TreeId)
        ensures
            final(self).trees_view() == old(self).trees_view().filter(|t: TreeView| t.id != tree),
            final(self).next_tree() == old(self).next_tree(),
            final(self).next_node() == old(self).next_node(),
            final(self).index().is_empty(),
    {
        let ghost tv = self.trees_view();
        let mut kept: Vec<ProgressTreeDefinition> = Vec::new();
        let mut old_trees: Vec<ProgressTreeDefinition> = Vec::new();
        std::mem::swap(&mut old_trees, &mut self.trees);
        proof {
            reveal(Seq::filter);
            assert(tree_views(kept@) =~= tv.take(0).filter(|t: TreeView| t.id != tree));
        }
        let mut rest = old_trees;
        let mut taken: usize = 0;
        let total = rest.len();
        let mut i: usize = 0;
        proof {
            assert(tree_views(rest@) == tv);
        }
        while rest.len() > 0
            invariant
                tree_views(rest@) == tv.skip(i as int),
                i <= tv.len(),
                total == tv.len(),
                rest@.len() == tv.len() - i,
                tree_views(kept@) == tv.take(i as int).filter(|t: TreeView| t.id != tree),
                self.next_tree_raw == old(self).next_tree_raw,
                self.next_node_raw == old(self).next_node_raw,
            decreases rest@.len(),
        {
            let ghost r0 = rest@;
            let t = rest.remove(0);
            proof {
                assert(tree_views(r0)[0] == t@);
                assert(tv.skip(i as int)[0] == tv[i as int]);
                assert(tv[i as int] == t@);
                assert(rest@ =~= r0.drop_first());
                assert forall|j: int| 0 <= j < rest@.len() implies #[trigger] tree_views(rest@)[j] == tv.skip(i + 1)[j] by {
                    assert(rest@[j] == r0[j + 1]);
                    assert(tree_views(r0)[j + 1] == tv.skip(i as int)[j + 1]);
                }
                assert(tv.take(i + 1) =~= tv.take(i as int).push(t@));
                tv.take(i as int).lemma_filter_push(t@, |t: TreeView| t.id != tree);
                TreeId::lemma_raw_injective(t.id, tree);
                assert(tree_views(rest@) =~= tv.skip(i + 1));
            }
            if t.id.raw() != tree.raw() {
                kept.push(t);
                proof {
                    assert(tree_views(kept@) =~= tv.take(i + 1).filter(|t: TreeView| t.id != tree));
                }
            }
            i += 1;
        }
        proof {
            assert(tv.take(i as int) =~= tv);
        }
        self.trees = kept;
        self.node_index.clear();
    }
    /// Remove node `node` from the first tree with id `tree`, and drop it from the
    /// prerequisites of the nodes that remain there.
    pub fn remove_node(&mut self, tree: TreeId, node: NodeId)
        ensures
            final(self).next_tree() == old(self).next_tree(),
            final(self).next_node() == old(self).next_node(),
            final(self).index().is_empty(),
            match tree_pos(old(self).trees_view(), tree) {
                Some(p) => final(self).trees_view() == old(self).trees_view().update(p, TreeView {
                    nodes: old(self).trees_view()[p].nodes.filter(|n: NodeView| n.id != node)
                        .map_values(|n: NodeView| strip_prereq(n, node)),
                    ..old(self).trees_view()[p]
                }),
                None => final(self).trees_view() == old(self).trees_view(),
            },
    {
        match self.find_tree(tree) {
            Some(p) => {
                let ghost tv = self.trees_view();
                let ghost nv = tv[p as int].nodes;
                let mut rest: Vec<ProgressNode> = Vec::new();
                std::mem::swap(&mut rest, &mut self.trees[p].nodes);
                proof {
                    assert(node_views(rest@) == nv);
                }
                let mut kept: Vec<ProgressNode> = Vec::new();
                let total = rest.len();
                let mut i: usize = 0;
                proof {
                    reveal(Seq::filter);
                    assert(node_views(kept@) =~= nv.take(0).filter(|n: NodeView| n.id != node).map_values(|n: NodeView| strip_prereq(n, node)));
                }
                while rest.len() > 0
                    invariant
                        node_views(rest@) == nv.skip(i as int),
                        i <= nv.len(),
                        total == nv.len(),
                        rest@.len() == nv.len() - i,
                        node_views(kept@) == nv.take(i as int).filter(|n: NodeView| n.id != node).map_values(|n: NodeView| strip_prereq(n, node)),
                    decreases rest@.len(),
                {
                    let ghost r0 = rest@;
                    let n = rest.remove(0);
                    proof {
                        assert(node_views(r0)[0] == n@);
                        assert(nv.skip(i as int)[0] == nv[i as int]);
                        assert(rest@ =~= r0.drop_first());
                        assert forall|j: int| 0 <= j < rest@.len() implies #[trigger] node_views(rest@)[j] == nv.skip(i + 1)[j] by {
                            assert(rest@[j] == r0[j + 1]);
                            assert(node_views(r0)[j + 1] == nv.skip(i as int)[j + 1]);
                        }
                        assert(nv.take(i + 1) =~= nv.take(i as int).push(n@));
                        nv.take(i as int).lemma_filter_push(n@, |n: NodeView| n.id != node);
                        NodeId::lemma_raw_injective(n.id, node);
                    }
                    if n.id.raw() != node.raw() {
                        let stripped = strip_node_prereq(n, node);
                        let ghost before = node_views(kept@);
                        kept.push(stripped);
                        proof {
                            assert(node_views(kept@) =~= before.push(strip_prereq(nv[i as int], node)));
                            assert(nv.take(i + 1).filter(|n: NodeView| n.id != node) == nv.take(i as int).filter(|n: NodeView| n.id != node).push(nv[i as int]));
                            assert(node_views(kept@) =~= nv.take(i + 1).filter(|n: NodeView| n.id != node).map_values(|n: NodeView| strip_prereq(n, node)));
                        }
                    }
                    i += 1;
                }
                proof {
                    assert(nv.take(i as int) =~= nv);
                }
                std::mem::swap(&mut kept, &mut self.trees[p].nodes);
                proof {
                    let old_t = tv[p as int];
                    assert(self.trees@[p as int]@ == TreeView {
                        nodes: nv.filter(|n: NodeView| n.id != node).map_values(|n: NodeView| strip_prereq(n, node)),
                        ..old_t
                    });
                    assert(self.trees_view() =~= tv.update(p as int, TreeView {
                        nodes: nv.filter(|n: NodeView| n.id != node).map_values(|n: NodeView| strip_prereq(n, node)),
                        ..old_t
                    }));
                }
            },
            None => {},
        }
        self.node_index.clear();
    }
}

/// Progress of one tree in one scope: the unlocked node raw ids, and the progress
/// accumulated toward each node (an `f64` bit pattern).
pub struct TreeProgressState {
    pub unlocked: HashSet<u32>,
    pub progress: HashMap<u32, u64>,
}

/// What a tree's progress holds, as plain values.
pub struct TreeStateView {
    pub unlocked: Set<u32>,
    pub progress: Map<u32, u64>,
}

impl View for TreeProgressState {
    type V = TreeStateView;

    open spec fn view(&self) -> TreeStateView {
        TreeStateView { unlocked: self.unlocked@, progress: self.progress@ }
    }
}

impl Default for TreeProgressState {
    fn default() -> (r: Self)
        ensures
            r@ == (TreeStateView { unlocked: Set::empty(), progress: Map::empty() }),
    {
        TreeProgressState { unlocked: HashSet::new(), progress: HashMap::new() }
    }
}

/// Progress of each tree (by tree raw id), as plain values.
pub open spec fn trees_state_view(m: Map<u32, TreeProgressState>) -> Map<u32, TreeStateView> {
    m.map_values(|s: TreeProgressState| s@)
}

/// Whether node `node` of tree `tree` is unlocked in `m`.
pub open spec fn unlocked_in(m: Map<u32, TreeStateView>, tree: u32, node: u32) -> bool {
    m.contains_key(tree) && m[tree].unlocked.contains(node)
}

/// `m` after unlocking node `node` of tree `tree`: the node joins the unlocked set and
/// its accumulated progress is dropped (the tree's state is created if missing).
pub open spec fn after_unlock(m: Map<u32, TreeStateView>, tree: u32, node: u32) -> Map<u32, TreeStateView> {
    let base = if m.contains_key(tree) { m[tree] } else { TreeStateView { unlocked: Set::empty(), progress: Map::empty() } };
    m.insert(tree, TreeStateView { unlocked: base.unlocked.insert(node), progress: base.progress.remove(node) })
}

fn is_unlocked_in(m: &HashMap<u32, TreeProgressState>, tree: u32, node: u32) -> (r: bool)
    ensures
        r == unlocked_in(trees_state_view(m@), tree, node),
{
    match m.get(&tree) {
        Some(s) => s.unlocked.contains(&node),
        None => false,
    }
}

fn unlock_in(m: &mut HashMap<u32, TreeProgressState>, tree: u32, node: u32)
    ensures
        trees_state_view(final(m)@) == after_unlock(trees_state_view(old(m)@), tree, node),
{
    let mut st = match m.remove(&tree) {
        Some(s) => s,
        None => TreeProgressState::default(),
    };
    st.unlocked.insert(node);
    st.progress.remove(&node);
    m.insert(tree, st);
    proof {
        assert(trees_state_view(m@) =~= after_unlock(trees_state_view(old(m)@), tree, node));
    }
}

/// The progress accumulated toward node `node` of tree `tree` in `m` (an `f64` bit
/// pattern; 0, the bits of 0.0, when none is recorded).
pub open spec fn progress_in(m: Map<u32, TreeStateView>, tree: u32, node: u32) -> u64 {
    if m.contains_key(tree) && m[tree].progress.contains_key(node) { m[tree].progress[node] } else { 0 }
}

/// `m` with the progress toward node `node` of tree `tree` set to `bits` (the tree's
/// state is created if missing).
pub open spec fn after_set_progress(m: Map<u32, TreeStateView>, tree: u32, node: u32, bits: u64) -> Map<u32, TreeStateView> {
    let base = if m.contains_key(tree) { m[tree] } else { TreeStateView { unlocked: Set::empty(), progress: Map::empty() } };
    m.insert(tree, TreeStateView { unlocked: base.unlocked, progress: base.progress.insert(node, bits) })
}

fn progress_of_in(m: &HashMap<u32, TreeProgressState>, tree: u32, node: u32) -> (r: u64)
    ensures
        r == progress_in(trees_state_view(m@), tree, node),
{
    match m.get(&tree) {
        Some(s) => match s.progress.get(&node) {
            Some(b) => *b,
            None => 0,
        },
        None => 0,
    }
}

fn set_progress_in(m: &mut HashMap<u32, TreeProgressState>, tree: u32, node: u32, bits: u64)
    ensures
        trees_state_view(final(m)@) == after_set_progress(trees_state_view(old(m)@), tree, node, bits),
{
    let mut st = match m.remove(&tree) {
        Some(s) => s,
        None => TreeProgressState::default(),
    };
    st.progress.insert(node, bits);
    m.insert(tree, st);
    proof {
        assert(trees_state_view(m@) =~= after_set_progress(trees_state_view(old(m)@), tree, node, bits));
    }
}

/// `count` empty per-scope maps.
fn empty_states(count: usize) -> (r: Vec<HashMap<u32, TreeProgressState>>)
    ensures
        r@.len() == count,
        forall|i: int| 0 <= i < count ==> (#[trigger] r@[i])@ == Map::<u32, TreeProgressState>::empty(),
{
    let mut v: Vec<HashMap<u32, TreeProgressState>> = Vec::new();
    let mut i: usize = 0;
    while i < count
        invariant
            i <= count,
            v@.len() == i,
            forall|j: int| 0 <= j < i ==> (#[trigger] v@[j])@ == Map::<u32, TreeProgressState>::empty(),
        decreases count - i,
    {
        v.push(HashMap::new());
        i += 1;
    }
    v
}

/// The progress of each scope, as plain values.
pub open spec fn scopes_view(v: Seq<HashMap<u32, TreeProgressState>>) -> Seq<Map<u32, TreeStateView>> {
    v.map_values(|m: HashMap<u32, TreeProgressState>| trees_state_view(m@))
}

/// Whether `node` of `tree` is unlocked for the scope at position `i` of `scopes`.
pub open spec fn unlocked_at(scopes: Seq<Map<u32, TreeStateView>>, i: int, tree: u32, node: u32) -> bool {
    0 <= i < scopes.len() && unlocked_in(scopes[i], tree, node)
}

/// Progress per scope (scope with raw id `r` at position `r - 1`), tree by tree.
pub struct ScopedProgress<Id: ScopeId> {
    pub per_scope: Vec<HashMap<u32, TreeProgressState>>,
    _marker: PhantomData<Id>,
}

impl<Id: ScopeId> ScopedProgress<Id> {
    pub closed spec fn scopes(&self) -> Seq<Map<u32, TreeStateView>> {
        scopes_view(self.per_scope@)
    }

    /// Nothing unlocked and no progress, for `count` scopes.
    pub fn new(count: usize) -> (r: Self)
        ensures
            r.scopes().len() == count,
            forall|i: int| 0 <= i < count ==> (#[trigger] r.scopes()[i]) == Map::<u32, TreeStateView>::empty(),
    {
        let r = ScopedProgress { per_scope: empty_states(count), _marker: PhantomData };
        proof {
            assert forall|i: int| 0 <= i < count implies (#[trigger] r.scopes()[i]) == Map::<u32, TreeStateView>::empty() by {
                assert(r.scopes()[i] =~= Map::<u32, TreeStateView>::empty());
            }
        }
        r
    }

    /// Whether node `node` of tree `tree` is unlocked for scope `id` (false when `id`
    /// is out of range).
    pub fn is_unlocked(&self, id: Id, tree: TreeId, node: NodeId) -> (r: bool)
        ensures
            r == unlocked_at(self.scopes(), id.spec_raw() - 1, tree.spec_raw(), node.spec_raw()),
    {
        let i = id.index();
        if i < self.per_scope.len() {
            is_unlocked_in(&self.per_scope[i], tree.raw(), node.raw())
        } else {
            false
        }
    }

    /// Unlock node `node` of tree `tree` for scope `id`, dropping its accumulated
    /// progress (nothing happens when `id` is out of range).
    pub fn unlock(&mut self, id: Id, tree: TreeId, node: NodeId)
        ensures
            0 <= id.spec_raw() - 1 < old(self).scopes().len() ==> final(self).scopes() == old(self).scopes().update(
                id.spec_raw() - 1, after_unlock(old(self).scopes()[id.spec_raw() - 1], tree.spec_raw(), node.spec_raw())),
            !(0 <= id.spec_raw() - 1 < old(self).scopes().len()) ==> final(self).scopes() == old(self).scopes(),
    {
        let i = id.index();
        if i < self.per_scope.len() {
            unlock_in(&mut self.per_scope[i], tree.raw(), node.raw());
            proof {
                assert(self.scopes() =~= old(self).scopes().update(i as int,
                    after_unlock(old(self).scopes()[i as int], tree.spec_raw(), node.spec_raw())));
            }
        }
    }

    /// The progress accumulated toward node `node` of tree `tree` for scope `id` (an
    /// `f64` bit pattern; 0 when none is recorded or `id` is out of range).
    pub fn progress_bits(&self, id: Id, tree: TreeId, node: NodeId) -> (r: u64)
        ensures
            r == (if 0 <= id.spec_raw() - 1 < self.scopes().len() {
                progress_in(self.scopes()[id.spec_raw() - 1], tree.spec_raw(), node.spec_raw())
            } else {
                0
            }),
    {
        let i = id.index();
        if i < self.per_scope.len() { progress_of_in(&self.per_scope[i], tree.raw(), node.raw()) } else { 0 }
    }

    /// Sets the progress toward node `node` of tree `tree` for scope `id` (nothing
    /// happens when `id` is out of range).
    pub fn set_progress_bits(&mut self, id: Id, tree: TreeId, node: NodeId, bits: u64)
        ensures
            0 <= id.spec_raw() - 1 < old(self).scopes().len() ==> final(self).scopes() == old(self).scopes().update(
                id.spec_raw() - 1, after_set_progress(old(self).scopes()[id.spec_raw() - 1], tree.spec_raw(), node.spec_raw(), bits)),
            !(0 <= id.spec_raw() - 1 < old(self).scopes().len()) ==> final(self).scopes() == old(self).scopes(),
    {
        let i = id.index();
        if i < self.per_scope.len() {
            set_progress_in(&mut self.per_scope[i], tree.raw(), node.raw(), bits);
            proof {
                assert(self.scopes() =~= old(self).scopes().update(i as int,
                    after_set_progress(old(self).scopes()[i as int], tree.spec_raw(), node.spec_raw(), bits)));
            }
        }
    }
}

/// Progress of nations.
pub type NationProgress = ScopedProgress<NationId>;

/// Progress of provinces.
pub type ProvinceProgress = ScopedProgress<ProvinceId>;

/// Progress of nations and of provinces in one store: nation ids use `per_nation`,
/// every other scope `per_province`.
pub struct ProgressState {
    pub per_nation: Vec<HashMap<u32, TreeProgressState>>,
    pub per_province: Vec<HashMap<u32, TreeProgressState>>,
}

impl ProgressState {
    /// Nothing unlocked for `nation_count` nations and `province_count` provinces.
    pub fn new(nation_count: usize, province_count: usize) -> (r: Self)
        ensures
            scopes_view(r.per_nation@).len() == nation_count,
            scopes_view(r.per_province@).len() == province_count,
            forall|i: int| 0 <= i < nation_count ==> (#[trigger] scopes_view(r.per_nation@)[i]) == Map::<u32, TreeStateView>::empty(),
            forall|i: int| 0 <= i < province_count ==> (#[trigger] scopes_view(r.per_province@)[i]) == Map::<u32, TreeStateView>::empty(),
    {
        let r = ProgressState { per_nation: empty_states(nation_count), per_province: empty_states(province_count) };
        proof {
            assert forall|i: int| 0 <= i < nation_count implies (#[trigger] scopes_view(r.per_nation@)[i]) == Map::<u32, TreeStateView>::empty() by {
                assert(scopes_view(r.per_nation@)[i] =~= Map::<u32, TreeStateView>::empty());
            }
            assert forall|i: int| 0 <= i < province_count implies (#[trigger] scopes_view(r.per_province@)[i]) == Map::<u32, TreeStateView>::empty() by {
                assert(scopes_view(r.per_province@)[i] =~= Map::<u32, TreeStateView>::empty());
            }
        }
        r
    }

    /// Appends an empty entry for a new province.
    pub(crate) fn push_province(&mut self)
        ensures
            scopes_view(final(self).per_province@) == scopes_view(old(self).per_province@).push(Map::empty()),
            final(self).per_nation@ == old(self).per_nation@,
    {
        self.per_province.push(HashMap::new());
        proof {
            assert(trees_state_view(Map::<u32, TreeProgressState>::empty()) =~= Map::<u32, TreeStateView>::empty());
            assert(scopes_view(self.per_province@) =~= scopes_view(old(self).per_province@).push(Map::empty()));
        }
    }

    /// The per-scope progress that ids of type `Id` use.
    pub open spec fn storage_of<Id: ScopeId>(&self) -> Seq<Map<u32, TreeStateView>> {
        if Id::spec_is_nation() { scopes_view(self.per_nation@) } else { scopes_view(self.per_province@) }
    }

    /// Whether node `node` of tree `tree` is unlocked for scope `id` (false when `id`
    /// is out of range).
    pub fn is_unlocked<Id: ScopeId>(&self, id: Id, tree: TreeId, node: NodeId) -> (r: bool)
        ensures
            r == unlocked_at(self.storage_of::<Id>(), id.spec_raw() - 1, tree.spec_raw(), node.spec_raw()),
    {
        let i = id.index();
        if Id::is_nation() {
            if i < self.per_nation.len() { is_unlocked_in(&self.per_nation[i], tree.raw(), node.raw()) } else { false }
        } else {
            if i < self.per_province.len() { is_unlocked_in(&self.per_province[i], tree.raw(), node.raw()) } else { false }
        }
    }

    /// Unlock node `node` of tree `tree` for scope `id`, dropping its accumulated
    /// progress. The scope must be in range.
    pub fn unlock<Id: ScopeId>(&mut self, id: Id, tree: TreeId, node: NodeId)
        requires
            0 <= id.spec_raw() - 1 < old(self).storage_of::<Id>().len(),
        ensures
            final(self).storage_of::<Id>() == old(self).storage_of::<Id>().update(
                id.spec_raw() - 1, after_unlock(old(self).storage_of::<Id>()[id.spec_raw() - 1], tree.spec_raw(), node.spec_raw())),
            Id::spec_is_nation() ==> final(self).per_province@ == old(self).per_province@,
            !Id::spec_is_nation() ==> final(self).per_nation@ == old(self).per_nation@,
    {
        let i = id.index();
        if Id::is_nation() {
            unlock_in(&mut self.per_nation[i], tree.raw(), node.raw());
            proof {
                assert(scopes_view(self.per_nation@) =~= scopes_view(old(self).per_nation@).update(i as int,
                    after_unlock(scopes_view(old(self).per_nation@)[i as int], tree.spec_raw(), node.spec_raw())));
            }
        } else {
            unlock_in(&mut self.per_province[i], tree.raw(), node.raw());
            proof {
                assert(scopes_view(self.per_province@) =~= scopes_view(old(self).per_province@).update(i as int,
                    after_unlock(scopes_view(old(self).per_province@)[i as int], tree.spec_raw(), node.spec_raw())));
            }
        }
    }

    /// The progress accumulated toward node `node` of tree `tree` for scope `id` (an
    /// `f64` bit pattern; 0 when none is recorded or `id` is out of range).
    pub fn progress_bits<Id: ScopeId>(&self, id: Id, tree: TreeId, node: NodeId) -> (r: u64)
        ensures
            r == (if 0 <= id.spec_raw() - 1 < self.storage_of::<Id>().len() {
                progress_in(self.storage_of::<Id>()[id.spec_raw() - 1], tree.spec_raw(), node.spec_raw())
            } else {
                0
            }),
    {
        let i = id.index();
        if Id::is_nation() {
            if i < self.per_nation.len() { progress_of_in(&self.per_nation[i], tree.raw(), node.raw()) } else { 0 }
        } else {
            if i < self.per_province.len() { progress_of_in(&self.per_province[i], tree.raw(), node.raw()) } else { 0 }
        }
    }

    /// Sets the progress toward node `node` of tree `tree` for scope `id`. The scope
    /// must be in range.
    pub fn set_progress_bits<Id: ScopeId>(&mut self, id: Id, tree: TreeId, node: NodeId, bits: u64)
        requires
            0 <= id.spec_raw() - 1 < old(self).storage_of::<Id>().len(),
        ensures
            final(self).storage_of::<Id>() == old(self).storage_of::<Id>().update(
                id.spec_raw() - 1, after_set_progress(old(self).storage_of::<Id>()[id.spec_raw() - 1], tree.spec_raw(), node.spec_raw(), bits)),
            Id::spec_is_nation() ==> final(self).per_province@ == old(self).per_province@,
            !Id::spec_is_nation() ==> final(self).per_nation@ == old(self).per_nation@,
    {
        let i = id.index();
        if Id::is_nation() {
            set_progress_in(&mut self.per_nation[i], tree.raw(), node.raw(), bits);
            proof {
                assert(scopes_view(self.per_nation@) =~= scopes_view(old(self).per_nation@).update(i as int,
                    after_set_progress(scopes_view(old(self).per_nation@)[i as int], tree.spec_raw(), node.spec_raw(), bits)));
            }
        } else {
            set_progress_in(&mut self.per_province[i], tree.raw(), node.raw(), bits);
            proof {
                assert(scopes_view(self.per_province@) =~= scopes_view(old(self).per_province@).update(i as int,
                    after_set_progress(scopes_view(old(self).per_province@)[i as int], tree.spec_raw(), node.spec_raw(), bits)));
            }
        }
    }

    /// Whether the scope `id` is in range of its store.
    pub fn has_scope<Id: ScopeId>(&self, id: Id) -> (r: bool)
        ensures
            r == (0 <= id.spec_raw() - 1 < self.storage_of::<Id>().len()),
    {
        let i = id.index();
        if Id::is_nation() { i < self.per_nation.len() } else { i < self.per_province.len() }
    }

    pub fn is_unlocked_nation(&self, nation: NationId, tree: TreeId, node: NodeId) -> (r: bool)
        ensures
            r == unlocked_at(scopes_view(self.per_nation@), nation.spec_raw() - 1, tree.spec_raw(), node.spec_raw()),
    {
        self.is_unlocked::<NationId>(nation, tree, node)
    }

    pub fn unlock_nation(&mut self, nation: NationId, tree: TreeId, node: NodeId)
        requires
            0 <= nation.spec_raw() - 1 < old(self).per_nation@.len(),
        ensures
            scopes_view(final(self).per_nation@) == scopes_view(old(self).per_nation@).update(nation.spec_raw() - 1,
                after_unlock(scopes_view(old(self).per_nation@)[nation.spec_raw() - 1], tree.spec_raw(), node.spec_raw())),
            final(self).per_province@ == old(self).per_province@,
    {
        self.unlock::<NationId>(nation, tree, node);
    }

    pub fn is_unlocked_province(&self, province: ProvinceId, tree: TreeId, node: NodeId) -> (r: bool)
        ensures
            r == unlocked_at(scopes_view(self.per_province@), province.spec_raw() - 1, tree.spec_raw(), node.spec_raw()),
    {
        self.is_unlocked::<ProvinceId>(province, tree, node)
    }

    pub fn unlock_province(&mut self, province: ProvinceId, tree: TreeId, node: NodeId)
        requires
            0 <= province.spec_raw() - 1 < old(self).per_province@.len(),
        ensures
            scopes_view(final(self).per_province@) == scopes_view(old(self).per_province@).update(province.spec_raw() - 1,
                after_unlock(scopes_view(old(self).per_province@)[province.spec_raw() - 1], tree.spec_raw(), node.spec_raw())),
            final(self).per_nation@ == old(self).per_nation@,
    {
        self.unlock::<ProvinceId>(province, tree, node);
    }
}

/// After `unlock(tree, node)` the node is unlocked, and whether any other node is
/// unlocked does not change.
pub proof fn law_unlock_unlocks(m: Map<u32, TreeStateView>, tree: u32, node: u32, tree2: u32, node2: u32)
    ensures
        unlocked_in(after_unlock(m, tree, node), tree, node),
        !(tree2 == tree && node2 == node) ==> unlocked_in(after_unlock(m, tree, node), tree2, node2) == unlocked_in(m, tree2, node2),
        !after_unlock(m, tree, node)[tree].progress.contains_key(node),
{
}

proof fn lemma_nodes_index_keys(t: u32, ns: Seq<NodeView>, k: u64)
    requires
        index_of_nodes(t, ns).contains_key(k),
    ensures
        exists|x: u32| k == scoped_key(t, x),
    decreases ns.len(),
{
    if ns.len() > 0 {
        if k != scoped_key(t, ns.last().id.spec_raw()) {
            lemma_nodes_index_keys(t, ns.drop_last(), k);
        }
    }
}

proof fn lemma_trees_index_lookup(ts: Seq<TreeView>, p: int, n: u32)
    requires
        0 <= p < ts.len(),
        index_of_nodes(ts[p].id.spec_raw(), ts[p].nodes).contains_key(scoped_key(ts[p].id.spec_raw(), n)),
        forall|q: int| p < q < ts.len() ==> (#[trigger] ts[q]).id.spec_raw() != ts[p].id.spec_raw(),
    ensures
        index_of_trees(ts).contains_key(scoped_key(ts[p].id.spec_raw(), n)),
        index_of_trees(ts)[scoped_key(ts[p].id.spec_raw(), n)]
            == index_of_nodes(ts[p].id.spec_raw(), ts[p].nodes)[scoped_key(ts[p].id.spec_raw(), n)],
    decreases ts.len(),
{
    let k = scoped_key(ts[p].id.spec_raw(), n);
    if p < ts.len() - 1 {
        let last = ts.last();
        assert(last == ts[ts.len() - 1]);
        if index_of_nodes(last.id.spec_raw(), last.nodes).contains_key(k) {
            lemma_nodes_index_keys(last.id.spec_raw(), last.nodes, k);
            let x = choose|x: u32| k == scoped_key(last.id.spec_raw(), x);
            lemma_scoped_key_injective(ts[p].id.spec_raw(), n, last.id.spec_raw(), x);
        }
        let init = ts.drop_last();
        assert forall|q: int| p < q < init.len() implies (#[trigger] init[q]).id.spec_raw() != init[p].id.spec_raw() by {
            assert(init[q] == ts[q]);
        }
        lemma_trees_index_lookup(init, p, n);
    }
}

/// On a well-formed registry, a node added to an existing tree is what `get_node` then
/// finds for that tree and the new id.
pub proof fn law_added_node_found(a: ProgressTrees, b: ProgressTrees, tree: TreeId, nv: NodeView)
    requires
        a.well_formed(),
        tree_pos(a.trees_view(), tree) is Some,
        a.trees_view()[tree_pos(a.trees_view(), tree)->0].nodes.len() < usize::MAX,
        nv.id.spec_raw() == at_least_one(a.next_node()),
        b.index().is_empty(),
        b.trees_view() == a.trees_view().update(tree_pos(a.trees_view(), tree)->0, TreeView {
            nodes: a.trees_view()[tree_pos(a.trees_view(), tree)->0].nodes.push(nv),
            ..a.trees_view()[tree_pos(a.trees_view(), tree)->0]
        }),
    ensures
        ({
            let p = tree_pos(b.trees_view(), tree)->0;
            let k = scoped_key(tree.spec_raw(), nv.id.spec_raw());
            let ix = b.ensured_index();
            &&& tree_pos(b.trees_view(), tree) == tree_pos(a.trees_view(), tree)
            &&& ix.contains_key(k)
            &&& (ix[k] as int) < b.trees_view()[p].nodes.len()
            &&& b.trees_view()[p].nodes[ix[k] as int] == nv
        }),
{
    let ta = a.trees_view();
    let tb = b.trees_view();
    lemma_tree_pos(ta, tree);
    let p = tree_pos(ta, tree)->0;
    assert forall|j: int| 0 <= j < tb.len() implies #[trigger] tb[j].id == ta[j].id by {}
    assert(tree_pos(tb, tree) == tree_pos(ta, tree)) by {
        lemma_tree_pos(tb, tree);
        match tree_pos(tb, tree) {
            Some(q) => {
                assert(tb[q].id == tree);
                assert(q == p) by {
                    if q < p {
                        assert(ta[q].id != tree);
                    } else if q > p {
                        assert(tb[p].id == tree);
                    }
                }
            },
            None => {
                assert(tb[p].id == tree);
            },
        }
    }
    let ns = ta[p].nodes;
    let k = scoped_key(tree.spec_raw(), nv.id.spec_raw());
    assert(tb[p].nodes == ns.push(nv));
    assert(ns.push(nv).drop_last() =~= ns);
    assert(tb[p].id == tree);
    assert(index_of_nodes(tree.spec_raw(), ns.push(nv)) == index_of_nodes(tree.spec_raw(), ns).insert(k, ns.len() as usize));
    assert(index_of_nodes(tree.spec_raw(), tb[p].nodes)[k] == ns.len());
    assert forall|q: int| p < q < tb.len() implies (#[trigger] tb[q]).id.spec_raw() != tb[p].id.spec_raw() by {
        assert(ta[p].id != ta[q].id);
        TreeId::lemma_raw_injective(ta[p].id, ta[q].id);
    }
    lemma_trees_index_lookup(tb, p, nv.id.spec_raw());
}

/// Adding a node keeps the registry well-formed (while node ids are not used up).
pub proof fn law_add_node_well_formed(a: ProgressTrees, b: ProgressTrees, tree: TreeId, nv: NodeView)
    requires
        a.well_formed(),
        a.next_node() < u32::MAX,
        nv.id.spec_raw() == at_least_one(a.next_node()),
        b.next_node() == next_raw_after(nv.id.spec_raw()),
        b.next_tree() == a.next_tree(),
        match tree_pos(a.trees_view(), tree) {
            Some(p) => b.trees_view() == a.trees_view().update(p, TreeView {
                nodes: a.trees_view()[p].nodes.push(nv),
                ..a.trees_view()[p]
            }),
            None => b.trees_view() == a.trees_view(),
        },
    ensures
        b.well_formed(),
{
    let ta = a.trees_view();
    let tb = b.trees_view();
    match tree_pos(ta, tree) {
        Some(p) => {
            lemma_tree_pos(ta, tree);
            let tp = TreeView { nodes: ta[p].nodes.push(nv), ..ta[p] };
            assert(tb == ta.update(p, tp));
            assert forall|i: int| 0 <= i < tb.len() implies #[trigger] tb[i].id == ta[i].id by {
                if i == p {
                    assert(tb[i] == tp);
                }
            }
            assert forall|i: int, j: int| 0 <= i < tb.len() && 0 <= j < tb[i].nodes.len() implies (#[trigger] tb[i].nodes[j]).id.spec_raw() < b.next_node() by {
                if i != p {
                    assert(tb[i] == ta[i]);
                } else if j < ta[i].nodes.len() {
                    assert(tb[i] == tp);
                    assert(tb[i].nodes[j] == ta[i].nodes[j]);
                } else {
                    assert(tb[i] == tp);
                }
            }
            assert forall|i: int, j: int, k: int| 0 <= i < tb.len() && 0 <= j < k < tb[i].nodes.len() implies tb[i].nodes[j].id != tb[i].nodes[k].id by {
                if i != p {
                    assert(tb[i] == ta[i]);
                } else {
                    assert(tb[i] == tp);
                    assert(tb[i].nodes[j] == ta[i].nodes[j]);
                    if k < ta[i].nodes.len() {
                        assert(tb[i].nodes[k] == ta[i].nodes[k]);
                    } else {
                        assert(ta[i].nodes[j].id.spec_raw() < a.next_node());
                    }
                }
            }
        },
        None => {},
    }
}


/// Setting the progress toward a node reads back as set, and leaves the progress toward
/// every other node, and every unlock, as it was.
pub proof fn law_progress_set_get(m: Map<u32, TreeStateView>, tree: u32, node: u32, bits: u64, tree2: u32, node2: u32)
    ensures
        progress_in(after_set_progress(m, tree, node, bits), tree, node) == bits,
        (tree2 != tree || node2 != node) ==> progress_in(after_set_progress(m, tree, node, bits), tree2, node2)
            == progress_in(m, tree2, node2),
        unlocked_in(after_set_progress(m, tree, node, bits), tree2, node2) == unlocked_in(m, tree2, node2),
{
}

} // verus!
