use teleology_core::progress_trees::{NationProgress, NodeId, ProgressState, ProgressTrees, ScopedProgress, TreeId};
use teleology_core::world::{NationId, ProvinceId, ScopeId};

#[test]
fn progress_trees_add_tree() {
    let mut trees = ProgressTrees::new();
    let tid = trees.add_tree("Technology");
    assert_eq!(tid.raw(), 1);
    assert_eq!(trees.trees.len(), 1);
    assert_eq!(trees.trees[0].name, "Technology");
}

#[test]
fn progress_trees_add_node() {
    let mut trees = ProgressTrees::new();
    let tid = trees.add_tree("Tech");
    let nid = trees.add_node(tid, "Agriculture", 100.0f64.to_bits(), vec![], vec![]);
    assert_eq!(nid.raw(), 1);
    assert_eq!(trees.trees[0].nodes.len(), 1);
    assert_eq!(f64::from_bits(trees.trees[0].nodes[0].cost_bits), 100.0);
}

#[test]
fn progress_trees_node_prerequisites() {
    let mut trees = ProgressTrees::new();
    let tid = trees.add_tree("Tech");
    let n1 = trees.add_node(tid, "Farming", 50.0f64.to_bits(), vec![], vec![]);
    let n2 = trees.add_node(tid, "Irrigation", 100.0f64.to_bits(), vec![n1], vec![]);
    let node = trees.get_node(tid, n2).unwrap();
    assert_eq!(node.prerequisites, vec![n1]);
}

#[test]
fn progress_trees_get_node() {
    let mut trees = ProgressTrees::new();
    let tid = trees.add_tree("Tech");
    let nid = trees.add_node(tid, "Mining", 75.0f64.to_bits(), vec![], vec![1, 2, 3]);
    let node = trees.get_node(tid, nid).unwrap();
    assert_eq!(node.name, "Mining");
    assert_eq!(node.effects_payload, vec![1, 2, 3]);
}

#[test]
fn progress_trees_remove_node_and_tree() {
    let mut trees = ProgressTrees::new();
    let tid = trees.add_tree("Tech");
    let n1 = trees.add_node(tid, "A", 0, vec![], vec![]);
    let n2 = trees.add_node(tid, "B", 0, vec![n1], vec![]);
    trees.remove_node(tid, n1);
    assert!(trees.get_node(tid, n1).is_none());
    let b = trees.get_node(tid, n2).unwrap();
    assert!(b.prerequisites.is_empty());
    trees.remove_tree(tid);
    assert!(trees.trees.is_empty());
    assert!(trees.get_node(tid, n2).is_none());
}

#[test]
fn progress_trees_node_for_missing_tree_uses_up_id() {
    let mut trees = ProgressTrees::new();
    let n = trees.add_node(TreeId::from_raw(5), "Lost", 0, vec![], vec![]);
    assert_eq!(n.raw(), 1);
    assert!(trees.trees.is_empty());
    assert_eq!(trees.next_node_raw, 2);
}

#[test]
fn progress_trees_rebuild_raises_next_ids() {
    let mut trees = ProgressTrees::new();
    let t = trees.add_tree("T");
    trees.add_node(t, "N", 0, vec![], vec![]);
    trees.next_tree_raw = 0;
    trees.next_node_raw = 0;
    trees.rebuild_index();
    assert_eq!(trees.next_tree_raw, 2);
    assert_eq!(trees.next_node_raw, 2);
}

#[test]
fn scoped_progress_unlock() {
    let mut sp = ScopedProgress::<NationId>::new(3);
    let nid = NationId::from_raw(1);
    let tid = TreeId::from_raw(1);
    let node = NodeId::from_raw(1);
    assert!(!sp.is_unlocked(nid, tid, node));
    sp.unlock(nid, tid, node);
    assert!(sp.is_unlocked(nid, tid, node));
}

#[test]
fn scoped_progress_unlock_clears_progress() {
    let mut sp = ScopedProgress::<NationId>::new(3);
    let nid = NationId::from_raw(1);
    let tid = TreeId::from_raw(1);
    let node = NodeId::from_raw(1);
    sp.per_scope[nid.index()].insert(tid.raw(), Default::default());
    sp.per_scope[nid.index()].get_mut(&tid.raw()).unwrap().progress.insert(node.raw(), 50.0f64.to_bits());
    sp.unlock(nid, tid, node);
    let state = &sp.per_scope[nid.index()][&tid.raw()];
    assert!(state.progress.get(&node.raw()).is_none());
    assert!(state.unlocked.contains(&node.raw()));
}

#[test]
fn scoped_progress_out_of_range_is_ignored() {
    let mut sp = ScopedProgress::<ProvinceId>::new(1);
    sp.unlock(ProvinceId::from_raw(4), TreeId::from_raw(1), NodeId::from_raw(1));
    assert!(!sp.is_unlocked(ProvinceId::from_raw(4), TreeId::from_raw(1), NodeId::from_raw(1)));
    assert!(sp.per_scope[0].is_empty());
}

#[test]
fn progress_state_nation_and_province() {
    let mut ps = ProgressState::new(3, 5);
    let nid = NationId::from_raw(1);
    let pid = ProvinceId::from_raw(2);
    let tid = TreeId::from_raw(1);
    let node = NodeId::from_raw(1);
    ps.unlock_nation(nid, tid, node);
    assert!(ps.is_unlocked_nation(nid, tid, node));
    assert!(!ps.is_unlocked_province(pid, tid, node));
    ps.unlock_province(pid, tid, node);
    assert!(ps.is_unlocked_province(pid, tid, node));
}

#[test]
fn progress_state_generic_api() {
    let mut ps = ProgressState::new(3, 5);
    let nid = NationId::from_raw(1);
    let tid = TreeId::from_raw(1);
    let node = NodeId::from_raw(1);
    ps.unlock::<NationId>(nid, tid, node);
    assert!(ps.is_unlocked::<NationId>(nid, tid, node));
    assert!(!ps.is_unlocked::<ProvinceId>(ProvinceId::from_raw(1), tid, node));
}

#[test]
fn progress_bits_read_back_as_set() {
    let tree = TreeId::from_raw(1);
    let node = NodeId::from_raw(2);
    let mut p = NationProgress::new(2);
    let n1 = NationId::from_raw(1);
    assert_eq!(p.progress_bits(n1, tree, node), 0);
    p.set_progress_bits(n1, tree, node, 2.5f64.to_bits());
    assert_eq!(f64::from_bits(p.progress_bits(n1, tree, node)), 2.5);
    assert_eq!(p.progress_bits(NationId::from_raw(2), tree, node), 0);
    p.set_progress_bits(NationId::from_raw(9), tree, node, 1);
    assert_eq!(p.progress_bits(NationId::from_raw(9), tree, node), 0);
    p.unlock(n1, tree, node);
    assert_eq!(p.progress_bits(n1, tree, node), 0);
    let mut s = ProgressState::new(1, 1);
    let prov = ProvinceId::from_raw(1);
    assert!(s.has_scope(prov));
    assert!(!s.has_scope(ProvinceId::from_raw(2)));
    s.set_progress_bits(prov, tree, node, 7);
    assert_eq!(s.progress_bits(prov, tree, node), 7);
    assert_eq!(s.progress_bits(NationId::from_raw(1), tree, node), 0);
}
