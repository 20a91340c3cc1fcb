use ash::forest::{SnapshotForest, SnapshotNode};
use ash::Error;

fn nodes(f: &SnapshotForest) -> Vec<(u64, u64)> {
    f.node_list().iter().map(|n| (n.id, n.depth)).collect()
}

#[test]
fn build_and_inspect_small_forest() {
    let mut f = SnapshotForest::new();
    f.append_base_tree(1).unwrap();
    f.add_node_to_parent(1, 2).unwrap();
    f.add_node_to_parent(1, 3).unwrap();
    assert_eq!(nodes(&f), vec![(1, 0), (2, 1), (3, 1)]);
    assert_eq!(f.get_parent(1), Ok(None));
    assert_eq!(f.get_parent(2), Ok(Some(1)));
    assert_eq!(f.get_parent(3), Ok(Some(1)));
    assert_eq!(f.get_parent(9), Err(Error::NotFound { id: 9 }));
    assert_eq!(f.children_of(1), Ok(vec![1, 2, 3]));
    assert_eq!(f.return_children(1), Ok(vec![2, 3]));
    assert_eq!(f.children_of(2), Ok(vec![2]));
    assert!(f.contains(2));
    assert!(!f.contains(4));
}

#[test]
fn sibling_insertion_keeps_preorder() {
    let mut f = SnapshotForest::new();
    f.append_base_tree(1).unwrap();
    f.add_node_to_parent(1, 2).unwrap();
    // a sibling of 2 becomes the last child of 1
    f.add_node_to_level(2, 5).unwrap();
    assert_eq!(nodes(&f), vec![(1, 0), (2, 1), (5, 1)]);
    // a sibling of a root becomes a new root at the end
    f.add_node_to_level(1, 7).unwrap();
    assert_eq!(nodes(&f), vec![(1, 0), (2, 1), (5, 1), (7, 0)]);
}

#[test]
fn duplicate_and_missing_ids_are_refused() {
    let mut f = SnapshotForest::new();
    f.append_base_tree(1).unwrap();
    assert_eq!(f.append_base_tree(1), Err(Error::Conflict { id: 1 }));
    assert_eq!(f.add_node_to_parent(9, 2), Err(Error::NotFound { id: 9 }));
    assert_eq!(f.add_node_to_parent(1, 1), Err(Error::Conflict { id: 1 }));
    assert_eq!(f.add_node_to_level(9, 2), Err(Error::NotFound { id: 9 }));
    assert_eq!(f.remove_subtree(9), Err(Error::NotFound { id: 9 }));
    assert_eq!(nodes(&f), vec![(1, 0)]);
}

#[test]
fn remove_subtree_takes_descendants() {
    let mut f = SnapshotForest::new();
    f.append_base_tree(1).unwrap();
    f.add_node_to_parent(1, 2).unwrap();
    f.add_node_to_parent(2, 4).unwrap();
    f.add_node_to_parent(1, 3).unwrap();
    assert_eq!(nodes(&f), vec![(1, 0), (2, 1), (4, 2), (3, 1)]);
    let removed = f.remove_subtree(2).unwrap();
    assert_eq!(removed, vec![2, 4]);
    assert_eq!(nodes(&f), vec![(1, 0), (3, 1)]);
}

#[test]
fn save_prints_the_nested_form() {
    let mut f = SnapshotForest::new();
    f.append_base_tree(1).unwrap();
    f.add_node_to_parent(1, 2).unwrap();
    f.add_node_to_parent(1, 3).unwrap();
    assert_eq!(f.save(), b"{1: {2: {}, 3: {}}}".to_vec());

    let empty = SnapshotForest::new();
    assert_eq!(empty.save(), b"{}".to_vec());

    let mut deep = SnapshotForest::new();
    deep.append_base_tree(1).unwrap();
    deep.add_node_to_parent(1, 2).unwrap();
    deep.add_node_to_parent(2, 4).unwrap();
    deep.add_node_to_parent(1, 3).unwrap();
    assert_eq!(deep.save(), b"{1: {2: {4: {}}, 3: {}}}".to_vec());
}

#[test]
fn load_reads_the_nested_form() {
    let f = SnapshotForest::load(&b"{1: {2: {}, 3: {}}}".to_vec()).unwrap();
    assert_eq!(nodes(&f), vec![(1, 0), (2, 1), (3, 1)]);
    let empty = SnapshotForest::load(&b"{}".to_vec()).unwrap();
    assert_eq!(nodes(&empty), vec![]);
    let two_roots = SnapshotForest::load(&b"{1: {}, 5: {2: {}}}".to_vec()).unwrap();
    assert_eq!(nodes(&two_roots), vec![(1, 0), (5, 0), (2, 1)]);
}

#[test]
fn load_refuses_malformed_text() {
    for bad in [
        &b""[..],
        b"{",
        b"{1: {",
        b"{1: {}",
        b"1: {}",
        b"{1 {}}",
        b"{1: {},}",
        b"{1: {}}x",
        b"{x: {}}",
        b"{1: {}, 1: {}}",
        b"{99999999999999999999999: {}}",
    ] {
        assert_eq!(
            SnapshotForest::load(&bad.to_vec()).map(|_| ()),
            Err(Error::Io { id: 0 }),
            "input should be refused: {:?}",
            String::from_utf8_lossy(bad)
        );
    }
}

#[test]
fn save_then_load_round_trips() {
    let mut f = SnapshotForest::new();
    f.append_base_tree(1).unwrap();
    f.add_node_to_parent(1, 2).unwrap();
    f.add_node_to_parent(2, 4).unwrap();
    f.add_node_to_level(2, 3).unwrap();
    f.append_base_tree(10).unwrap();
    f.add_node_to_parent(10, 11).unwrap();
    let text = f.save();
    let g = SnapshotForest::load(&text).unwrap();
    assert_eq!(nodes(&f), nodes(&g));
    assert_eq!(g.save(), text);
}

#[test]
fn subtree_nodes_returns_the_run() {
    let mut f = SnapshotForest::new();
    f.append_base_tree(1).unwrap();
    f.add_node_to_parent(1, 2).unwrap();
    f.add_node_to_parent(2, 4).unwrap();
    f.add_node_to_parent(1, 3).unwrap();
    let run = f.subtree_nodes(2).unwrap();
    let got: Vec<(u64, u64)> = run.iter().map(|n| (n.id, n.depth)).collect();
    assert_eq!(got, vec![(2, 1), (4, 2)]);
    assert_eq!(
        f.subtree_nodes(9).map(|v| v.len()),
        Err(Error::NotFound { id: 9 })
    );
}

#[test]
fn recurse_tree_pairs_each_descendant_with_its_parent() {
    let mut f = SnapshotForest::new();
    f.append_base_tree(1).unwrap();
    f.add_node_to_parent(1, 2).unwrap();
    f.add_node_to_parent(2, 4).unwrap();
    f.add_node_to_parent(1, 3).unwrap();
    assert_eq!(f.recurse_tree(1), Ok(vec![1, 2, 2, 4, 1, 3]));
    assert_eq!(f.recurse_tree(3), Ok(vec![]));
    assert_eq!(f.recurse_tree(9), Err(Error::NotFound { id: 9 }));
}

#[test]
fn from_nodes_validates_shape() {
    let good = vec![
        SnapshotNode { id: 1, depth: 0 },
        SnapshotNode { id: 2, depth: 1 },
    ];
    assert!(SnapshotForest::from_nodes(good).is_ok());
    let skips_level = vec![
        SnapshotNode { id: 1, depth: 0 },
        SnapshotNode { id: 2, depth: 2 },
    ];
    assert_eq!(
        SnapshotForest::from_nodes(skips_level).map(|_| ()),
        Err(Error::Io { id: 0 })
    );
    let dup = vec![
        SnapshotNode { id: 1, depth: 0 },
        SnapshotNode { id: 1, depth: 1 },
    ];
    assert_eq!(
        SnapshotForest::from_nodes(dup).map(|_| ()),
        Err(Error::Io { id: 0 })
    );
    let deep_start = vec![SnapshotNode { id: 1, depth: 1 }];
    assert_eq!(
        SnapshotForest::from_nodes(deep_start).map(|_| ()),
        Err(Error::Io { id: 0 })
    );
}
