use ash::desc::DescriptionStore;
use ash::forest::SnapshotForest;
use ash::ops::{
    clone_as_tree, clone_branch, clone_recursive, clone_under, delete_node, extend_branch,
    immutability_disable, immutability_enable, tree_print,
};
use ash::store::SubvolumeStore;
use ash::Error;

fn flat_nodes(f: &SnapshotForest) -> Vec<(u64, u64)> {
    f.node_list().iter().map(|n| (n.id, n.depth)).collect()
}

fn setup(ids: &[u64]) -> (SnapshotForest, SubvolumeStore, DescriptionStore) {
    let store = SubvolumeStore::from_parts(
        ids.to_vec(),
        ids.to_vec(),
        ids.to_vec(),
        Vec::new(),
        Vec::new(),
    )
    .unwrap();
    let forest = SnapshotForest::new();
    (forest, store, DescriptionStore::new())
}

#[test]
fn branching_allocates_the_next_id_and_attaches_below() {
    // forest {1: {2: {}, 3: {}}}; branching 2 with text "x" yields id 4,
    // forest {1: {2: {4: {}}, 3: {}}}, and a description holding "x"
    let (mut f, mut s, mut d) = setup(&[1, 2, 3]);
    f.append_base_tree(1).unwrap();
    f.add_node_to_parent(1, 2).unwrap();
    f.add_node_to_parent(1, 3).unwrap();
    let got = extend_branch(&mut f, &mut s, &mut d, 2, &b"x".to_vec()).unwrap();
    assert_eq!(got, 4);
    assert_eq!(flat_nodes(&f), vec![(1, 0), (2, 1), (4, 2), (3, 1)]);
    assert_eq!(f.save(), b"{1: {2: {4: {}}, 3: {}}}".to_vec());
    assert_eq!(d.read_desc(4).map(|t| t.clone()), Some(b"x".to_vec()));
    assert!(s.triad_exists(4));
}

#[test]
fn branching_without_text_writes_the_default_description() {
    let (mut f, mut s, mut d) = setup(&[1]);
    f.append_base_tree(1).unwrap();
    let got = extend_branch(&mut f, &mut s, &mut d, 1, &Vec::new()).unwrap();
    assert_eq!(got, 2);
    assert_eq!(d.read_desc(2).map(|t| t.clone()), Some(b"clone of 1".to_vec()));
}

#[test]
fn clone_as_tree_adds_a_new_root_with_default_description() {
    let (mut f, mut s, mut d) = setup(&[1, 2]);
    f.append_base_tree(1).unwrap();
    f.add_node_to_parent(1, 2).unwrap();
    let got = clone_as_tree(&mut f, &mut s, &mut d, 2, &Vec::new()).unwrap();
    assert_eq!(got, 3);
    assert_eq!(flat_nodes(&f), vec![(1, 0), (2, 1), (3, 0)]);
    assert_eq!(d.read_desc(3).map(|t| t.clone()), Some(b"clone of 2".to_vec()));
    assert_eq!(
        clone_as_tree(&mut f, &mut s, &mut d, 9, &Vec::new()),
        Err(Error::NotFound { id: 9 })
    );
}

#[test]
fn clone_branch_attaches_beside_the_source() {
    let (mut f, mut s, mut d) = setup(&[1, 2]);
    f.append_base_tree(1).unwrap();
    f.add_node_to_parent(1, 2).unwrap();
    let got = clone_branch(&mut f, &mut s, &mut d, 2).unwrap();
    assert_eq!(got, 3);
    assert_eq!(flat_nodes(&f), vec![(1, 0), (2, 1), (3, 1)]);
    assert_eq!(d.read_desc(3).map(|t| t.clone()), Some(b"clone of 2".to_vec()));
}

#[test]
fn clone_under_attaches_below_the_chosen_parent() {
    let (mut f, mut s, mut d) = setup(&[1, 2, 3]);
    f.append_base_tree(1).unwrap();
    f.add_node_to_parent(1, 2).unwrap();
    f.add_node_to_parent(1, 3).unwrap();
    let got = clone_under(&mut f, &mut s, &mut d, 3, 2).unwrap();
    assert_eq!(got, 4);
    assert_eq!(flat_nodes(&f), vec![(1, 0), (2, 1), (3, 1), (4, 2)]);
    assert_eq!(d.read_desc(4).map(|t| t.clone()), Some(b"clone of 2".to_vec()));
}

#[test]
fn recursive_clone_is_isomorphic_with_fresh_ids() {
    let (mut f, mut s, mut d) = setup(&[1, 2, 3, 4]);
    f.append_base_tree(1).unwrap();
    f.add_node_to_parent(1, 2).unwrap();
    f.add_node_to_parent(2, 4).unwrap();
    f.add_node_to_parent(1, 3).unwrap();
    let map = clone_recursive(&mut f, &mut s, &mut d, 1).unwrap();
    assert_eq!(map.iter().map(|p| p.0).collect::<Vec<u64>>(), vec![1, 2, 4, 3]);
    let new_ids: Vec<u64> = map.iter().map(|p| p.1).collect();
    assert_eq!(new_ids, vec![5, 6, 7, 8]);
    // same shape at the same relative depths, as a fresh root
    assert_eq!(
        flat_nodes(&f),
        vec![
            (1, 0),
            (2, 1),
            (4, 2),
            (3, 1),
            (5, 0),
            (6, 1),
            (7, 2),
            (8, 1),
        ]
    );
    for (src, dst) in map.iter() {
        assert!(s.triad_exists(*dst));
        assert_eq!(s.content_token(*dst), s.content_token(*src));
        let want = format!("clone of {}", src).into_bytes();
        assert_eq!(d.read_desc(*dst).map(|t| t.clone()), Some(want));
    }
}

#[test]
fn deleting_the_base_or_the_deployment_is_refused() {
    let (mut f, mut s, _) = setup(&[0, 1, 2]);
    f.append_base_tree(0).unwrap();
    f.add_node_to_parent(0, 1).unwrap();
    f.add_node_to_parent(0, 2).unwrap();
    let before = flat_nodes(&f);
    assert_eq!(
        delete_node(&mut f, &mut s, 0, false, 1).map(|_| ()),
        Err(Error::Unsupported { id: 0 })
    );
    assert_eq!(
        delete_node(&mut f, &mut s, 1, false, 1).map(|_| ()),
        Err(Error::Conflict { id: 1 })
    );
    // nothing moved: same forest, same triads
    assert_eq!(flat_nodes(&f), before);
    assert!(s.triad_exists(0) && s.triad_exists(1) && s.triad_exists(2));
}

#[test]
fn delete_removes_the_subtree_and_its_triads() {
    let (mut f, mut s, _) = setup(&[0, 1, 2, 3]);
    f.append_base_tree(0).unwrap();
    f.add_node_to_parent(0, 1).unwrap();
    f.add_node_to_parent(1, 3).unwrap();
    f.add_node_to_parent(0, 2).unwrap();
    let removed = delete_node(&mut f, &mut s, 1, false, 2).unwrap();
    assert_eq!(removed, vec![1, 3]);
    assert_eq!(flat_nodes(&f), vec![(0, 0), (2, 1)]);
    assert!(!s.triad_exists(1));
    assert!(!s.triad_exists(3));
    assert!(s.triad_exists(0) && s.triad_exists(2));
    assert_eq!(
        delete_node(&mut f, &mut s, 9, false, 2).map(|_| ()),
        Err(Error::NotFound { id: 9 })
    );
    // force overrides the protection of the deployment
    let removed = delete_node(&mut f, &mut s, 2, true, 2).unwrap();
    assert_eq!(removed, vec![2]);
}

#[test]
fn immutability_toggles_marker_and_description_tag() {
    let (_, mut s, mut d) = setup(&[0, 1]);
    d.write_desc(1, &b"a note".to_vec(), false);
    immutability_disable(&mut s, &mut d, 1).unwrap();
    assert!(s.check_mutability(1));
    assert_eq!(
        d.read_desc(1).map(|t| t.clone()),
        Some(b"a note MUTABLE".to_vec())
    );
    immutability_enable(&mut s, &mut d, 1).unwrap();
    assert!(!s.check_mutability(1));
    // exactly the literal tag goes; the rest of the text stays
    assert_eq!(d.read_desc(1).map(|t| t.clone()), Some(b"a note ".to_vec()));
    // the base snapshot is never made mutable
    assert_eq!(
        immutability_disable(&mut s, &mut d, 0),
        Err(Error::Unsupported { id: 0 })
    );
    assert_eq!(
        immutability_enable(&mut s, &mut d, 9),
        Err(Error::NotFound { id: 9 })
    );
}

#[test]
fn tree_rendering_indents_by_depth_and_shows_descriptions() {
    let (mut f, _, mut d) = setup(&[1, 2]);
    f.append_base_tree(1).unwrap();
    f.add_node_to_parent(1, 2).unwrap();
    d.write_desc(2, &b"work".to_vec(), false);
    let lines = tree_print(&f, &d);
    assert_eq!(lines.len(), 2);
    assert_eq!(lines[0], b"1 - ".to_vec());
    assert_eq!(lines[1], b"  2 - work".to_vec());
}
