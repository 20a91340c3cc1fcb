//! Structural tree operations: branching, cloning and deleting whole
//! snapshots, keeping the forest, the storage triads and the
//! descriptions in step.
//!
//! Every operation validates its inputs first and mutates nothing on any
//! refusal; the full new shape is then built and described exactly.

use vstd::prelude::*;
use crate::forest::{
    SnapshotForest, SnapshotNode, contains_id, idx_of, parent_of, spec_insert_under,
    spec_subtree_ids, spec_remove_subtree, subtree_end, forest_wf, depth_wf,
    lemma_idx_of_unique, lemma_subtree_end, lemma_parent_idx, parent_idx,
    last_at_depth_before,
};
use crate::store::{
    SubvolumeStore, StoreView, Subvol, subvol_of, has_subvol, seq_drop_id, seq_drop_subvol,
};
use crate::desc::{DescriptionStore, spec_write_desc, spec_strip_desc, tag_bytes};
use crate::num::{dec_digits, u64_to_dec};
use crate::Error;

verus! {

/// The forest matches storage: every node's triad is on storage.
pub open spec fn forest_in_store(f: Seq<SnapshotNode>, sv: StoreView) -> bool {
    forall|i: int| 0 <= i < f.len() ==> sv.triad_exists(#[trigger] f[i].id)
}

/// The default description of a clone: `clone of ` and the source id.
pub open spec fn spec_clone_desc(id: u64) -> Seq<u8> {
    seq![99u8, 108u8, 111u8, 110u8, 101u8, 32u8, 111u8, 102u8, 32u8] + dec_digits(id as nat)
}

fn clone_desc_vec(id: u64) -> (r: Vec<u8>)
    ensures
        r@ == spec_clone_desc(id),
{
    let mut v: Vec<u8> = Vec::new();
    v.push(99);
    v.push(108);
    v.push(111);
    v.push(110);
    v.push(101);
    v.push(32);
    v.push(111);
    v.push(102);
    v.push(32);
    let mut digits = u64_to_dec(id);
    v.append(&mut digits);
    proof {
        assert(v@ =~= spec_clone_desc(id));
    }
    v
}

/// The store after one copy-on-write duplicate of `src` as `dst`.
pub open spec fn spec_duplicate(sv: StoreView, src: u64, dst: u64) -> StoreView {
    StoreView {
        boot: sv.boot.push(dst),
        etc: sv.etc.push(dst),
        rootfs: sv.rootfs.push(Subvol {
            id: dst,
            tok: subvol_of(sv.rootfs, src).tok,
            flagged: subvol_of(sv.rootfs, src).flagged,
        }),
        chr: sv.chr,
    }
}

/// Duplicating a fresh id keeps every present triad present.
proof fn lemma_duplicate_keeps(sv: StoreView, src: u64, dst: u64)
    requires
        sv.wf(),
    ensures
        forall|y: u64|
            #[trigger] sv.triad_exists(y) ==> spec_duplicate(sv, src, dst).triad_exists(y),
        spec_duplicate(sv, src, dst).triad_exists(dst) || !sv.triad_exists(src),
{
    let nv = spec_duplicate(sv, src, dst);
    assert forall|y: u64| #[trigger] sv.triad_exists(y) implies nv.triad_exists(y) by {
        let j = choose|j: int| 0 <= j < sv.boot.len() && sv.boot[j] == y;
        assert(nv.boot[j] == y);
        let j2 = choose|j2: int| 0 <= j2 < sv.etc.len() && sv.etc[j2] == y;
        assert(nv.etc[j2] == y);
        let j3 = choose|j3: int| 0 <= j3 < sv.rootfs.len() && (#[trigger] sv.rootfs[j3].id) == y;
        assert(nv.rootfs[j3].id == y);
    }
    if sv.triad_exists(src) {
        assert(nv.boot.last() == dst);
        assert(nv.boot.contains(dst));
        assert(nv.etc.last() == dst);
        assert(nv.etc.contains(dst));
        assert(nv.rootfs.last().id == dst);
        assert(has_subvol(nv.rootfs, dst));
    }
}

/// Clones snapshot `id` as a brand-new tree: a fresh id is allocated,
/// the triad duplicated with its mutability kept, the clone attached as
/// a new root, and its description written (the given text, or the
/// default naming the source when the text is empty).
pub fn clone_as_tree(
    forest: &mut SnapshotForest,
    store: &mut SubvolumeStore,
    descs: &mut DescriptionStore,
    id: u64,
    desc: &Vec<u8>,
) -> (r: Result<u64, Error>)
    requires
        old(forest).wf(),
        old(store)@.wf(),
        old(descs).wf(),
        forest_in_store(old(forest)@, old(store)@),
        old(store)@.boot.len() + old(store)@.etc.len() + old(store)@.rootfs.len() < u64::MAX,
    ensures
        final(forest).wf(),
        final(store)@.wf(),
        final(descs).wf(),
        forest_in_store(final(forest)@, final(store)@),
        match r {
            Ok(i) => {
                &&& old(store)@.triad_exists(id)
                &&& i >= 1 && !old(store)@.id_used(i)
                &&& (forall|k: u64| 1 <= k < i ==> #[trigger] old(store)@.id_used(k))
                &&& final(store)@ == spec_duplicate(old(store)@, id, i)
                &&& final(forest)@ == spec_insert_under(old(forest)@, None, i)
                &&& final(descs)@ == spec_write_desc(
                    old(descs)@,
                    i,
                    if desc@.len() == 0 {
                        spec_clone_desc(id)
                    } else {
                        desc@
                    },
                    false,
                )
            },
            Err(e) => {
                &&& final(forest)@ == old(forest)@
                &&& final(store)@ == old(store)@
                &&& final(descs)@ == old(descs)@
                &&& e == (Error::NotFound { id })
                &&& !old(store)@.triad_exists(id)
            },
        },
{
    if !store.triad_exists(id) {
        return Err(Error::NotFound { id });
    }
    let i = store.find_new();
    let ro = !store.check_mutability(id);
    match store.duplicate(id, i, ro) {
        Ok(()) => {},
        Err(_) => {
            proof {
                assert(false);
            }
        },
    }
    match forest.append_base_tree(i) {
        Ok(()) => {},
        Err(_) => {
            proof {
                assert(old(store)@.id_used(i));
                assert(false);
            }
        },
    }
    let text = if desc.len() == 0 {
        clone_desc_vec(id)
    } else {
        crate::desc::copy_bytes(desc)
    };
    descs.write_desc(i, &text, false);
    proof {
        lemma_duplicate_keeps(old(store)@, id, i);
        assert forall|j: int| 0 <= j < forest@.len() implies
            store@.triad_exists(#[trigger] forest@[j].id) by {
            if j < old(forest)@.len() {
                assert(forest@[j] == old(forest)@[j]);
                assert(old(store)@.triad_exists(forest@[j].id));
            } else {
                assert(forest@[j].id == i);
            }
        }
    }
    Ok(i)
}

/// Clones snapshot `id` as a sibling: the clone is attached as the last
/// child of `id`'s parent (or as a new root when `id` is a root), with
/// the default description naming the source.
pub fn clone_branch(
    forest: &mut SnapshotForest,
    store: &mut SubvolumeStore,
    descs: &mut DescriptionStore,
    id: u64,
) -> (r: Result<u64, Error>)
    requires
        old(forest).wf(),
        old(store)@.wf(),
        old(descs).wf(),
        forest_in_store(old(forest)@, old(store)@),
        old(store)@.boot.len() + old(store)@.etc.len() + old(store)@.rootfs.len() < u64::MAX,
    ensures
        final(forest).wf(),
        final(store)@.wf(),
        final(descs).wf(),
        forest_in_store(final(forest)@, final(store)@),
        match r {
            Ok(i) => {
                &&& old(store)@.triad_exists(id)
                &&& contains_id(old(forest)@, id)
                &&& i >= 1 && !old(store)@.id_used(i)
                &&& (forall|k: u64| 1 <= k < i ==> #[trigger] old(store)@.id_used(k))
                &&& final(store)@ == spec_duplicate(old(store)@, id, i)
                &&& final(forest)@ == spec_insert_under(
                    old(forest)@,
                    parent_of(old(forest)@, id),
                    i,
                )
                &&& final(descs)@ == spec_write_desc(old(descs)@, i, spec_clone_desc(id), false)
            },
            Err(e) => {
                &&& final(forest)@ == old(forest)@
                &&& final(store)@ == old(store)@
                &&& final(descs)@ == old(descs)@
                &&& e == (Error::NotFound { id })
                &&& !(old(store)@.triad_exists(id) && contains_id(old(forest)@, id))
            },
        },
{
    if !store.triad_exists(id) || !forest.contains(id) {
        return Err(Error::NotFound { id });
    }
    let i = store.find_new();
    let ro = !store.check_mutability(id);
    match store.duplicate(id, i, ro) {
        Ok(()) => {},
        Err(_) => {
            proof {
                assert(false);
            }
        },
    }
    match forest.add_node_to_level(id, i) {
        Ok(()) => {},
        Err(_) => {
            proof {
                assert(old(store)@.id_used(i));
                assert(false);
            }
        },
    }
    let text = clone_desc_vec(id);
    descs.write_desc(i, &text, false);
    proof {
        lemma_duplicate_keeps(old(store)@, id, i);
        let si = idx_of(old(forest)@, id);
        lemma_idx_of_unique(old(forest)@, si);
        if old(forest)@[si].depth > 0 {
            lemma_parent_idx(old(forest)@, si);
            lemma_idx_of_unique(old(forest)@, parent_idx(old(forest)@, si));
            lemma_subtree_end(old(forest)@, parent_idx(old(forest)@, si));
        }
        assert forall|j: int| 0 <= j < forest@.len() implies
            store@.triad_exists(#[trigger] forest@[j].id) by {
            let nf = spec_insert_under(old(forest)@, parent_of(old(forest)@, id), i);
            assert(forest@ == nf);
            match parent_of(old(forest)@, id) {
                None => {
                    if j < old(forest)@.len() {
                        assert(forest@[j] == old(forest)@[j]);
                    } else {
                        assert(forest@[j].id == i);
                    }
                },
                Some(p) => {
                    let pi = idx_of(old(forest)@, p);
                    let e = subtree_end(old(forest)@, pi);
                    if j < e {
                        assert(forest@[j] == old(forest)@[j]);
                    } else if j == e {
                        assert(forest@[j].id == i);
                    } else {
                        assert(forest@[j] == old(forest)@[j - 1]);
                    }
                },
            }
        }
    }
    Ok(i)
}

/// Clones snapshot `branch`, attaching the clone as the last child of
/// `snapshot` instead of `branch`'s own parent.
pub fn clone_under(
    forest: &mut SnapshotForest,
    store: &mut SubvolumeStore,
    descs: &mut DescriptionStore,
    snapshot: u64,
    branch: u64,
) -> (r: Result<u64, Error>)
    requires
        old(forest).wf(),
        old(store)@.wf(),
        old(descs).wf(),
        forest_in_store(old(forest)@, old(store)@),
        old(store)@.boot.len() + old(store)@.etc.len() + old(store)@.rootfs.len() < u64::MAX,
    ensures
        final(forest).wf(),
        final(store)@.wf(),
        final(descs).wf(),
        forest_in_store(final(forest)@, final(store)@),
        match r {
            Ok(i) => {
                &&& old(store)@.triad_exists(snapshot)
                &&& old(store)@.triad_exists(branch)
                &&& contains_id(old(forest)@, snapshot)
                &&& i >= 1 && !old(store)@.id_used(i)
                &&& (forall|k: u64| 1 <= k < i ==> #[trigger] old(store)@.id_used(k))
                &&& final(store)@ == spec_duplicate(old(store)@, branch, i)
                &&& final(forest)@ == spec_insert_under(old(forest)@, Some(snapshot), i)
                &&& final(descs)@ == spec_write_desc(
                    old(descs)@,
                    i,
                    spec_clone_desc(branch),
                    false,
                )
            },
            Err(e) => {
                &&& final(forest)@ == old(forest)@
                &&& final(store)@ == old(store)@
                &&& final(descs)@ == old(descs)@
                &&& (e == (Error::NotFound { id: snapshot })
                        && !(old(store)@.triad_exists(snapshot)
                            && contains_id(old(forest)@, snapshot))
                    || e == (Error::NotFound { id: branch })
                        && old(store)@.triad_exists(snapshot)
                        && contains_id(old(forest)@, snapshot)
                        && !old(store)@.triad_exists(branch))
            },
        },
{
    if !store.triad_exists(snapshot) || !forest.contains(snapshot) {
        return Err(Error::NotFound { id: snapshot });
    }
    if !store.triad_exists(branch) {
        return Err(Error::NotFound { id: branch });
    }
    let i = store.find_new();
    let ro = !store.check_mutability(branch);
    match store.duplicate(branch, i, ro) {
        Ok(()) => {},
        Err(_) => {
            proof {
                assert(false);
            }
        },
    }
    match forest.add_node_to_parent(snapshot, i) {
        Ok(()) => {},
        Err(_) => {
            proof {
                assert(old(store)@.id_used(i));
                assert(false);
            }
        },
    }
    let text = clone_desc_vec(branch);
    descs.write_desc(i, &text, false);
    proof {
        lemma_duplicate_keeps(old(store)@, branch, i);
        let pi = idx_of(old(forest)@, snapshot);
        assert(0 <= pi < old(forest)@.len() && old(forest)@[pi].id == snapshot);
        lemma_subtree_end(old(forest)@, pi);
        assert forall|j: int| 0 <= j < forest@.len() implies
            store@.triad_exists(#[trigger] forest@[j].id) by {
            let pi = idx_of(old(forest)@, snapshot);
            let e = subtree_end(old(forest)@, pi);
            if j < e {
                assert(forest@[j] == old(forest)@[j]);
            } else if j == e {
                assert(forest@[j].id == i);
            } else {
                assert(forest@[j] == old(forest)@[j - 1]);
            }
        }
    }
    Ok(i)
}

/// Branches snapshot `id`: a fresh duplicate is attached as the last
/// child of `id` itself, described by the given text, or by the default
/// naming the source when the text is empty.
pub fn extend_branch(
    forest: &mut SnapshotForest,
    store: &mut SubvolumeStore,
    descs: &mut DescriptionStore,
    id: u64,
    desc: &Vec<u8>,
) -> (r: Result<u64, Error>)
    requires
        old(forest).wf(),
        old(store)@.wf(),
        old(descs).wf(),
        forest_in_store(old(forest)@, old(store)@),
        old(store)@.boot.len() + old(store)@.etc.len() + old(store)@.rootfs.len() < u64::MAX,
    ensures
        final(forest).wf(),
        final(store)@.wf(),
        final(descs).wf(),
        forest_in_store(final(forest)@, final(store)@),
        match r {
            Ok(i) => {
                &&& old(store)@.triad_exists(id)
                &&& contains_id(old(forest)@, id)
                &&& i >= 1 && !old(store)@.id_used(i)
                &&& (forall|k: u64| 1 <= k < i ==> #[trigger] old(store)@.id_used(k))
                &&& final(store)@ == spec_duplicate(old(store)@, id, i)
                &&& final(forest)@ == spec_insert_under(old(forest)@, Some(id), i)
                &&& final(descs)@ == spec_write_desc(
                    old(descs)@,
                    i,
                    if desc@.len() == 0 {
                        spec_clone_desc(id)
                    } else {
                        desc@
                    },
                    false,
                )
            },
            Err(e) => {
                &&& final(forest)@ == old(forest)@
                &&& final(store)@ == old(store)@
                &&& final(descs)@ == old(descs)@
                &&& e == (Error::NotFound { id })
                &&& !(old(store)@.triad_exists(id) && contains_id(old(forest)@, id))
            },
        },
{
    if !store.triad_exists(id) || !forest.contains(id) {
        return Err(Error::NotFound { id });
    }
    let i = store.find_new();
    let ro = !store.check_mutability(id);
    match store.duplicate(id, i, ro) {
        Ok(()) => {},
        Err(_) => {
            proof {
                assert(false);
            }
        },
    }
    match forest.add_node_to_parent(id, i) {
        Ok(()) => {},
        Err(_) => {
            proof {
                assert(old(store)@.id_used(i));
                assert(false);
            }
        },
    }
    let text = if desc.len() == 0 {
        clone_desc_vec(id)
    } else {
        crate::desc::copy_bytes(desc)
    };
    descs.write_desc(i, &text, false);
    proof {
        lemma_duplicate_keeps(old(store)@, id, i);
        let pi = idx_of(old(forest)@, id);
        assert(0 <= pi < old(forest)@.len() && old(forest)@[pi].id == id);
        lemma_subtree_end(old(forest)@, pi);
        assert forall|j: int| 0 <= j < forest@.len() implies
            store@.triad_exists(#[trigger] forest@[j].id) by {
            let pi = idx_of(old(forest)@, id);
            let e = subtree_end(old(forest)@, pi);
            if j < e {
                assert(forest@[j] == old(forest)@[j]);
            } else if j == e {
                assert(forest@[j].id == i);
            } else {
                assert(forest@[j] == old(forest)@[j - 1]);
            }
        }
    }
    Ok(i)
}

/// `k` space bytes.
pub open spec fn space_run(k: int) -> Seq<u8>
    decreases k when k >= 0
{
    if k <= 0 {
        Seq::empty()
    } else {
        space_run(k - 1).push(32u8)
    }
}

/// One printed line of the forest: the node indented two spaces per
/// level, its id, and its description after a dash.
pub open spec fn spec_tree_line(n: SnapshotNode, d: Seq<u8>) -> Seq<u8> {
    space_run(2 * n.depth) + dec_digits(n.id as nat) + seq![32u8, 45u8, 32u8] + d
}

/// Renders the whole forest, one line per node in pre-order: indentation
/// mirrors depth and each node carries its description (empty when none
/// was ever written).
pub fn tree_print(forest: &SnapshotForest, descs: &DescriptionStore) -> (r: Vec<Vec<u8>>)
    requires
        descs.wf(),
    ensures
        r@.len() == forest@.len(),
        forall|m: int|
            0 <= m < forest@.len()
                ==> (#[trigger] r@[m])@ == spec_tree_line(
                    forest@[m],
                    crate::desc::desc_of(descs@, forest@[m].id),
                ),
{
    let nodes = forest.node_list();
    let n = nodes.len();
    let mut out: Vec<Vec<u8>> = Vec::new();
    let mut k: usize = 0;
    while k < n
        invariant
            k <= n,
            n == forest@.len(),
            nodes@ == forest@,
            descs.wf(),
            out@.len() == k,
            forall|m: int|
                0 <= m < k
                    ==> (#[trigger] out@[m])@ == spec_tree_line(
                        forest@[m],
                        crate::desc::desc_of(descs@, forest@[m].id),
                    ),
        decreases n - k,
    {
        let nd = nodes[k];
        let mut line: Vec<u8> = Vec::new();
        let mut j: u64 = 0;
        while j < nd.depth
            invariant
                j <= nd.depth,
                line@ == space_run(2 * j),
            decreases nd.depth - j,
        {
            line.push(32);
            line.push(32);
            proof {
                assert(space_run(2 * j + 1) =~= space_run(2 * j).push(32u8));
                assert(line@ =~= space_run(2 * j + 2));
            }
            j = j + 1;
        }
        let mut digits = u64_to_dec(nd.id);
        line.append(&mut digits);
        line.push(32);
        line.push(45);
        line.push(32);
        let ghost mid = line@;
        proof {
            assert(mid =~= space_run(2 * nd.depth) + dec_digits(nd.id as nat)
                + seq![32u8, 45u8, 32u8]);
        }
        match descs.read_desc(nd.id) {
            None => {
                proof {
                    assert(line@ =~= mid + Seq::<u8>::empty());
                }
            },
            Some(t) => {
                let mut text = crate::desc::copy_bytes(t);
                line.append(&mut text);
                proof {
                    assert(line@ =~= mid + crate::desc::desc_of(descs@, nd.id));
                }
            },
        }
        proof {
            assert(line@ =~= spec_tree_line(
                forest@[k as int],
                crate::desc::desc_of(descs@, nd.id),
            ));
        }
        out.push(line);
        k = k + 1;
    }
    out
}

/// The store after deleting the triads of `ids`, first to last.
pub open spec fn spec_delete_each(sv: StoreView, ids: Seq<u64>) -> StoreView
    decreases ids.len(),
{
    if ids.len() == 0 {
        sv
    } else {
        spec_delete_each(
            StoreView {
                boot: seq_drop_id(sv.boot, ids[0]),
                etc: seq_drop_id(sv.etc, ids[0]),
                rootfs: seq_drop_subvol(sv.rootfs, ids[0]),
                chr: sv.chr,
            },
            ids.skip(1),
        )
    }
}

/// Deletes snapshot `id` with its whole subtree: the nodes leave the
/// forest and every removed id's triad is deleted, children before
/// parents.  The base snapshot and the currently deployed snapshot are
/// protected unless `force` is given; a refused call changes nothing.
pub fn delete_node(
    forest: &mut SnapshotForest,
    store: &mut SubvolumeStore,
    id: u64,
    force: bool,
    deployed: u64,
) -> (r: Result<Vec<u64>, Error>)
    requires
        old(forest).wf(),
        old(store)@.wf(),
        forest_in_store(old(forest)@, old(store)@),
    ensures
        final(forest).wf(),
        final(store)@.wf(),
        match r {
            Ok(removed) => {
                &&& (force || (id != 0 && id != deployed))
                &&& contains_id(old(forest)@, id)
                &&& removed@ == spec_subtree_ids(old(forest)@, id)
                &&& final(forest)@ == spec_remove_subtree(old(forest)@, id)
                &&& final(store)@ == spec_delete_each(old(store)@, removed@.reverse())
                &&& forest_in_store(final(forest)@, final(store)@)
            },
            Err(e) => {
                &&& final(forest)@ == old(forest)@
                &&& final(store)@ == old(store)@
                &&& (e == (Error::Unsupported { id }) && !force && id == 0
                    || e == (Error::Conflict { id }) && !force && id != 0 && id == deployed
                    || e == (Error::NotFound { id }) && (force || (id != 0 && id != deployed))
                        && !contains_id(old(forest)@, id))
            },
        },
{
    if !force && id == 0 {
        return Err(Error::Unsupported { id });
    }
    if !force && id == deployed {
        return Err(Error::Conflict { id });
    }
    let removed = match forest.remove_subtree(id) {
        Ok(v) => v,
        Err(e) => {
            return Err(e);
        },
    };
    proof {
        crate::forest::lemma_remove_subtree_wf(old(forest)@, id);
    }
    let n = removed.len();
    let mut k: usize = 0;
    let ghost rev = removed@.reverse();
    proof {
        assert(rev.skip(0) =~= rev);
    }
    while k < n
        invariant
            k <= n,
            n == removed@.len(),
            rev == removed@.reverse(),
            store@.wf(),
            store@.chr == old(store)@.chr,
            spec_delete_each(old(store)@, rev) == spec_delete_each(store@, rev.skip(k as int)),
            forall|y: u64|
                old(store)@.triad_exists(y) && !removed@.contains(y)
                    ==> #[trigger] store@.triad_exists(y),
        decreases n - k,
    {
        let rid = removed[n - 1 - k];
        let ghost pre = store@;
        store.delete(rid);
        proof {
            assert(rev[k as int] == removed@[n - 1 - k]);
            assert(rev.skip(k as int)[0] == rev[k as int]);
            assert(rev.skip(k as int).skip(1) =~= rev.skip(k as int + 1));
            assert(spec_delete_each(pre, rev.skip(k as int))
                == spec_delete_each(store@, rev.skip(k as int + 1)));
            assert(removed@.contains(rid));
            assert forall|y: u64|
                old(store)@.triad_exists(y) && !removed@.contains(y) implies
                #[trigger] store@.triad_exists(y) by {
                assert(pre.triad_exists(y));
                assert(y != rid);
                if pre.boot.contains(rid) {
                    crate::store::lemma_unique_remove_id(pre.boot, rid);
                }
                if pre.etc.contains(rid) {
                    crate::store::lemma_unique_remove_id(pre.etc, rid);
                }
                if has_subvol(pre.rootfs, rid) {
                    crate::store::lemma_unique_remove_subvol(pre.rootfs, rid);
                }
            }
        }
        k = k + 1;
    }
    proof {
        assert(rev.skip(n as int) =~= Seq::<u64>::empty());
        assert(spec_delete_each(store@, Seq::<u64>::empty()) == store@);
        assert forall|j: int| 0 <= j < forest@.len() implies
            store@.triad_exists(#[trigger] forest@[j].id) by {
            let y = forest@[j].id;
            assert(contains_id(forest@, y));
            assert(contains_id(old(forest)@, y));
            assert(!spec_subtree_ids(old(forest)@, id).contains(y));
            assert(old(store)@.triad_exists(y));
        }
    }
    Ok(removed)
}

/// With unique ids, looking a present id up ignores appended entries.
proof fn lemma_subvol_of_extend(s: Seq<Subvol>, t: Seq<Subvol>, y: u64)
    requires
        crate::store::subvol_ids_unique(s + t),
        has_subvol(s, y),
    ensures
        has_subvol(s + t, y),
        subvol_of(s + t, y) == subvol_of(s, y),
{
    let j = crate::store::pos_of_subvol(s, y);
    assert(0 <= j < s.len() && s[j].id == y);
    assert((s + t)[j] == s[j]);
    assert(crate::store::subvol_ids_unique(s)) by {
        assert(forall|a: int| 0 <= a < s.len() ==> (s + t)[a] == s[a]);
    }
    crate::store::lemma_subvol_of_unique(s + t, j);
    crate::store::lemma_subvol_of_unique(s, j);
}

/// The descriptions written for a list of clones, source and clone id
/// pair by pair.
pub open spec fn spec_clone_descs(
    dv: Seq<(u64, Seq<u8>)>,
    pairs: Seq<(u64, u64)>,
) -> Seq<(u64, Seq<u8>)>
    decreases pairs.len(),
{
    if pairs.len() == 0 {
        dv
    } else {
        spec_clone_descs(
            spec_write_desc(dv, pairs[0].1, spec_clone_desc(pairs[0].0), false),
            pairs.skip(1),
        )
    }
}

proof fn lemma_clone_descs_push(dv: Seq<(u64, Seq<u8>)>, pairs: Seq<(u64, u64)>, p: (u64, u64))
    ensures
        spec_clone_descs(dv, pairs.push(p)) == spec_write_desc(
            spec_clone_descs(dv, pairs),
            p.1,
            spec_clone_desc(p.0),
            false,
        ),
    decreases pairs.len(),
{
    let q = pairs.push(p);
    if pairs.len() == 0 {
        assert(q[0] == p);
        assert(q.skip(1) =~= Seq::<(u64, u64)>::empty());
        let w = spec_write_desc(dv, p.1, spec_clone_desc(p.0), false);
        assert(spec_clone_descs(dv, q) == spec_clone_descs(w, q.skip(1)));
        assert(spec_clone_descs(w, q.skip(1)) == w);
        assert(spec_clone_descs(dv, pairs) == dv);
    } else {
        assert(q[0] == pairs[0]);
        assert(q.skip(1) =~= pairs.skip(1).push(p));
        let w = spec_write_desc(dv, pairs[0].1, spec_clone_desc(pairs[0].0), false);
        assert(spec_clone_descs(dv, q) == spec_clone_descs(w, q.skip(1)));
        lemma_clone_descs_push(w, pairs.skip(1), p);
        assert(spec_clone_descs(dv, pairs) == spec_clone_descs(w, pairs.skip(1)));
    }
}

/// The position, within a subtree run, of the parent of the node at
/// position `k`: the latest earlier node one level up.  `rs` is the run
/// with depths made relative to its root.
fn slice_parent(
    slice: &Vec<SnapshotNode>,
    k: usize,
    Ghost(rs): Ghost<Seq<SnapshotNode>>,
) -> (pj: usize)
    requires
        rs.len() == slice@.len(),
        0 < k < rs.len(),
        depth_wf(rs),
        forall|m: int|
            0 <= m < rs.len()
                ==> (#[trigger] slice@[m].depth) == slice@[0].depth + rs[m].depth,
        rs[k as int].depth > 0,
    ensures
        pj < k,
        pj as int == parent_idx(rs, k as int),
{
    proof {
        lemma_parent_idx(rs, k as int);
    }
    let ghost d1 = rs[k as int].depth - 1;
    let mut j: usize = k;
    while j > 0
        invariant
            0 <= j <= k < rs.len(),
            rs.len() == slice@.len(),
            depth_wf(rs),
            rs[k as int].depth > 0,
            forall|m: int|
                0 <= m < rs.len()
                    ==> (#[trigger] slice@[m].depth) == slice@[0].depth + rs[m].depth,
            d1 == rs[k as int].depth - 1,
            parent_idx(rs, k as int) == last_at_depth_before(rs, d1, j as int),
            0 <= parent_idx(rs, k as int) < k,
        decreases j,
    {
        proof {
            assert(slice@[k as int].depth == slice@[0].depth + rs[k as int].depth);
        }
        if slice[j - 1].depth == slice[k].depth - 1 {
            proof {
                assert(rs[j as int - 1].depth == d1);
                assert(last_at_depth_before(rs, d1, j as int) == j - 1);
            }
            return j - 1;
        }
        proof {
            assert(rs[j as int - 1].depth != d1);
            assert(last_at_depth_before(rs, d1, j as int)
                == last_at_depth_before(rs, d1, j as int - 1));
        }
        j = j - 1;
    }
    proof {
        assert(last_at_depth_before(rs, d1, 0) == -1);
        assert(false);
    }
    0
}

/// Clones the whole tree below (and including) `id`: the clone has the
/// same shape — node for node, in the same pre-order, at the same
/// relative depths — with every id replaced by a fresh one, no
/// collisions among them or with anything already on storage, each
/// clone's content and mutability taken from its source, and each clone
/// described as a clone of its source.  Returns the source-to-clone id
/// mapping in pre-order.
#[verifier::rlimit(100)]
pub fn clone_recursive(
    forest: &mut SnapshotForest,
    store: &mut SubvolumeStore,
    descs: &mut DescriptionStore,
    id: u64,
) -> (r: Result<Vec<(u64, u64)>, Error>)
    requires
        old(forest).wf(),
        old(store)@.wf(),
        old(descs).wf(),
        forest_in_store(old(forest)@, old(store)@),
        old(store)@.boot.len() + old(store)@.etc.len() + old(store)@.rootfs.len()
            + 3 * old(forest)@.len() < u64::MAX,
    ensures
        final(forest).wf(),
        final(store)@.wf(),
        final(descs).wf(),
        forest_in_store(final(forest)@, final(store)@),
        match r {
            Ok(map) => {
                let f0 = old(forest)@;
                let i0 = idx_of(f0, id);
                let sl = subtree_end(f0, i0) - i0;
                &&& contains_id(f0, id)
                &&& old(store)@.triad_exists(id)
                &&& map@.len() == sl
                &&& (forall|m: int| 0 <= m < sl ==> (#[trigger] map@[m].0) == f0[i0 + m].id)
                &&& final(forest)@.len() == f0.len() + sl
                &&& (forall|j: int| 0 <= j < f0.len() ==> (#[trigger] final(forest)@[j]) == f0[j])
                &&& (forall|m: int|
                    0 <= m < sl
                        ==> (#[trigger] final(forest)@[f0.len() + m]).id == map@[m].1
                            && final(forest)@[f0.len() + m].depth + f0[i0].depth
                                == f0[i0 + m].depth)
                &&& (forall|m: int|
                    0 <= m < sl
                        ==> !old(store)@.id_used(#[trigger] map@[m].1)
                            && !contains_id(f0, map@[m].1) && map@[m].1 >= 1)
                &&& (forall|m: int, l: int|
                    0 <= m < l < sl ==> (#[trigger] map@[m].1) != (#[trigger] map@[l].1))
                &&& final(store)@.chr == old(store)@.chr
                &&& final(store)@.boot == old(store)@.boot
                    + Seq::new(sl as nat, |m: int| map@[m].1)
                &&& final(store)@.etc == old(store)@.etc
                    + Seq::new(sl as nat, |m: int| map@[m].1)
                &&& final(store)@.rootfs == old(store)@.rootfs
                    + Seq::new(
                    sl as nat,
                    |m: int| Subvol {
                        id: map@[m].1,
                        tok: subvol_of(old(store)@.rootfs, map@[m].0).tok,
                        flagged: subvol_of(old(store)@.rootfs, map@[m].0).flagged,
                    },
                )
                &&& final(descs)@ == spec_clone_descs(old(descs)@, map@)
            },
            Err(e) => {
                &&& final(forest)@ == old(forest)@
                &&& final(store)@ == old(store)@
                &&& final(descs)@ == old(descs)@
                &&& e == (Error::NotFound { id })
                &&& !(contains_id(old(forest)@, id) && old(store)@.triad_exists(id))
            },
        },
{
    if !store.triad_exists(id) {
        return Err(Error::NotFound { id });
    }
    let slice = match forest.subtree_nodes(id) {
        Ok(v) => v,
        Err(e) => {
            return Err(e);
        },
    };
    let ghost f0 = old(forest)@;
    let ghost sv0 = old(store)@;
    let ghost i0 = idx_of(f0, id);
    let ghost e0 = subtree_end(f0, i0);
    let ghost b = f0.len() as int;
    proof {
        assert(0 <= i0 < f0.len() && f0[i0].id == id);
        lemma_subtree_end(f0, i0);
    }
    let sl = slice.len();
    let d0 = slice[0].depth;
    let ghost rslice = Seq::new(
        sl as nat,
        |m: int| SnapshotNode {
            id: f0[i0 + m].id,
            depth: (f0[i0 + m].depth - d0) as u64,
        },
    );
    proof {
        assert(slice@[0] == f0[i0]);
        assert(d0 == f0[i0].depth);
        assert forall|m: int| 1 <= m < sl implies (#[trigger] slice@[m].depth) > d0 by {
            assert(slice@[m] == f0[i0 + m]);
        }
        assert forall|m: int| 0 <= m < sl implies
            (#[trigger] slice@[m].depth) == d0 + rslice[m].depth
                && slice@[m].id == rslice[m].id by {
            assert(slice@[m] == f0[i0 + m]);
            if m >= 1 {
                assert(slice@[m].depth > d0);
            }
        }
        assert(depth_wf(rslice)) by {
            assert(rslice[0].depth == 0);
            assert forall|m: int| 1 <= m < sl implies
                (#[trigger] rslice[m].depth) <= rslice[m - 1].depth + 1 by {
                assert(f0[i0 + m].depth <= f0[i0 + m - 1].depth + 1);
            }
        }
    }
    let mut map: Vec<(u64, u64)> = Vec::new();
    let mut k: usize = 0;
    proof {
        assert(forest@ =~= f0 + Seq::new(0, |m: int| SnapshotNode { id: 0u64, depth: 0u64 }));
    }
    while k < sl
        invariant
            0 <= k <= sl,
            sl == slice@.len(),
            sl == e0 - i0,
            0 <= i0 < e0 <= b,
            b == f0.len(),
            f0[i0].id == id,
            i0 == idx_of(f0, id),
            e0 == subtree_end(f0, i0),
            slice@ == f0.subrange(i0, e0),
            d0 == f0[i0].depth,
            rslice.len() == sl,
            depth_wf(rslice),
            forall|m: int|
                0 <= m < sl
                    ==> (#[trigger] slice@[m].depth) == d0 + rslice[m].depth
                        && slice@[m].id == rslice[m].id,
            forall|m: int| 1 <= m < sl ==> (#[trigger] rslice[m].depth) > 0,
            forest_wf(f0),
            sv0.wf(),
            forest_in_store(f0, sv0),
            sv0.boot.len() + sv0.etc.len() + sv0.rootfs.len() + 3 * b < u64::MAX,
            map@.len() == k,
            forall|m: int| 0 <= m < k ==> (#[trigger] map@[m].0) == slice@[m].id,
            forest@.len() == b + k,
            forall|j: int| 0 <= j < b ==> (#[trigger] forest@[j]) == f0[j],
            forall|m: int|
                0 <= m < k
                    ==> (#[trigger] forest@[b + m]) == (SnapshotNode {
                        id: map@[m].1,
                        depth: rslice[m].depth,
                    }),
            forest.wf(),
            forall|m: int|
                0 <= m < k
                    ==> !sv0.id_used(#[trigger] map@[m].1) && !contains_id(f0, map@[m].1)
                        && map@[m].1 >= 1,
            forall|m: int, l: int|
                0 <= m < l < k ==> (#[trigger] map@[m].1) != (#[trigger] map@[l].1),
            store@.wf(),
            store@.chr == sv0.chr,
            store@.boot == sv0.boot + Seq::new(k as nat, |m: int| map@[m].1),
            store@.etc == sv0.etc + Seq::new(k as nat, |m: int| map@[m].1),
            store@.rootfs == sv0.rootfs + Seq::new(
                k as nat,
                |m: int| Subvol {
                    id: map@[m].1,
                    tok: subvol_of(sv0.rootfs, map@[m].0).tok,
                    flagged: subvol_of(sv0.rootfs, map@[m].0).flagged,
                },
            ),
            forest_in_store(forest@, store@),
            descs.wf(),
            descs@ == spec_clone_descs(old(descs)@, map@),
        decreases sl - k,
    {
        let ghost fpre = forest@;
        let ghost spre = store@;
        let src = slice[k];
        proof {
            assert(store@.boot.len() == sv0.boot.len() + k);
            assert(store@.etc.len() == sv0.etc.len() + k);
            assert(store@.rootfs.len() == sv0.rootfs.len() + k);
        }
        let nid = store.find_new();
        proof {
            assert(!spre.id_used(nid));
            assert(!sv0.id_used(nid)) by {
                if sv0.boot.contains(nid) {
                    let j = choose|j: int| 0 <= j < sv0.boot.len() && sv0.boot[j] == nid;
                    assert(spre.boot[j] == nid);
                }
                if sv0.etc.contains(nid) {
                    let j = choose|j: int| 0 <= j < sv0.etc.len() && sv0.etc[j] == nid;
                    assert(spre.etc[j] == nid);
                }
                if has_subvol(sv0.rootfs, nid) {
                    let j = choose|j: int|
                        0 <= j < sv0.rootfs.len() && (#[trigger] sv0.rootfs[j].id) == nid;
                    assert(spre.rootfs[j].id == nid);
                }
            }
            assert(!contains_id(forest@, nid)) by {
                if contains_id(forest@, nid) {
                    let j = choose|j: int|
                        0 <= j < forest@.len() && (#[trigger] forest@[j].id) == nid;
                    assert(store@.triad_exists(forest@[j].id));
                    assert(spre.id_used(nid));
                }
            }
            assert(!contains_id(f0, nid)) by {
                if contains_id(f0, nid) {
                    let j = choose|j: int| 0 <= j < f0.len() && (#[trigger] f0[j].id) == nid;
                    assert(forest@[j].id == nid);
                    assert(contains_id(forest@, nid));
                }
            }
            assert(src == f0[i0 + k]);
            assert(contains_id(f0, src.id)) by {
                assert(f0[i0 + k].id == src.id);
            }
            assert(contains_id(forest@, src.id)) by {
                assert(forest@[i0 + k].id == src.id);
            }
            assert(store@.triad_exists(src.id)) by {
                assert(forest_in_store(forest@, store@));
                assert(forest@[i0 + k] == f0[i0 + k]);
            }
            assert(sv0.triad_exists(src.id)) by {
                assert(forest_in_store(f0, sv0));
            }
            lemma_subvol_of_extend(
                sv0.rootfs,
                Seq::new(
                    k as nat,
                    |m: int| Subvol {
                        id: map@[m].1,
                        tok: subvol_of(sv0.rootfs, map@[m].0).tok,
                        flagged: subvol_of(sv0.rootfs, map@[m].0).flagged,
                    },
                ),
                src.id,
            );
            assert(subvol_of(store@.rootfs, src.id) == subvol_of(sv0.rootfs, src.id));
        }
        let ro = !store.check_mutability(src.id);
        match store.duplicate(src.id, nid, ro) {
            Ok(()) => {},
            Err(_) => {
                proof {
                    assert(false);
                }
            },
        }
        if k == 0 {
            match forest.append_base_tree(nid) {
                Ok(()) => {},
                Err(_) => {
                    proof {
                        assert(false);
                    }
                },
            }
            proof {
                assert(forest@ =~= fpre.push(SnapshotNode { id: nid, depth: 0u64 }));
                assert(rslice[0].depth == 0);
            }
        } else {
            let pj = slice_parent(&slice, k, Ghost(rslice));
            proof {
                lemma_parent_idx(rslice, k as int);
            }
            let pnew = map[pj].1;
            proof {
                assert(fpre[b + pj].id == pnew);
                assert(contains_id(fpre, pnew)) by {
                    assert(fpre[b + pj].id == pnew);
                }
            }
            match forest.add_node_to_parent(pnew, nid) {
                Ok(()) => {},
                Err(_) => {
                    proof {
                        assert(false);
                    }
                },
            }
            proof {
                lemma_idx_of_unique(fpre, b + pj);
                assert(idx_of(fpre, pnew) == b + pj);
                assert forall|m: int| b + pj + 1 <= m < fpre.len() implies
                    (#[trigger] fpre[m].depth) > fpre[b + pj].depth by {
                    let mm = m - b;
                    assert(pj < mm < k);
                    assert(fpre[b + mm] == (SnapshotNode {
                        id: map@[mm].1,
                        depth: rslice[mm].depth,
                    }));
                    assert(fpre[m].depth == rslice[mm].depth);
                    assert(rslice[mm].depth >= rslice[k as int].depth);
                    assert(rslice[k as int].depth == rslice[pj as int].depth + 1);
                }
                crate::forest::lemma_shallower_all(
                    fpre,
                    fpre[b + pj].depth as int,
                    b + pj + 1,
                );
                assert(subtree_end(fpre, b + pj) == fpre.len());
                assert(forest@ == fpre.insert(
                    fpre.len() as int,
                    SnapshotNode { id: nid, depth: (fpre[b + pj].depth + 1) as u64 },
                ));
                assert(forest@ =~= fpre.push(SnapshotNode {
                    id: nid,
                    depth: (rslice[pj as int].depth + 1) as u64,
                }));
                assert((rslice[pj as int].depth + 1) as u64 == rslice[k as int].depth);
            }
        }
        let ghost map0 = map@;
        map.push((src.id, nid));
        let text = clone_desc_vec(src.id);
        let ghost dpre = descs@;
        descs.write_desc(nid, &text, false);
        proof {
            assert(map@ =~= map0.push((src.id, nid)));
            assert forall|m: int| 0 <= m < k implies (#[trigger] map@[m].1) != nid by {
                assert(spre.boot[sv0.boot.len() + m] == map0[m].1);
                assert(spre.boot.contains(map0[m].1));
            }
            lemma_clone_descs_push(old(descs)@, map0, (src.id, nid));
            assert(dpre == spec_clone_descs(old(descs)@, map0));
            assert(descs@ == spec_write_desc(dpre, nid, spec_clone_desc(src.id), false));
            assert(descs@ == spec_clone_descs(old(descs)@, map@));
            assert(store@.boot =~= sv0.boot + Seq::new((k + 1) as nat, |m: int| map@[m].1));
            assert(store@.etc =~= sv0.etc + Seq::new((k + 1) as nat, |m: int| map@[m].1));
            assert(store@.rootfs =~= sv0.rootfs + Seq::new(
                (k + 1) as nat,
                |m: int| Subvol {
                    id: map@[m].1,
                    tok: subvol_of(sv0.rootfs, map@[m].0).tok,
                    flagged: subvol_of(sv0.rootfs, map@[m].0).flagged,
                },
            ));
            assert forall|j: int| 0 <= j < forest@.len() implies
                store@.triad_exists(#[trigger] forest@[j].id) by {
                if j < fpre.len() {
                    assert(forest@[j] == fpre[j]);
                    assert(spre.triad_exists(forest@[j].id));
                    let j1 = choose|j1: int|
                        0 <= j1 < spre.boot.len() && spre.boot[j1] == forest@[j].id;
                    assert(store@.boot[j1] == forest@[j].id);
                    let j2 = choose|j2: int|
                        0 <= j2 < spre.etc.len() && spre.etc[j2] == forest@[j].id;
                    assert(store@.etc[j2] == forest@[j].id);
                    let j3 = choose|j3: int|
                        0 <= j3 < spre.rootfs.len()
                            && (#[trigger] spre.rootfs[j3].id) == forest@[j].id;
                    assert(store@.rootfs[j3].id == forest@[j].id);
                } else {
                    assert(forest@[j].id == nid);
                    assert(store@.boot.last() == nid);
                    assert(store@.boot.contains(nid));
                    assert(store@.etc.last() == nid);
                    assert(store@.etc.contains(nid));
                    assert(store@.rootfs.last().id == nid);
                    assert(has_subvol(store@.rootfs, nid));
                }
            }
        }
        k = k + 1;
    }
    proof {
        assert forall|m: int| 0 <= m < sl implies (#[trigger] map@[m].0) == f0[i0 + m].id by {
            assert(slice@[m] == f0[i0 + m]);
        }
    }
    Ok(map)
}

/// Disables the storage-level immutability of snapshot `id`: the rootfs
/// becomes writable, the mutability marker is set, and the mutability
/// tag is appended to the description.  The base snapshot is never made
/// mutable; an already mutable snapshot is left exactly as it is.
pub fn immutability_disable(
    store: &mut SubvolumeStore,
    descs: &mut DescriptionStore,
    id: u64,
) -> (r: Result<(), Error>)
    requires
        old(store)@.wf(),
        old(descs).wf(),
    ensures
        final(store)@.wf(),
        final(descs).wf(),
        final(store)@.boot == old(store)@.boot,
        final(store)@.etc == old(store)@.etc,
        final(store)@.chr == old(store)@.chr,
        match r {
            Ok(()) => {
                &&& id != 0
                &&& has_subvol(old(store)@.rootfs, id)
                &&& if subvol_of(old(store)@.rootfs, id).flagged {
                    final(store)@ == old(store)@ && final(descs)@ == old(descs)@
                } else {
                    final(store)@.rootfs == old(store)@.rootfs.update(
                        crate::store::pos_of_subvol(old(store)@.rootfs, id),
                        Subvol { flagged: true, ..subvol_of(old(store)@.rootfs, id) },
                    ) && final(descs)@ == spec_write_desc(
                        old(descs)@,
                        id,
                        seq![32u8] + tag_bytes(),
                        false,
                    )
                }
            },
            Err(e) => {
                &&& final(store)@ == old(store)@
                &&& final(descs)@ == old(descs)@
                &&& (e == (Error::Unsupported { id }) && id == 0
                    || e == (Error::NotFound { id }) && id != 0
                        && !has_subvol(old(store)@.rootfs, id))
            },
        },
{
    if id == 0 {
        return Err(Error::Unsupported { id });
    }
    let flagged = match store.content_token(id) {
        None => {
            return Err(Error::NotFound { id });
        },
        Some(_) => store.check_mutability(id),
    };
    if flagged {
        return Ok(());
    }
    match store.set_read_only(id, false) {
        Ok(()) => {},
        Err(_) => {
            proof {
                assert(false);
            }
        },
    }
    let mut tag: Vec<u8> = Vec::new();
    tag.push(32);
    tag.push(77);
    tag.push(85);
    tag.push(84);
    tag.push(65);
    tag.push(66);
    tag.push(76);
    tag.push(69);
    proof {
        assert(tag@ =~= seq![32u8] + tag_bytes());
    }
    descs.write_desc(id, &tag, false);
    Ok(())
}

/// Enables the storage-level immutability of snapshot `id`: the rootfs
/// becomes read-only, the mutability marker is removed, and exactly the
/// literal mutability tag is stripped from the description.  An already
/// immutable snapshot is left exactly as it is.
pub fn immutability_enable(
    store: &mut SubvolumeStore,
    descs: &mut DescriptionStore,
    id: u64,
) -> (r: Result<(), Error>)
    requires
        old(store)@.wf(),
        old(descs).wf(),
    ensures
        final(store)@.wf(),
        final(descs).wf(),
        final(store)@.boot == old(store)@.boot,
        final(store)@.etc == old(store)@.etc,
        final(store)@.chr == old(store)@.chr,
        match r {
            Ok(()) => {
                &&& id != 0
                &&& has_subvol(old(store)@.rootfs, id)
                &&& if !subvol_of(old(store)@.rootfs, id).flagged {
                    final(store)@ == old(store)@ && final(descs)@ == old(descs)@
                } else {
                    final(store)@.rootfs == old(store)@.rootfs.update(
                        crate::store::pos_of_subvol(old(store)@.rootfs, id),
                        Subvol { flagged: false, ..subvol_of(old(store)@.rootfs, id) },
                    ) && final(descs)@ == spec_strip_desc(old(descs)@, id)
                }
            },
            Err(e) => {
                &&& final(store)@ == old(store)@
                &&& final(descs)@ == old(descs)@
                &&& (e == (Error::Unsupported { id }) && id == 0
                    || e == (Error::NotFound { id }) && id != 0
                        && !has_subvol(old(store)@.rootfs, id))
            },
        },
{
    if id == 0 {
        return Err(Error::Unsupported { id });
    }
    let flagged = match store.content_token(id) {
        None => {
            return Err(Error::NotFound { id });
        },
        Some(_) => store.check_mutability(id),
    };
    if !flagged {
        return Ok(());
    }
    match store.set_read_only(id, true) {
        Ok(()) => {},
        Err(_) => {
            proof {
                assert(false);
            }
        },
    }
    descs.strip_mutable_tag(id);
    Ok(())
}

} // verus!