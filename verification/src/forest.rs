//! The snapshot forest: every snapshot id and its ancestry.
//!
//! The forest is held flattened in pre-order: each node carries its id and
//! its depth, a node's subtree is the contiguous run of deeper nodes that
//! follows it, and a node's parent is the nearest preceding node one level
//! up.  Roots have depth zero; the synthetic anchor above them is never
//! stored.

use vstd::prelude::*;
use crate::Error;

verus! {

/// One snapshot in the forest: its id and its depth below the root level.
#[derive(Clone, Copy, Debug, PartialEq, Eq, Structural)]
pub struct SnapshotNode {
    pub id: u64,
    pub depth: u64,
}

/// Depth shape of a flattened pre-order forest: the first node is a root
/// and a node is at most one level deeper than its predecessor.
pub open spec fn depth_wf(s: Seq<SnapshotNode>) -> bool {
    &&& s.len() > 0 ==> s[0].depth == 0
    &&& forall|i: int| 1 <= i < s.len() ==> (#[trigger] s[i].depth) <= s[i - 1].depth + 1
}

pub open spec fn ids_distinct(s: Seq<SnapshotNode>) -> bool {
    forall|i: int, j: int|
        0 <= i < j < s.len() ==> (#[trigger] s[i].id) != (#[trigger] s[j].id)
}

/// A well-formed flattened forest.
pub open spec fn forest_wf(s: Seq<SnapshotNode>) -> bool {
    &&& depth_wf(s)
    &&& ids_distinct(s)
}

pub open spec fn contains_id(s: Seq<SnapshotNode>, id: u64) -> bool {
    exists|i: int| 0 <= i < s.len() && (#[trigger] s[i].id) == id
}

/// The position of `id` in the flattened forest.
pub open spec fn idx_of(s: Seq<SnapshotNode>, id: u64) -> int {
    choose|i: int| 0 <= i < s.len() && (#[trigger] s[i].id) == id
}

/// The first position past `j` (exclusive scan) whose depth is `d` or less.
pub open spec fn shallower_from(s: Seq<SnapshotNode>, d: int, j: int) -> int
    decreases s.len() - j when 0 <= j <= s.len()
{
    if j < s.len() && s[j].depth > d {
        shallower_from(s, d, j + 1)
    } else {
        j
    }
}

/// The position just past the subtree of the node at position `i`.
pub open spec fn subtree_end(s: Seq<SnapshotNode>, i: int) -> int {
    shallower_from(s, s[i].depth as int, i + 1)
}

/// When everything from `j` on is deeper than `d`, the scan runs to the
/// end.
pub proof fn lemma_shallower_all(s: Seq<SnapshotNode>, d: int, j: int)
    requires
        0 <= j <= s.len(),
        forall|m: int| j <= m < s.len() ==> (#[trigger] s[m].depth) > d,
    ensures
        shallower_from(s, d, j) == s.len(),
    decreases s.len() - j,
{
    if j < s.len() {
        lemma_shallower_all(s, d, j + 1);
    }
}

pub proof fn lemma_shallower_from(s: Seq<SnapshotNode>, d: int, j: int)
    requires
        0 <= j <= s.len(),
    ensures
        j <= shallower_from(s, d, j) <= s.len(),
        forall|m: int| j <= m < shallower_from(s, d, j) ==> (#[trigger] s[m].depth) > d,
        shallower_from(s, d, j) < s.len() ==> s[shallower_from(s, d, j)].depth <= d,
    decreases s.len() - j,
{
    if j < s.len() && s[j].depth > d {
        lemma_shallower_from(s, d, j + 1);
    }
}

/// The subtree of a node runs from its position to the next node that is
/// not deeper than it.
pub proof fn lemma_subtree_end(s: Seq<SnapshotNode>, i: int)
    requires
        0 <= i < s.len(),
    ensures
        i < subtree_end(s, i) <= s.len(),
        forall|m: int| i < m < subtree_end(s, i) ==> (#[trigger] s[m].depth) > s[i].depth,
        subtree_end(s, i) < s.len() ==> s[subtree_end(s, i)].depth <= s[i].depth,
{
    lemma_shallower_from(s, s[i].depth as int, i + 1);
}

/// The latest position before `i` whose depth is exactly `d`, or `-1`.
pub open spec fn last_at_depth_before(s: Seq<SnapshotNode>, d: int, i: int) -> int
    decreases i when i >= 0
{
    if i <= 0 {
        -1
    } else if s[i - 1].depth == d {
        i - 1
    } else {
        last_at_depth_before(s, d, i - 1)
    }
}

/// The position of the parent of the node at position `i`.
pub open spec fn parent_idx(s: Seq<SnapshotNode>, i: int) -> int {
    last_at_depth_before(s, s[i].depth - 1, i)
}

pub proof fn lemma_last_at_depth_before(s: Seq<SnapshotNode>, d: int, i: int)
    requires
        0 <= i <= s.len(),
    ensures
        -1 <= last_at_depth_before(s, d, i) < i,
        last_at_depth_before(s, d, i) >= 0 ==> s[last_at_depth_before(s, d, i)].depth == d,
        forall|m: int| last_at_depth_before(s, d, i) < m < i ==> (#[trigger] s[m].depth) != d,
    decreases i,
{
    if i > 0 && s[i - 1].depth != d {
        lemma_last_at_depth_before(s, d, i - 1);
    }
}

/// In a depth-well-formed forest, depths cannot jump: if a node before `i`
/// sits below `e` and the node at `i` sits at or above `e`, some node in
/// between sits exactly at `e`.
pub proof fn lemma_depth_between(s: Seq<SnapshotNode>, m: int, i: int, e: int)
    requires
        depth_wf(s),
        0 <= m < i < s.len(),
        s[m].depth < e <= s[i].depth,
    ensures
        exists|j: int| m < j <= i && (#[trigger] s[j].depth) == e,
    decreases i - m,
{
    if s[i].depth == e {
        assert(m < i <= i && s[i].depth == e);
    } else {
        assert(s[i - 1].depth + 1 >= s[i].depth);
        assert(i - 1 > m) by {
            if i - 1 == m {
                assert(s[m].depth >= s[i].depth - 1 >= e);
            }
        }
        lemma_depth_between(s, m, i - 1, e);
        let j = choose|j: int| m < j <= i - 1 && (#[trigger] s[j].depth) == e;
        assert(m < j <= i && s[j].depth == e);
    }
}

/// Every non-root node has a parent: a latest preceding node one level up,
/// with only strictly deeper nodes between the two.
pub proof fn lemma_parent_idx(s: Seq<SnapshotNode>, i: int)
    requires
        depth_wf(s),
        0 <= i < s.len(),
        s[i].depth > 0,
    ensures
        0 <= parent_idx(s, i) < i,
        s[parent_idx(s, i)].depth == s[i].depth - 1,
        forall|m: int| parent_idx(s, i) < m < i ==> (#[trigger] s[m].depth) >= s[i].depth,
{
    let d = s[i].depth as int;
    lemma_last_at_depth_before(s, d - 1, i);
    let p = parent_idx(s, i);
    assert(p >= 0) by {
        if p < 0 {
            if d == 1 {
                assert(s[0].depth == d - 1);
                assert(0 < i);
            } else {
                assert(s[0].depth < d - 1 <= s[i].depth);
                lemma_depth_between(s, 0, i, d - 1);
                let j = choose|j: int| 0 < j <= i && (#[trigger] s[j].depth) == d - 1;
                assert(j < i);
            }
        }
    }
    assert forall|m: int| p < m < i implies (#[trigger] s[m].depth) >= d by {
        if s[m].depth < d - 1 {
            lemma_depth_between(s, m, i, d - 1);
            let j = choose|j: int| m < j <= i && (#[trigger] s[j].depth) == d - 1;
            assert(j < i);
        }
    }
}

/// The ids stored in a flattened forest, in order.
pub open spec fn ids(s: Seq<SnapshotNode>) -> Seq<u64> {
    Seq::new(s.len(), |i: int| s[i].id)
}

/// The id of the parent of `id`, if `id` is not a root.
pub open spec fn parent_of(s: Seq<SnapshotNode>, id: u64) -> Option<u64> {
    let i = idx_of(s, id);
    if s[i].depth == 0 {
        None
    } else {
        Some(s[parent_idx(s, i)].id)
    }
}

/// The flattened forest after attaching `id` as the last child of
/// `parent` (or as a new root when `parent` is `None`).
pub open spec fn spec_insert_under(
    s: Seq<SnapshotNode>,
    parent: Option<u64>,
    id: u64,
) -> Seq<SnapshotNode> {
    match parent {
        None => s.push(SnapshotNode { id, depth: 0 }),
        Some(p) => {
            let i = idx_of(s, p);
            let e = subtree_end(s, i);
            s.insert(e, SnapshotNode { id, depth: (s[i].depth + 1) as u64 })
        },
    }
}

/// The pre-order ids of the subtree rooted at `id`, `id` itself first.
pub open spec fn spec_subtree_ids(s: Seq<SnapshotNode>, id: u64) -> Seq<u64> {
    let i = idx_of(s, id);
    let e = subtree_end(s, i);
    Seq::new((e - i) as nat, |k: int| s[i + k].id)
}

/// The flattened forest after removing the whole subtree of `id`.
pub open spec fn spec_remove_subtree(s: Seq<SnapshotNode>, id: u64) -> Seq<SnapshotNode> {
    let i = idx_of(s, id);
    let e = subtree_end(s, i);
    s.take(i) + s.skip(e)
}

/// In a depth-well-formed forest no node is deeper than its position.
pub proof fn lemma_depth_le_idx(s: Seq<SnapshotNode>, i: int)
    requires
        depth_wf(s),
        0 <= i < s.len(),
    ensures
        s[i].depth <= i,
    decreases i,
{
    if i > 0 {
        lemma_depth_le_idx(s, i - 1);
    }
}

/// With distinct ids, any position holding `id` is the position of `id`.
pub proof fn lemma_idx_of_unique(s: Seq<SnapshotNode>, j: int)
    requires
        ids_distinct(s),
        0 <= j < s.len(),
    ensures
        idx_of(s, s[j].id) == j,
{
    let id = s[j].id;
    assert(contains_id(s, id));
    let i = idx_of(s, id);
    assert(0 <= i < s.len() && s[i].id == id);
    if i < j {
        assert(s[i].id != s[j].id);
    } else if j < i {
        assert(s[j].id != s[i].id);
    }
}

/// Attaching a fresh id keeps the forest well formed and adds exactly it.
#[verifier::rlimit(50)]
pub proof fn lemma_insert_under_wf(s: Seq<SnapshotNode>, parent: Option<u64>, id: u64)
    requires
        forest_wf(s),
        s.len() <= u64::MAX,
        !contains_id(s, id),
        parent matches Some(p) ==> contains_id(s, p),
    ensures
        forest_wf(spec_insert_under(s, parent, id)),
        spec_insert_under(s, parent, id).len() == s.len() + 1,
        contains_id(spec_insert_under(s, parent, id), id),
        forall|x: u64|
            #[trigger] contains_id(spec_insert_under(s, parent, id), x)
                <==> (contains_id(s, x) || x == id),
{
    let t = spec_insert_under(s, parent, id);
    match parent {
        None => {
            assert(t =~= s.push(SnapshotNode { id, depth: 0 }));
            assert(depth_wf(t)) by {
                assert(forall|i: int| 0 <= i < s.len() ==> t[i] == s[i]);
            }
            assert forall|i: int| 0 <= i < s.len() implies (#[trigger] s[i].id) != id by {
                if s[i].id == id {
                    assert(contains_id(s, id));
                }
            }
            assert(ids_distinct(t)) by {
                assert(forall|i: int| 0 <= i < s.len() ==> t[i] == s[i]);
            }
            assert(t[s.len() as int].id == id);
            assert forall|x: u64| #[trigger] contains_id(t, x) implies
                (contains_id(s, x) || x == id) by {
                let i = choose|i: int| 0 <= i < t.len() && (#[trigger] t[i].id) == x;
                if i < s.len() {
                    assert(s[i].id == x);
                }
            }
            assert forall|x: u64| contains_id(s, x) implies #[trigger] contains_id(t, x) by {
                let i = choose|i: int| 0 <= i < s.len() && (#[trigger] s[i].id) == x;
                assert(t[i].id == x);
            }
        },
        Some(p) => {
            let i = idx_of(s, p);
            assert(0 <= i < s.len() && s[i].id == p);
            lemma_subtree_end(s, i);
            let e = subtree_end(s, i);
            let d = s[i].depth as int;
            lemma_depth_le_idx(s, i);
            let node = SnapshotNode { id, depth: (s[i].depth + 1) as u64 };
            assert(s[i].depth + 1 <= u64::MAX);
            assert(node.depth == d + 1);
            assert(t == s.insert(e, node));
            assert(t.len() == s.len() + 1);
            assert(forall|j: int| 0 <= j < e ==> t[j] == s[j]);
            assert(t[e] == node);
            assert(forall|j: int| e < j < t.len() ==> t[j] == s[j - 1]);
            assert(depth_wf(t)) by {
                assert(t[0].depth == 0);
                assert forall|j: int| 1 <= j < t.len() implies
                    (#[trigger] t[j].depth) <= t[j - 1].depth + 1 by {
                    if j < e {
                        assert(t[j] == s[j] && t[j - 1] == s[j - 1]);
                    } else if j == e {
                        if j - 1 == i {
                            assert(t[j - 1].depth == d);
                        } else {
                            assert(i < j - 1 < e);
                            assert(s[j - 1].depth > d);
                        }
                    } else if j == e + 1 {
                        assert(t[j] == s[e]);
                        assert(s[e].depth <= d);
                    } else {
                        assert(t[j] == s[j - 1] && t[j - 1] == s[j - 2]);
                    }
                }
            }
            assert forall|j: int| 0 <= j < s.len() implies (#[trigger] s[j].id) != id by {
                if s[j].id == id {
                    assert(contains_id(s, id));
                }
            }
            assert(ids_distinct(t)) by {
                assert forall|a: int, b: int| 0 <= a < b < t.len() implies
                    (#[trigger] t[a].id) != (#[trigger] t[b].id) by {
                    let a0: int = if a < e { a } else { a - 1 };
                    let b0: int = if b < e { b } else { b - 1 };
                    if a == e {
                        assert(t[a].id == id && t[b].id == s[b0].id);
                    } else if b == e {
                        assert(t[b].id == id && t[a].id == s[a0].id);
                    } else {
                        assert(t[a].id == s[a0].id && t[b].id == s[b0].id);
                        assert(a0 < b0);
                    }
                }
            }
            assert(t[e].id == id);
            assert forall|x: u64| #[trigger] contains_id(t, x) implies
                (contains_id(s, x) || x == id) by {
                let j = choose|j: int| 0 <= j < t.len() && (#[trigger] t[j].id) == x;
                if j < e {
                    assert(s[j].id == x);
                } else if j > e {
                    assert(s[j - 1].id == x);
                }
            }
            assert forall|x: u64| contains_id(s, x) implies #[trigger] contains_id(t, x) by {
                let j = choose|j: int| 0 <= j < s.len() && (#[trigger] s[j].id) == x;
                if j < e {
                    assert(t[j].id == x);
                } else {
                    assert(t[j + 1].id == x);
                }
            }
        },
    }
}

/// Removing a whole subtree keeps the forest well formed and removes
/// exactly the subtree's ids.
pub proof fn lemma_remove_subtree_wf(s: Seq<SnapshotNode>, id: u64)
    requires
        forest_wf(s),
        contains_id(s, id),
    ensures
        forest_wf(spec_remove_subtree(s, id)),
        !contains_id(spec_remove_subtree(s, id), id),
        forall|x: u64|
            #[trigger] contains_id(spec_remove_subtree(s, id), x)
                ==> contains_id(s, x),
        forall|x: u64|
            contains_id(s, x) && !spec_subtree_ids(s, id).contains(x)
                ==> #[trigger] contains_id(spec_remove_subtree(s, id), x),
        forall|x: u64|
            #[trigger] contains_id(spec_remove_subtree(s, id), x)
                ==> !spec_subtree_ids(s, id).contains(x),
{
    let i = idx_of(s, id);
    assert(0 <= i < s.len() && s[i].id == id);
    lemma_subtree_end(s, i);
    let e = subtree_end(s, i);
    let t = spec_remove_subtree(s, id);
    let sub = spec_subtree_ids(s, id);
    assert(t.len() == s.len() - (e - i));
    assert(forall|j: int| 0 <= j < i ==> t[j] == s[j]);
    assert(forall|j: int| i <= j < t.len() ==> t[j] == s[j + (e - i)]);
    assert(forall|k: int| 0 <= k < e - i ==> sub[k] == s[i + k].id);
    assert(depth_wf(t)) by {
        if t.len() > 0 {
            if i == 0 {
                assert(t[0] == s[e]);
                assert(s[e].depth <= s[0].depth);
            }
        }
        assert forall|j: int| 1 <= j < t.len() implies
            (#[trigger] t[j].depth) <= t[j - 1].depth + 1 by {
            if j < i {
            } else if j == i {
                assert(t[j] == s[e]);
                assert(t[j - 1] == s[i - 1]);
                assert(s[e].depth <= s[i].depth <= s[i - 1].depth + 1);
            } else {
                assert(t[j] == s[j + (e - i)] && t[j - 1] == s[j - 1 + (e - i)]);
            }
        }
    }
    assert(ids_distinct(t)) by {
        assert forall|a: int, b: int| 0 <= a < b < t.len() implies
            (#[trigger] t[a].id) != (#[trigger] t[b].id) by {
            let a0: int = if a < i { a } else { a + (e - i) };
            let b0: int = if b < i { b } else { b + (e - i) };
            assert(t[a].id == s[a0].id && t[b].id == s[b0].id);
            assert(a0 < b0);
        }
    }
    assert forall|x: u64| #[trigger] contains_id(t, x) implies
        (contains_id(s, x) && !sub.contains(x)) by {
        let j = choose|j: int| 0 <= j < t.len() && (#[trigger] t[j].id) == x;
        let j0: int = if j < i { j } else { j + (e - i) };
        assert(s[j0].id == x);
        if sub.contains(x) {
            let k = choose|k: int| 0 <= k < sub.len() && sub[k] == x;
            assert(s[i + k].id == x);
            assert(i + k != j0);
            assert(s[i + k].id != s[j0].id || s[j0].id != s[i + k].id);
        }
    }
    assert forall|x: u64| contains_id(s, x) && !sub.contains(x) implies
        #[trigger] contains_id(t, x) by {
        let j = choose|j: int| 0 <= j < s.len() && (#[trigger] s[j].id) == x;
        if j < i {
            assert(t[j].id == x);
        } else if j >= e {
            assert(t[j - (e - i)].id == x);
        } else {
            assert(sub[j - i] == x);
        }
    }
    assert(sub[0] == id);
    assert(sub.contains(id));
}

/// The ordered collection of snapshot nodes, kept flattened in pre-order.
pub struct SnapshotForest {
    nodes: Vec<SnapshotNode>,
}

impl View for SnapshotForest {
    type V = Seq<SnapshotNode>;

    closed spec fn view(&self) -> Seq<SnapshotNode> {
        self.nodes@
    }
}

impl SnapshotForest {
    pub open spec fn wf(&self) -> bool {
        forest_wf(self@)
    }

    /// An empty forest.
    pub fn new() -> (r: SnapshotForest)
        ensures
            r@ =~= Seq::<SnapshotNode>::empty(),
            r.wf(),
    {
        SnapshotForest { nodes: Vec::new() }
    }

    /// Builds a forest from flattened nodes, refusing malformed input.
    pub fn from_nodes(nodes: Vec<SnapshotNode>) -> (r: Result<SnapshotForest, Error>)
        ensures
            match r {
                Ok(f) => f@ == nodes@ && f.wf(),
                Err(e) => !forest_wf(nodes@) && e == (Error::Io { id: 0 }),
            },
    {
        let n = nodes.len();
        if n > 0 {
            if nodes[0].depth != 0 {
                return Err(Error::Io { id: 0 });
            }
            let mut i: usize = 1;
            while i < n
                invariant
                    1 <= i <= n,
                    n == nodes@.len(),
                    nodes@[0].depth == 0,
                    forall|j: int| 1 <= j < i ==> (#[trigger] nodes@[j].depth) <= nodes@[j - 1].depth + 1,
                decreases n - i,
            {
                if nodes[i].depth > nodes[i - 1].depth && nodes[i].depth - nodes[i - 1].depth > 1 {
                    return Err(Error::Io { id: 0 });
                }
                i = i + 1;
            }
        }
        let mut a: usize = 0;
        while a < n
            invariant
                a <= n,
                n == nodes@.len(),
                forall|i: int, j: int|
                    0 <= i < j < nodes@.len() && i < a
                        ==> (#[trigger] nodes@[i].id) != (#[trigger] nodes@[j].id),
            decreases n - a,
        {
            let mut b: usize = a + 1;
            while b < n
                invariant
                    a < b <= n,
                    n == nodes@.len(),
                    forall|j: int| a < j < b ==> (#[trigger] nodes@[j].id) != nodes@[a as int].id,
                decreases n - b,
            {
                if nodes[b].id == nodes[a].id {
                    return Err(Error::Io { id: 0 });
                }
                b = b + 1;
            }
            a = a + 1;
        }
        Ok(SnapshotForest { nodes })
    }

    /// The flattened nodes, pre-order, for inspection.
    pub fn node_list(&self) -> (r: &Vec<SnapshotNode>)
        ensures
            r@ == self@,
    {
        &self.nodes
    }

    pub fn contains(&self, id: u64) -> (r: bool)
        ensures
            r == contains_id(self@, id),
    {
        let mut i: usize = 0;
        while i < self.nodes.len()
            invariant
                i <= self@.len(),
                forall|j: int| 0 <= j < i ==> (#[trigger] self@[j].id) != id,
            decreases self@.len() - i,
        {
            if self.nodes[i].id == id {
                return true;
            }
            i = i + 1;
        }
        false
    }

    /// The position of `id` among the flattened nodes.
    fn position_of(&self, id: u64) -> (r: Option<usize>)
        ensures
            match r {
                Some(i) => i < self@.len() && self@[i as int].id == id,
                None => !contains_id(self@, id),
            },
    {
        let mut i: usize = 0;
        while i < self.nodes.len()
            invariant
                i <= self@.len(),
                forall|j: int| 0 <= j < i ==> (#[trigger] self@[j].id) != id,
            decreases self@.len() - i,
        {
            if self.nodes[i].id == id {
                return Some(i);
            }
            i = i + 1;
        }
        None
    }

    /// The position just past the subtree of the node at position `i`.
    fn subtree_end_at(&self, i: usize) -> (e: usize)
        requires
            i < self@.len(),
        ensures
            e == subtree_end(self@, i as int),
            i < e <= self@.len(),
    {
        proof {
            lemma_subtree_end(self@, i as int);
        }
        let n = self.nodes.len();
        let d = self.nodes[i].depth;
        let mut j: usize = i + 1;
        while j < self.nodes.len() && self.nodes[j].depth > d
            invariant
                i < j <= self@.len(),
                d == self@[i as int].depth,
                shallower_from(self@, d as int, i as int + 1)
                    == shallower_from(self@, d as int, j as int),
            decreases self@.len() - j,
        {
            proof {
                assert(shallower_from(self@, d as int, j as int)
                    == shallower_from(self@, d as int, j as int + 1));
            }
            j = j + 1;
        }
        proof {
            assert(shallower_from(self@, d as int, j as int) == j as int);
        }
        j
    }

    /// The parent of `id`, or `None` when `id` is a root.
    pub fn get_parent(&self, id: u64) -> (r: Result<Option<u64>, Error>)
        requires
            self.wf(),
        ensures
            match r {
                Ok(p) => contains_id(self@, id) && p == parent_of(self@, id),
                Err(e) => !contains_id(self@, id) && e == (Error::NotFound { id }),
            },
    {
        let i = match self.position_of(id) {
            Some(i) => i,
            None => {
                return Err(Error::NotFound { id });
            },
        };
        proof {
            lemma_idx_of_unique(self@, i as int);
        }
        let d = self.nodes[i].depth;
        if d == 0 {
            return Ok(None);
        }
        proof {
            lemma_parent_idx(self@, i as int);
        }
        let mut j: usize = i;
        while j > 0
            invariant
                0 <= j <= i,
                i < self@.len(),
                d == self@[i as int].depth,
                d > 0,
                forest_wf(self@),
                self@[i as int].id == id,
                i == idx_of(self@, id),
                last_at_depth_before(self@, d - 1, i as int)
                    == last_at_depth_before(self@, d - 1, j as int),
            decreases j,
        {
            if self.nodes[j - 1].depth == d - 1 {
                proof {
                    assert(last_at_depth_before(self@, d - 1, j as int) == j - 1);
                }
                return Ok(Some(self.nodes[j - 1].id));
            }
            proof {
                assert(last_at_depth_before(self@, d - 1, j as int)
                    == last_at_depth_before(self@, d - 1, j as int - 1));
            }
            j = j - 1;
        }
        proof {
            lemma_parent_idx(self@, i as int);
            assert(last_at_depth_before(self@, d - 1, 0) == -1);
            assert(false);
        }
        Err(Error::NotFound { id })
    }

    /// The pre-order ids of the subtree rooted at `id`, `id` itself first.
    pub fn children_of(&self, id: u64) -> (r: Result<Vec<u64>, Error>)
        requires
            self.wf(),
        ensures
            match r {
                Ok(v) => contains_id(self@, id) && v@ == spec_subtree_ids(self@, id),
                Err(e) => !contains_id(self@, id) && e == (Error::NotFound { id }),
            },
    {
        let i = match self.position_of(id) {
            Some(i) => i,
            None => {
                return Err(Error::NotFound { id });
            },
        };
        proof {
            lemma_idx_of_unique(self@, i as int);
        }
        let e = self.subtree_end_at(i);
        let mut v: Vec<u64> = Vec::new();
        let mut k: usize = i;
        while k < e
            invariant
                i <= k <= e <= self@.len(),
                v@ =~= Seq::new((k - i) as nat, |m: int| self@[i + m].id),
            decreases e - k,
        {
            v.push(self.nodes[k].id);
            k = k + 1;
        }
        proof {
            assert(v@ =~= spec_subtree_ids(self@, id));
        }
        Ok(v)
    }

    /// The whole subtree of `id` as flattened nodes, `id`'s node first,
    /// depths as they stand in the forest.
    pub fn subtree_nodes(&self, id: u64) -> (r: Result<Vec<SnapshotNode>, Error>)
        requires
            self.wf(),
        ensures
            match r {
                Ok(v) => contains_id(self@, id)
                    && v@ == self@.subrange(
                        idx_of(self@, id),
                        subtree_end(self@, idx_of(self@, id)),
                    ),
                Err(e) => !contains_id(self@, id) && e == (Error::NotFound { id }),
            },
    {
        let i = match self.position_of(id) {
            Some(i) => i,
            None => {
                return Err(Error::NotFound { id });
            },
        };
        proof {
            lemma_idx_of_unique(self@, i as int);
        }
        let e = self.subtree_end_at(i);
        let mut v: Vec<SnapshotNode> = Vec::new();
        let mut k: usize = i;
        while k < e
            invariant
                i <= k <= e <= self@.len(),
                v@ =~= self@.subrange(i as int, k as int),
            decreases e - k,
        {
            v.push(self.nodes[k]);
            proof {
                assert(v@ =~= self@.subrange(i as int, k as int + 1));
            }
            k = k + 1;
        }
        Ok(v)
    }

    /// The pre-order ids strictly below `id`: its subtree without `id`.
    pub fn return_children(&self, id: u64) -> (r: Result<Vec<u64>, Error>)
        requires
            self.wf(),
        ensures
            match r {
                Ok(v) => contains_id(self@, id) && v@ == spec_subtree_ids(self@, id).skip(1),
                Err(e) => !contains_id(self@, id) && e == (Error::NotFound { id }),
            },
    {
        let mut v = self.children_of(id)?;
        proof {
            lemma_idx_of_unique(self@, idx_of(self@, id));
            lemma_subtree_end(self@, idx_of(self@, id));
        }
        let r = v.remove(0);
        proof {
            assert(v@ =~= spec_subtree_ids(self@, id).skip(1));
        }
        Ok(v)
    }

    /// Attaches `id` as a new root after all existing roots.
    pub fn append_base_tree(&mut self, id: u64) -> (r: Result<(), Error>)
        requires
            old(self).wf(),
        ensures
            match r {
                Ok(()) => {
                    &&& !contains_id(old(self)@, id)
                    &&& final(self)@ == spec_insert_under(old(self)@, None, id)
                    &&& final(self).wf()
                },
                Err(e) => {
                    &&& final(self)@ == old(self)@
                    &&& contains_id(old(self)@, id)
                    &&& e == (Error::Conflict { id })
                },
            },
    {
        if self.contains(id) {
            return Err(Error::Conflict { id });
        }
        let n = self.nodes.len();
        proof {
            assert(self@.len() == n <= u64::MAX);
            lemma_insert_under_wf(self@, None, id);
        }
        self.nodes.push(SnapshotNode { id, depth: 0 });
        Ok(())
    }

    /// Attaches `id` as the last child of `parent`.
    pub fn add_node_to_parent(&mut self, parent: u64, id: u64) -> (r: Result<(), Error>)
        requires
            old(self).wf(),
        ensures
            match r {
                Ok(()) => {
                    &&& contains_id(old(self)@, parent)
                    &&& !contains_id(old(self)@, id)
                    &&& final(self)@ == spec_insert_under(old(self)@, Some(parent), id)
                    &&& final(self).wf()
                },
                Err(e) => {
                    &&& final(self)@ == old(self)@
                    &&& (e == (Error::NotFound { id: parent }) && !contains_id(old(self)@, parent)
                        || e == (Error::Conflict { id }) && contains_id(old(self)@, parent)
                            && contains_id(old(self)@, id))
                },
            },
    {
        let i = match self.position_of(parent) {
            Some(i) => i,
            None => {
                return Err(Error::NotFound { id: parent });
            },
        };
        if self.contains(id) {
            return Err(Error::Conflict { id });
        }
        let n = self.nodes.len();
        proof {
            assert(self@.len() == n <= u64::MAX);
            lemma_idx_of_unique(self@, i as int);
            lemma_insert_under_wf(self@, Some(parent), id);
            lemma_depth_le_idx(self@, i as int);
        }
        let e = self.subtree_end_at(i);
        let d = self.nodes[i].depth;
        self.nodes.insert(e, SnapshotNode { id, depth: d + 1 });
        Ok(())
    }

    /// Attaches `id` as a sibling of `sibling`: the last child of
    /// `sibling`'s parent, or a new root when `sibling` is a root.
    pub fn add_node_to_level(&mut self, sibling: u64, id: u64) -> (r: Result<(), Error>)
        requires
            old(self).wf(),
        ensures
            match r {
                Ok(()) => {
                    &&& contains_id(old(self)@, sibling)
                    &&& !contains_id(old(self)@, id)
                    &&& final(self)@ == spec_insert_under(old(self)@, parent_of(old(self)@, sibling), id)
                    &&& final(self).wf()
                },
                Err(e) => {
                    &&& final(self)@ == old(self)@
                    &&& (e == (Error::NotFound { id: sibling }) && !contains_id(old(self)@, sibling)
                        || e == (Error::Conflict { id }) && contains_id(old(self)@, sibling)
                            && contains_id(old(self)@, id))
                },
            },
    {
        let p = match self.get_parent(sibling) {
            Ok(p) => p,
            Err(_) => {
                return Err(Error::NotFound { id: sibling });
            },
        };
        match p {
            None => {
                match self.append_base_tree(id) {
                    Ok(()) => Ok(()),
                    Err(_) => Err(Error::Conflict { id }),
                }
            },
            Some(p) => {
                proof {
                    let si = idx_of(self@, sibling);
                    lemma_parent_idx(self@, si);
                    lemma_idx_of_unique(self@, parent_idx(self@, si));
                }
                match self.add_node_to_parent(p, id) {
                    Ok(()) => Ok(()),
                    Err(e) => {
                        proof {
                            assert(contains_id(self@, p));
                        }
                        Err(Error::Conflict { id })
                    },
                }
            },
        }
    }

    /// The order for working through a whole subtree: for every node
    /// strictly below `id`, in pre-order, its parent's id and then its
    /// own id.
    pub fn recurse_tree(&self, id: u64) -> (r: Result<Vec<u64>, Error>)
        requires
            self.wf(),
        ensures
            match r {
                Ok(v) => {
                    let i0 = idx_of(self@, id);
                    let e0 = subtree_end(self@, i0);
                    &&& contains_id(self@, id)
                    &&& v@.len() == 2 * (e0 - i0 - 1)
                    &&& (forall|m: int|
                        1 <= m < e0 - i0
                            ==> (#[trigger] v@[2 * (m - 1)])
                                == self@[parent_idx(self@, i0 + m)].id
                                && v@[2 * (m - 1) + 1] == self@[i0 + m].id)
                },
                Err(e) => !contains_id(self@, id) && e == (Error::NotFound { id }),
            },
    {
        let slice = self.subtree_nodes(id)?;
        let ghost i0 = idx_of(self@, id);
        let ghost e0 = subtree_end(self@, i0);
        proof {
            assert(0 <= i0 < self@.len() && self@[i0].id == id);
            lemma_subtree_end(self@, i0);
        }
        let sl = slice.len();
        let mut v: Vec<u64> = Vec::new();
        let mut k: usize = 1;
        while k < sl
            invariant
                1 <= k <= sl,
                sl == e0 - i0,
                0 <= i0 < e0 <= self@.len(),
                i0 == idx_of(self@, id),
                e0 == subtree_end(self@, i0),
                self.wf(),
                contains_id(self@, id),
                slice@ == self@.subrange(i0, e0),
                forall|m: int| i0 < m < e0 ==> (#[trigger] self@[m].depth) > self@[i0].depth,
                v@.len() == 2 * (k - 1),
                forall|m: int|
                    1 <= m < k
                        ==> (#[trigger] v@[2 * (m - 1)]) == self@[parent_idx(self@, i0 + m)].id
                            && v@[2 * (m - 1) + 1] == self@[i0 + m].id,
            decreases sl - k,
        {
            let child = slice[k].id;
            let ghost vpre = v@;
            proof {
                assert(slice@[k as int] == self@[i0 + k]);
                lemma_idx_of_unique(self@, i0 + k);
                assert(self@[i0 + k].depth > 0);
                lemma_parent_idx(self@, i0 + k);
            }
            match self.get_parent(child) {
                Ok(Some(p)) => {
                    proof {
                        assert(idx_of(self@, child) == i0 + k);
                        assert(p == self@[parent_idx(self@, i0 + k)].id);
                    }
                    v.push(p);
                    v.push(child);
                    proof {
                        assert(v@.len() == 2 * k);
                        assert(v@[2 * (k - 1)] == self@[parent_idx(self@, i0 + k)].id);
                        assert(v@[2 * (k - 1) + 1] == self@[i0 + k].id);
                        assert(forall|m: int|
                            1 <= m < k ==> #[trigger] v@[2 * (m - 1)] == vpre[2 * (m - 1)]
                                && v@[2 * (m - 1) + 1] == vpre[2 * (m - 1) + 1]);
                    }
                },
                _ => {
                    proof {
                        assert(false);
                    }
                },
            }
            k = k + 1;
        }
        Ok(v)
    }

    /// Removes `id` and its whole subtree, returning the removed ids in
    /// pre-order (each parent before its children).
    pub fn remove_subtree(&mut self, id: u64) -> (r: Result<Vec<u64>, Error>)
        requires
            old(self).wf(),
        ensures
            match r {
                Ok(v) => {
                    &&& contains_id(old(self)@, id)
                    &&& v@ == spec_subtree_ids(old(self)@, id)
                    &&& final(self)@ == spec_remove_subtree(old(self)@, id)
                    &&& final(self).wf()
                },
                Err(e) => {
                    &&& final(self)@ == old(self)@
                    &&& !contains_id(old(self)@, id)
                    &&& e == (Error::NotFound { id })
                },
            },
    {
        let v = self.children_of(id)?;
        let i = match self.position_of(id) {
            Some(i) => i,
            None => {
                proof {
                    assert(false);
                }
                return Err(Error::NotFound { id });
            },
        };
        proof {
            lemma_idx_of_unique(self@, i as int);
            lemma_remove_subtree_wf(self@, id);
            lemma_subtree_end(self@, i as int);
        }
        let e = self.subtree_end_at(i);
        let ghost s0 = self@;
        let mut t: usize = 0;
        while t < e - i
            invariant
                0 <= t <= e - i,
                i < e <= s0.len(),
                self@.len() == s0.len() - t,
                i <= self@.len(),
                self@ =~= s0.take(i as int) + s0.skip(i as int + t),
            decreases e - i - t,
        {
            let _ = self.nodes.remove(i);
            proof {
                assert(self@ =~= s0.take(i as int) + s0.skip(i as int + t + 1));
            }
            t = t + 1;
        }
        proof {
            assert(self@ =~= spec_remove_subtree(s0, id));
        }
        Ok(v)
    }
}

} // verus!
