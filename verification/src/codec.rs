//! The persisted forest file: one line, a nested textual encoding of
//! `{id: {child_id: {...}}}`.
//!
//! `save` prints the flattened pre-order forest; `load` parses it back.
//! The two round-trip exactly: loading a saved forest returns the same
//! forest, node for node.

use vstd::prelude::*;
use crate::forest::{SnapshotNode, SnapshotForest, forest_wf, depth_wf};
use crate::num::{dec_digits, dec_value, digit_end, is_digit, parse_dec_fails,
    parse_dec, u64_to_dec, lemma_dec_digits_wf, lemma_digit_end_concat, lemma_digit_end_bounds};
use crate::Error;

verus! {

pub const B_OPEN: u8 = 123;

pub const B_CLOSE: u8 = 125;

pub const B_COLON: u8 = 58;

pub const B_COMMA: u8 = 44;

pub const B_SPACE: u8 = 32;

/// `k` closing braces.
pub open spec fn close_run(k: int) -> Seq<u8>
    decreases k when k >= 0
{
    if k <= 0 {
        Seq::empty()
    } else {
        close_run(k - 1).push(B_CLOSE)
    }
}

pub proof fn lemma_close_run(k: int)
    requires
        k >= 0,
    ensures
        close_run(k).len() == k,
        forall|i: int| 0 <= i < k ==> close_run(k)[i] == B_CLOSE,
    decreases k,
{
    if k > 0 {
        lemma_close_run(k - 1);
    }
}

/// What stands between two consecutive nodes: nothing before a first
/// child, or the braces closing the finished subtrees and a comma.
pub open spec fn sep_bytes(dprev: int, d: int) -> Seq<u8> {
    if d == dprev + 1 {
        Seq::empty()
    } else {
        close_run(dprev - d + 1) + seq![B_COMMA, B_SPACE]
    }
}

/// A node's own text: its id, then a colon opening its children.
pub open spec fn entry_bytes(id: u64) -> Seq<u8> {
    dec_digits(id as nat) + seq![B_COLON, B_SPACE, B_OPEN]
}

/// The depth of the node printed just before position `k`, `-1` at the start.
pub open spec fn depth_before(s: Seq<SnapshotNode>, k: int) -> int {
    if k == 0 {
        -1
    } else {
        s[k - 1].depth as int
    }
}

/// The encoding of the nodes from position `k` on, closing braces included.
pub open spec fn tail_bytes(s: Seq<SnapshotNode>, k: int, dprev: int) -> Seq<u8>
    decreases s.len() - k when 0 <= k <= s.len()
{
    if k >= s.len() {
        close_run(dprev + 2)
    } else {
        sep_bytes(dprev, s[k].depth as int) + entry_bytes(s[k].id)
            + tail_bytes(s, k + 1, s[k].depth as int)
    }
}

/// The whole persisted line for a flattened forest.
pub open spec fn spec_save(s: Seq<SnapshotNode>) -> Seq<u8> {
    seq![B_OPEN] + tail_bytes(s, 0, -1)
}

/// The encoding of the first `k` nodes, braces still open.
pub open spec fn head_bytes(s: Seq<SnapshotNode>, k: int) -> Seq<u8>
    decreases k when 0 <= k <= s.len()
{
    if k <= 0 {
        seq![B_OPEN]
    } else {
        head_bytes(s, k - 1) + sep_bytes(depth_before(s, k - 1), s[k - 1].depth as int)
            + entry_bytes(s[k - 1].id)
    }
}

/// The whole line is any head followed by the matching tail.
pub proof fn lemma_head_tail(s: Seq<SnapshotNode>, k: int)
    requires
        0 <= k <= s.len(),
    ensures
        spec_save(s) =~= head_bytes(s, k) + tail_bytes(s, k, depth_before(s, k)),
    decreases k,
{
    if k == 0 {
    } else {
        lemma_head_tail(s, k - 1);
        assert(tail_bytes(s, k - 1, depth_before(s, k - 1))
            == sep_bytes(depth_before(s, k - 1), s[k - 1].depth as int)
                + entry_bytes(s[k - 1].id) + tail_bytes(s, k, s[k - 1].depth as int));
        assert(head_bytes(s, k) + tail_bytes(s, k, depth_before(s, k))
            =~= head_bytes(s, k - 1) + tail_bytes(s, k - 1, depth_before(s, k - 1)));
    }
}

/// The mathematical parser, one step per brace or entry.
pub open spec fn spec_load_loop(
    t: Seq<u8>,
    d: int,
    jo: bool,
    acc: Seq<SnapshotNode>,
) -> Option<Seq<SnapshotNode>>
    decreases t.len() via spec_load_loop_dec
{
    if t.len() == 0 {
        None
    } else if t[0] == B_CLOSE {
        if d == 0 {
            if t.len() == 1 {
                Some(acc)
            } else {
                None
            }
        } else {
            spec_load_loop(t.skip(1), d - 1, false, acc)
        }
    } else if !jo && !(t.len() >= 2 && t[0] == B_COMMA && t[1] == B_SPACE) {
        None
    } else {
        let t1 = if jo {
            t
        } else {
            t.skip(2)
        };
        if parse_dec_fails(t1, 0) {
            None
        } else {
            let e = digit_end(t1, 0);
            if t1.len() >= e + 3 && t1[e] == B_COLON && t1[e + 1] == B_SPACE
                && t1[e + 2] == B_OPEN {
                spec_load_loop(
                    t1.skip(e + 3),
                    d + 1,
                    true,
                    acc.push(SnapshotNode {
                        id: dec_value(t1.subrange(0, e)) as u64,
                        depth: d as u64,
                    }),
                )
            } else {
                None
            }
        }
    }
}

#[via_fn]
proof fn spec_load_loop_dec(t: Seq<u8>, d: int, jo: bool, acc: Seq<SnapshotNode>) {
    if t.len() != 0 && t[0] != B_CLOSE {
        if jo || (t.len() >= 2 && t[0] == B_COMMA && t[1] == B_SPACE) {
            let t1 = if jo {
                t
            } else {
                t.skip(2)
            };
            if !parse_dec_fails(t1, 0) {
                lemma_digit_end_bounds(t1, 0);
            }
        }
    }
}

/// The mathematical parser for a whole line.
pub open spec fn spec_load(t: Seq<u8>) -> Option<Seq<SnapshotNode>> {
    if t.len() >= 1 && t[0] == B_OPEN {
        spec_load_loop(t.skip(1), 0, true, Seq::empty())
    } else {
        None
    }
}

/// A run of `m + 1` closing braces ends the parse at nesting `m`.
proof fn lemma_load_closes(m: int, jo: bool, acc: Seq<SnapshotNode>)
    requires
        m >= 0,
    ensures
        spec_load_loop(close_run(m + 1), m, jo, acc) == Some(acc),
    decreases m,
{
    lemma_close_run(m + 1);
    let t = close_run(m + 1);
    assert(t[0] == B_CLOSE);
    if m == 0 {
        assert(t.len() == 1);
    } else {
        lemma_close_run(m);
        assert(t.skip(1) =~= close_run(m));
        lemma_load_closes(m - 1, false, acc);
    }
}

/// `m` closing braces at nesting `d >= m` step the parse down to `d - m`.
proof fn lemma_load_closes_then(m: int, rest: Seq<u8>, d: int, jo: bool, acc: Seq<SnapshotNode>)
    requires
        1 <= m <= d,
    ensures
        spec_load_loop(close_run(m) + rest, d, jo, acc)
            == spec_load_loop(rest, d - m, false, acc),
    decreases m,
{
    lemma_close_run(m);
    let t = close_run(m) + rest;
    assert(t[0] == B_CLOSE);
    assert(t.len() > 0);
    assert(t.skip(1) =~= close_run(m - 1) + rest) by {
        lemma_close_run(m - 1);
    }
    if m == 1 {
        assert(close_run(0) + rest =~= rest);
    } else {
        lemma_load_closes_then(m - 1, rest, d - 1, false, acc);
    }
}

/// One entry (after its separator when one is due) records one node and
/// opens its children.
proof fn lemma_load_entry(id: u64, rest: Seq<u8>, d: int, jo: bool, acc: Seq<SnapshotNode>)
    requires
        0 <= d <= u64::MAX,
    ensures
        spec_load_loop(
            (if jo { Seq::<u8>::empty() } else { seq![B_COMMA, B_SPACE] })
                + entry_bytes(id) + rest,
            d,
            jo,
            acc,
        ) == spec_load_loop(rest, d + 1, true, acc.push(SnapshotNode { id, depth: d as u64 })),
{
    lemma_dec_digits_wf(id as nat);
    let digits = dec_digits(id as nat);
    let ln = digits.len() as int;
    let pre: Seq<u8> = if jo { Seq::empty() } else { seq![B_COMMA, B_SPACE] };
    let t = pre + entry_bytes(id) + rest;
    let t1 = entry_bytes(id) + rest;
    assert(t1[0] == digits[0]);
    assert(is_digit(t1[0]));
    assert(t.len() > 0);
    if jo {
        assert(t =~= t1);
    } else {
        assert(t[0] == B_COMMA && t[1] == B_SPACE);
        assert(t[0] != B_CLOSE);
        assert(t.skip(2) =~= t1);
    }
    assert(forall|i: int| 0 <= i < ln ==> #[trigger] t1[i] == digits[i]);
    assert(t1[ln] == B_COLON && t1[ln + 1] == B_SPACE && t1[ln + 2] == B_OPEN);
    assert(!is_digit(B_COLON));
    lemma_digit_end_concat(t1, 0, ln);
    assert(digit_end(t1, 0) == ln);
    assert(t1.subrange(0, ln) =~= digits);
    assert(dec_value(t1.subrange(0, ln)) == id);
    assert(!parse_dec_fails(t1, 0));
    assert(t1.len() >= ln + 3);
    assert(t1.skip(ln + 3) =~= rest);
    assert(spec_load_loop(t, d, jo, acc)
        == spec_load_loop(rest, d + 1, true, acc.push(SnapshotNode { id, depth: d as u64 })));
}

/// The parser inverts the printer from any position `k` on.
proof fn lemma_load_tail(s: Seq<SnapshotNode>, k: int, acc: Seq<SnapshotNode>)
    requires
        depth_wf(s),
        0 <= k <= s.len(),
    ensures
        spec_load_loop(
            tail_bytes(s, k, depth_before(s, k)),
            depth_before(s, k) + 1,
            true,
            acc,
        ) == Some(acc + s.skip(k)),
    decreases s.len() - k,
{
    let dp = depth_before(s, k);
    if k == s.len() {
        lemma_load_closes(dp + 1, true, acc);
        assert(acc + s.skip(k) =~= acc);
    } else {
        let dk = s[k].depth as int;
        let idk = s[k].id;
        let rest = tail_bytes(s, k + 1, dk);
        assert(dk <= dp + 1);
        assert(dk >= 0);
        lemma_load_tail(s, k + 1, acc.push(s[k]));
        assert(depth_before(s, k + 1) == dk);
        assert(acc.push(s[k]) + s.skip(k + 1) =~= acc + s.skip(k));
        if dk == dp + 1 {
            assert(sep_bytes(dp, dk) =~= Seq::<u8>::empty());
            assert(tail_bytes(s, k, dp) =~= Seq::<u8>::empty() + entry_bytes(idk) + rest);
            lemma_load_entry(idk, rest, dp + 1, true, acc);
            assert(SnapshotNode { id: idk, depth: (dp + 1) as u64 } == s[k]);
        } else {
            let m = dp - dk + 1;
            assert(m >= 1);
            let rest2 = seq![B_COMMA, B_SPACE] + entry_bytes(idk) + rest;
            assert(tail_bytes(s, k, dp) =~= close_run(m) + rest2) by {
                lemma_close_run(m);
            }
            lemma_load_closes_then(m, rest2, dp + 1, true, acc);
            lemma_load_entry(idk, rest, dk, false, acc);
            assert(SnapshotNode { id: idk, depth: dk as u64 } == s[k]);
        }
    }
}

/// Round trip: parsing the saved encoding of a well-formed forest yields
/// exactly that forest, node for node.
pub proof fn lemma_save_load_roundtrip(s: Seq<SnapshotNode>)
    requires
        forest_wf(s),
    ensures
        spec_load(spec_save(s)) == Some(s),
{
    let t = spec_save(s);
    assert(t[0] == B_OPEN);
    assert(t.skip(1) =~= tail_bytes(s, 0, -1));
    lemma_load_tail(s, 0, Seq::empty());
    assert(Seq::<SnapshotNode>::empty() + s.skip(0) =~= s);
}

fn push_closes(out: &mut Vec<u8>, c: u64)
    ensures
        final(out)@ == old(out)@ + close_run(c as int),
{
    let mut j: u64 = 0;
    proof {
        assert(out@ =~= old(out)@ + close_run(0));
    }
    while j < c
        invariant
            j <= c,
            out@ == old(out)@ + close_run(j as int),
        decreases c - j,
    {
        out.push(B_CLOSE);
        proof {
            assert(out@ =~= old(out)@ + close_run(j as int + 1));
        }
        j = j + 1;
    }
}

/// Shifting the start of a digit run commutes with dropping a prefix.
proof fn lemma_digit_end_shift(t: Seq<u8>, from: int, j: int)
    requires
        0 <= from,
        0 <= j,
        from + j <= t.len(),
    ensures
        digit_end(t, from + j) == from + digit_end(t.skip(from), j),
    decreases t.len() - from - j,
{
    let u = t.skip(from);
    assert(u.len() == t.len() - from);
    if from + j < t.len() && is_digit(t[from + j]) {
        assert(u[j] == t[from + j]);
        lemma_digit_end_shift(t, from, j + 1);
    } else {
        if j < u.len() {
            assert(u[j] == t[from + j]);
        }
    }
}

/// Parses one persisted line into flattened nodes.
#[verifier::rlimit(100)]
fn parse_nodes(t: &Vec<u8>) -> (r: Option<Vec<SnapshotNode>>)
    ensures
        match r {
            Some(v) => spec_load(t@) == Some(v@),
            None => spec_load(t@) is None,
        },
{
    let n = t.len();
    if n == 0 || t[0] != B_OPEN {
        return None;
    }
    let mut i: usize = 1;
    let mut d: u64 = 0;
    let mut jo: bool = true;
    let mut out: Vec<SnapshotNode> = Vec::new();
    proof {
        assert(t@.skip(1) == t@.skip(i as int));
    }
    loop
        invariant
            1 <= i <= n,
            n == t@.len(),
            d as int <= i as int,
            spec_load_loop(t@.skip(i as int), d as int, jo, out@) == spec_load(t@),
        decreases n - i,
    {
        let ghost tt = t@.skip(i as int);
        if i >= n {
            return None;
        }
        assert(tt[0] == t@[i as int]);
        if t[i] == B_CLOSE {
            if d == 0 {
                if i + 1 == n {
                    assert(tt.len() == 1);
                    return Some(out);
                }
                return None;
            }
            proof {
                assert(tt.skip(1) =~= t@.skip(i as int + 1));
            }
            d = d - 1;
            jo = false;
            i = i + 1;
        } else {
            let start: usize = if jo {
                i
            } else {
                if i + 1 >= n || t[i] != B_COMMA || t[i + 1] != B_SPACE {
                    assert(tt.len() >= 2 ==> !(tt[0] == B_COMMA && tt[1] == B_SPACE)) by {
                        if tt.len() >= 2 {
                            assert(tt[1] == t@[i as int + 1]);
                        }
                    }
                    return None;
                }
                i + 2
            };
            let ghost t1 = if jo { tt } else { tt.skip(2) };
            proof {
                assert(t1 =~= t@.skip(start as int));
                lemma_digit_end_shift(t@, start as int, 0);
                assert(digit_end(t@, start as int) == start + digit_end(t1, 0));
            }
            match parse_dec(t, start) {
                None => {
                    proof {
                        lemma_digit_end_bounds(t@, start as int);
                        let e1 = digit_end(t1, 0);
                        assert(t@.subrange(start as int, start + e1) =~= t1.subrange(0, e1));
                        assert(parse_dec_fails(t1, 0));
                    }
                    return None;
                },
                Some(pair) => {
                    let val = pair.0;
                    let e = pair.1;
                    proof {
                        let e1 = digit_end(t1, 0);
                        assert(e == start + e1);
                        assert(t@.subrange(start as int, e as int) =~= t1.subrange(0, e1));
                        assert(!parse_dec_fails(t1, 0));
                    }
                    if n - e < 3 || t[e] != B_COLON || t[e + 1] != B_SPACE || t[e + 2] != B_OPEN {
                        proof {
                            let e1 = digit_end(t1, 0);
                            assert(e1 + 2 < t1.len() ==> {
                                &&& t1[e1] == t@[e as int]
                                &&& t1[e1 + 1] == t@[e as int + 1]
                                &&& t1[e1 + 2] == t@[e as int + 2]
                            });
                            assert(t1.len() >= e1 + 3 ==> e1 + 2 < t1.len());
                        }
                        return None;
                    }
                    proof {
                        let e1 = digit_end(t1, 0);
                        assert(t1.len() >= e1 + 3);
                        assert(t1[e1] == t@[e as int]);
                        assert(t1[e1 + 1] == t@[e as int + 1]);
                        assert(t1[e1 + 2] == t@[e as int + 2]);
                        assert(t1.skip(e1 + 3) =~= t@.skip(e as int + 3));
                    }
                    out.push(SnapshotNode { id: val, depth: d });
                    i = e + 3;
                    d = d + 1;
                    jo = true;
                },
            }
        }
    }
}

impl SnapshotForest {
    /// Prints the forest as its one-line persisted form.  Loading the
    /// result yields this forest again.
    pub fn save(&self) -> (r: Vec<u8>)
        requires
            self.wf(),
        ensures
            r@ == spec_save(self@),
            spec_load(r@) == Some(self@),
    {
        proof {
            lemma_save_load_roundtrip(self@);
        }
        let nodes = self.node_list();
        let n = nodes.len();
        let mut out: Vec<u8> = Vec::new();
        out.push(B_OPEN);
        proof {
            assert(out@ =~= head_bytes(self@, 0));
        }
        let mut k: usize = 0;
        while k < n
            invariant
                k <= n,
                n == self@.len(),
                nodes@ == self@,
                forest_wf(self@),
                out@ == head_bytes(self@, k as int),
            decreases n - k,
        {
            let ghost out0 = out@;
            let nd = nodes[k];
            if k > 0 {
                let dprev = nodes[k - 1].depth;
                proof {
                    crate::forest::lemma_depth_le_idx(self@, k as int - 1);
                    crate::forest::lemma_depth_le_idx(self@, k as int);
                }
                if nd.depth != dprev + 1 {
                    let c = dprev - nd.depth + 1;
                    push_closes(&mut out, c);
                    out.push(B_COMMA);
                    out.push(B_SPACE);
                    proof {
                        assert(out@ =~= out0
                            + sep_bytes(depth_before(self@, k as int), nd.depth as int));
                    }
                }
            }
            let mut digits = u64_to_dec(nd.id);
            out.append(&mut digits);
            out.push(B_COLON);
            out.push(B_SPACE);
            out.push(B_OPEN);
            proof {
                assert(out@ =~= out0
                    + sep_bytes(depth_before(self@, k as int), nd.depth as int)
                    + entry_bytes(nd.id));
                assert(out@ =~= head_bytes(self@, k as int + 1));
            }
            k = k + 1;
        }
        if n == 0 {
            out.push(B_CLOSE);
            proof {
                lemma_close_run(1);
                assert(close_run(1) =~= seq![B_CLOSE]);
                assert(out@ =~= head_bytes(self@, 0) + close_run(1));
                lemma_head_tail(self@, 0);
            }
        } else {
            let ghost out1 = out@;
            let dlast = nodes[n - 1].depth;
            proof {
                crate::forest::lemma_depth_le_idx(self@, n as int - 1);
            }
            push_closes(&mut out, dlast + 1);
            out.push(B_CLOSE);
            proof {
                assert(out@ =~= out1 + close_run(dlast as int + 2));
                assert(tail_bytes(self@, n as int, depth_before(self@, n as int))
                    == close_run(dlast as int + 2));
                lemma_head_tail(self@, n as int);
                assert(out@ =~= spec_save(self@));
            }
        }
        out
    }

    /// Parses one persisted line, refusing malformed or duplicated input.
    pub fn load(t: &Vec<u8>) -> (r: Result<SnapshotForest, Error>)
        ensures
            match r {
                Ok(f) => spec_load(t@) == Some(f@) && f.wf(),
                Err(e) => {
                    &&& e == (Error::Io { id: 0 })
                    &&& match spec_load(t@) {
                        Some(s) => !forest_wf(s),
                        None => true,
                    }
                },
            },
    {
        match parse_nodes(t) {
            None => Err(Error::Io { id: 0 }),
            Some(v) => SnapshotForest::from_nodes(v),
        }
    }
}

} // verus!
