//! Host state read at startup: which snapshot is live, which deployment
//! slot is active, and whether the host boots through EFI.
//!
//! The binary reads the well-known files and mount tables once and hands
//! their contents here; every decision over that text is verified.

use vstd::prelude::*;
use crate::num::{parse_dec, parse_dec_fails, digit_end, dec_value};
use crate::Error;

verus! {

/// `p` occurs in `s` starting at `i`.
pub open spec fn match_at(s: Seq<u8>, p: Seq<u8>, i: int) -> bool {
    0 <= i && i + p.len() <= s.len() && s.subrange(i, i + p.len()) == p
}

/// `p` occurs somewhere in `s`.
pub open spec fn contains_seq(s: Seq<u8>, p: Seq<u8>) -> bool {
    exists|i: int| match_at(s, p, i)
}

/// Whether `p` occurs in `s`.
pub fn find_seq(s: &Vec<u8>, p: &Vec<u8>) -> (r: bool)
    ensures
        r == contains_seq(s@, p@),
{
    let n = s.len();
    let m = p.len();
    if m > n {
        proof {
            assert(forall|i: int| !match_at(s@, p@, i));
        }
        return false;
    }
    let mut i: usize = 0;
    while i <= n - m
        invariant
            0 <= i <= n - m + 1,
            m <= n,
            n == s@.len(),
            m == p@.len(),
            forall|k: int| 0 <= k < i ==> !match_at(s@, p@, k),
        decreases n - m - i + 1,
    {
        let mut j: usize = 0;
        while j < m && s[i + j] == p[j]
            invariant
                0 <= j <= m,
                i + m <= n,
                n == s@.len(),
                m == p@.len(),
                forall|k: int| 0 <= k < j ==> s@[i + k] == p@[k],
            decreases m - j,
        {
            j = j + 1;
        }
        if j == m {
            proof {
                assert(s@.subrange(i as int, i + m) =~= p@);
                assert(match_at(s@, p@, i as int));
            }
            return true;
        }
        proof {
            assert(!match_at(s@, p@, i as int)) by {
                if match_at(s@, p@, i as int) {
                    assert(s@.subrange(i as int, i + m)[j as int] == p@[j as int]);
                }
            }
        }
        i = i + 1;
    }
    proof {
        assert forall|k: int| !match_at(s@, p@, k) by {
            if match_at(s@, p@, k) {
                assert(0 <= k <= n - m);
            }
        }
    }
    false
}

/// Whether byte `b` occurs in `s`.
pub fn contains_byte(s: &Vec<u8>, b: u8) -> (r: bool)
    ensures
        r == s@.contains(b),
{
    let mut i: usize = 0;
    while i < s.len()
        invariant
            i <= s@.len(),
            forall|j: int| 0 <= j < i ==> s@[j] != b,
        decreases s@.len() - i,
    {
        if s[i] == b {
            return true;
        }
        i = i + 1;
    }
    false
}

/// The two deployment slots the system alternates between.
#[derive(Clone, Copy, Debug, PartialEq, Eq, Structural)]
pub enum TmpSlot {
    Deploy,
    DeployAux,
}

/// The text that marks the auxiliary deployment slot in the mount table.
pub open spec fn deploy_aux_marker() -> Seq<u8> {
    seq![100u8, 101u8, 112u8, 108u8, 111u8, 121u8, 45u8, 97u8, 117u8, 120u8]
}

/// The text that marks the snapshot storage in the mount table of a
/// process running outside any chroot.
pub open spec fn snapshots_marker() -> Seq<u8> {
    seq![47u8, 46u8, 115u8, 110u8, 97u8, 112u8, 115u8, 104u8, 111u8, 116u8, 115u8, 32u8, 98u8, 116u8, 114u8, 102u8, 115u8]
}

/// Which deployment slot is running, read off the mount table text.
pub fn get_tmp(mounts: &Vec<u8>) -> (r: TmpSlot)
    ensures
        r == if contains_seq(mounts@, deploy_aux_marker()) {
            TmpSlot::DeployAux
        } else {
            TmpSlot::Deploy
        },
{
    let mut p: Vec<u8> = Vec::new();
    p.push(100);
    p.push(101);
    p.push(112);
    p.push(108);
    p.push(111);
    p.push(121);
    p.push(45);
    p.push(97);
    p.push(117);
    p.push(120);
    proof {
        assert(p@ =~= deploy_aux_marker());
    }
    if find_seq(mounts, &p) {
        TmpSlot::DeployAux
    } else {
        TmpSlot::Deploy
    }
}

/// Whether this process runs inside a chroot: the snapshot storage is
/// then missing from its mount table.
pub fn chroot_check(mounts: &Vec<u8>) -> (r: bool)
    ensures
        r == !contains_seq(mounts@, snapshots_marker()),
{
    let mut p: Vec<u8> = Vec::new();
    p.push(47);
    p.push(46);
    p.push(115);
    p.push(110);
    p.push(97);
    p.push(112);
    p.push(115);
    p.push(104);
    p.push(111);
    p.push(116);
    p.push(115);
    p.push(32);
    p.push(98);
    p.push(116);
    p.push(114);
    p.push(102);
    p.push(115);
    proof {
        assert(p@ =~= snapshots_marker());
    }
    !find_seq(mounts, &p)
}

pub open spec fn is_ws(b: u8) -> bool {
    b == 32 || b == 10 || b == 13 || b == 9
}

/// The length of `s` without its trailing whitespace.
pub open spec fn trim_end_idx(s: Seq<u8>) -> int
    decreases s.len(),
{
    if s.len() > 0 && is_ws(s.last()) {
        trim_end_idx(s.drop_last())
    } else {
        s.len() as int
    }
}

/// The currently booted snapshot id, parsed from the recorded text:
/// exactly one decimal number, trailing whitespace ignored.
pub fn get_current_snapshot(text: &Vec<u8>) -> (r: Result<u64, Error>)
    ensures
        match r {
            Ok(v) => {
                &&& trim_end_idx(text@) > 0
                &&& digit_end(text@, 0) == trim_end_idx(text@)
                &&& !parse_dec_fails(text@, 0)
                &&& v == dec_value(text@.subrange(0, trim_end_idx(text@)))
            },
            Err(e) => {
                &&& e == (Error::Io { id: 0 })
                &&& (parse_dec_fails(text@, 0) || digit_end(text@, 0) != trim_end_idx(text@))
            },
        },
{
    let n = text.len();
    let mut e: usize = n;
    proof {
        assert(text@.take(n as int) =~= text@);
    }
    while e > 0 && (text[e - 1] == 32 || text[e - 1] == 10 || text[e - 1] == 13 || text[e - 1]
        == 9)
        invariant
            0 <= e <= n,
            n == text@.len(),
            trim_end_idx(text@) == trim_end_idx(text@.take(e as int)),
        decreases e,
    {
        proof {
            assert(text@.take(e as int).last() == text@[e - 1]);
            assert(text@.take(e as int).drop_last() =~= text@.take(e as int - 1));
        }
        e = e - 1;
    }
    proof {
        assert(trim_end_idx(text@.take(e as int)) == e as int);
    }
    match parse_dec(text, 0) {
        None => Err(Error::Io { id: 0 }),
        Some(p) => {
            if p.1 == e {
                Ok(p.0)
            } else {
                Err(Error::Io { id: 0 })
            }
        },
    }
}

/// What the recorded state of the last update says.
#[derive(Clone, Copy, Debug, PartialEq, Eq, Structural)]
pub struct UpdateState {
    pub failed: bool,
    pub succeeded: bool,
}

/// Reads the recorded state of the last update: its first line holds a
/// failure or success mark.
pub fn check_update(line: &Vec<u8>) -> (r: UpdateState)
    ensures
        r.failed == line@.contains(49u8),
        r.succeeded == line@.contains(48u8),
{
    let failed = contains_byte(line, 49);
    let succeeded = contains_byte(line, 48);
    UpdateState { failed, succeeded }
}

/// Host facts read once at startup and passed down explicitly.
#[derive(Clone, Copy, Debug, PartialEq, Eq, Structural)]
pub struct HostContext {
    pub efi: bool,
    pub current_snapshot: u64,
    pub tmp: TmpSlot,
}

/// Whether the host boots through EFI.
pub fn is_efi(host: &HostContext) -> (r: bool)
    ensures
        r == host.efi,
{
    host.efi
}

} // verus!
