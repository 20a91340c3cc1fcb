//! The package-manager backends the engine can drive, and the storage
//! paths that belong to them.
//!
//! The backends themselves are external collaborators: they act on a
//! prepared working copy and report success or failure.  What is
//! decided here is which cache directory each backend owns.

use vstd::prelude::*;
use crate::num::dec_digits;
use crate::Error;

verus! {

/// The package managers a deployment can be driven by.
#[derive(Clone, Copy, Debug, PartialEq, Eq, Structural)]
pub enum PackageBackend {
    Apt,
    Dnf,
    Pacman,
}

/// The backend's package cache directory, relative to a filesystem root.
pub open spec fn spec_cache_path(b: PackageBackend) -> Seq<u8> {
    match b {
        PackageBackend::Apt => seq![118u8, 97u8, 114u8, 47u8, 99u8, 97u8, 99u8, 104u8, 101u8, 47u8, 97u8, 112u8, 116u8],
        PackageBackend::Dnf => seq![118u8, 97u8, 114u8, 47u8, 99u8, 97u8, 99u8, 104u8, 101u8, 47u8, 100u8, 110u8, 102u8],
        PackageBackend::Pacman => seq![118u8, 97u8, 114u8, 47u8, 99u8, 97u8, 99u8, 104u8, 101u8, 47u8, 112u8, 97u8, 99u8, 109u8, 97u8, 110u8, 47u8, 112u8, 107u8, 103u8],
    }
}

/// The rootfs path of the working copy of snapshot `id`.
pub open spec fn spec_chr_rootfs_path(id: u64) -> Seq<u8> {
    seq![47u8, 46u8, 115u8, 110u8, 97u8, 112u8, 115u8, 104u8, 111u8, 116u8, 115u8, 47u8, 114u8, 111u8, 111u8, 116u8, 102u8, 115u8, 47u8, 115u8, 110u8, 97u8, 112u8, 115u8, 104u8, 111u8, 116u8, 45u8, 99u8, 104u8, 114u8] + dec_digits(id as nat)
}

/// The directory whose contents `clean_cache` clears for the working
/// copy of snapshot `id`.
pub open spec fn spec_clean_cache_path(b: PackageBackend, id: u64) -> Seq<u8> {
    spec_chr_rootfs_path(id) + seq![47u8] + spec_cache_path(b)
}

/// The backend's package cache directory, relative to a filesystem root.
pub fn cache_path(b: PackageBackend) -> (r: Vec<u8>)
    ensures
        r@ == spec_cache_path(b),
{
    let mut v: Vec<u8> = Vec::new();
    match b {
        PackageBackend::Apt => {
            v.push(118);
            v.push(97);
            v.push(114);
            v.push(47);
            v.push(99);
            v.push(97);
            v.push(99);
            v.push(104);
            v.push(101);
            v.push(47);
            v.push(97);
            v.push(112);
            v.push(116);
        },
        PackageBackend::Dnf => {
            v.push(118);
            v.push(97);
            v.push(114);
            v.push(47);
            v.push(99);
            v.push(97);
            v.push(99);
            v.push(104);
            v.push(101);
            v.push(47);
            v.push(100);
            v.push(110);
            v.push(102);
        },
        PackageBackend::Pacman => {
            v.push(118);
            v.push(97);
            v.push(114);
            v.push(47);
            v.push(99);
            v.push(97);
            v.push(99);
            v.push(104);
            v.push(101);
            v.push(47);
            v.push(112);
            v.push(97);
            v.push(99);
            v.push(109);
            v.push(97);
            v.push(110);
            v.push(47);
            v.push(112);
            v.push(107);
            v.push(103);
        },
    }
    proof {
        assert(v@ =~= spec_cache_path(b));
    }
    v
}

/// The rootfs path of the working copy of snapshot `id`.
pub fn chr_rootfs_path(id: u64) -> (r: Vec<u8>)
    ensures
        r@ == spec_chr_rootfs_path(id),
{
    let mut v: Vec<u8> = Vec::new();
    v.push(47);
    v.push(46);
    v.push(115);
    v.push(110);
    v.push(97);
    v.push(112);
    v.push(115);
    v.push(104);
    v.push(111);
    v.push(116);
    v.push(115);
    v.push(47);
    v.push(114);
    v.push(111);
    v.push(111);
    v.push(116);
    v.push(102);
    v.push(115);
    v.push(47);
    v.push(115);
    v.push(110);
    v.push(97);
    v.push(112);
    v.push(115);
    v.push(104);
    v.push(111);
    v.push(116);
    v.push(45);
    v.push(99);
    v.push(104);
    v.push(114);
    let mut digits = crate::num::u64_to_dec(id);
    v.append(&mut digits);
    proof {
        assert(v@ =~= spec_chr_rootfs_path(id));
    }
    v
}

/// The package-state synchronisation step of a tree-wide sync, from
/// snapshot `source` into snapshot `target` (into the target's working
/// copy when `staged`).  No package state is carried over: the step
/// succeeds and every snapshot is left untouched.
pub fn tree_sync_helper(source: u64, target: u64, staged: bool) -> (r: Result<(), Error>)
    ensures
        r is Ok,
{
    let _ = source;
    let _ = target;
    let _ = staged;
    Ok(())
}

/// The backend cache directory inside the working copy of snapshot
/// `id`: the directory a cache clean empties.
pub fn clean_cache(b: PackageBackend, id: u64) -> (r: Vec<u8>)
    ensures
        r@ == spec_clean_cache_path(b, id),
{
    let mut v = chr_rootfs_path(id);
    v.push(47);
    let mut rel = cache_path(b);
    v.append(&mut rel);
    proof {
        assert(v@ =~= spec_clean_cache_path(b, id));
    }
    v
}

} // verus!
