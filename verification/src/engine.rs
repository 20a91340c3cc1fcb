//! The transaction engine: staging, mutating, committing and discarding
//! working copies.
//!
//! `prepare` stages a working copy of a snapshot and mounts the host
//! directories into it, in a fixed order; `post_transactions` commits the
//! working copy over the snapshot; `abort` discards it.  The existence of
//! the `-chr` triad is the per-snapshot lock: a second `prepare` while one
//! exists is refused and changes nothing.  Mounts are unmounted in strict
//! reverse order of mounting.

use vstd::prelude::*;
use crate::store::{
    SubvolumeStore, StoreView, Subvol, subvol_of, has_subvol, seq_drop_id, seq_drop_subvol,
    pos_of_subvol, subvol_ids_unique, lemma_subvol_of_unique, lemma_unique_remove_subvol,
};
use crate::Error;

verus! {

/// A bind-mount target inside a working copy, in mount order.  The two
/// indexed targets name an entry of the configured mutable directories.
#[derive(Clone, Copy, Debug, PartialEq, Eq, Structural)]
pub enum MountTarget {
    SelfBind,
    Dev,
    Proc,
    Sys,
    Home,
    Run,
    TmpDir,
    Var,
    ResolvConf,
    Efivars,
    MutableDir { idx: usize },
    SharedDir { idx: usize },
}

/// One live bind mount: which working copy it is in and what it covers.
#[derive(Clone, Copy, Debug, PartialEq, Eq, Structural)]
pub struct ActiveMount {
    pub id: u64,
    pub target: MountTarget,
}

/// Holds of the mounts that do not belong to working copy `id`.
pub open spec fn other_mount(id: u64) -> spec_fn(ActiveMount) -> bool {
    |m: ActiveMount| m.id != id
}

/// The configured extra mutable directories: per-snapshot private ones
/// and ones shared by every snapshot, each a relative path.
pub struct MutableDirSpec {
    pub dirs: Vec<Vec<u8>>,
    pub shared: Vec<Vec<u8>>,
}

/// The fixed mount order for a working copy: the copy bound onto itself,
/// the host directories, the name resolver file, and the configured
/// mutable directories last, so that teardown meets them first.
pub open spec fn spec_mount_targets(nd: int, ns: int) -> Seq<MountTarget> {
    seq![
        MountTarget::SelfBind,
        MountTarget::Dev,
        MountTarget::Proc,
        MountTarget::Sys,
        MountTarget::Home,
        MountTarget::Run,
        MountTarget::TmpDir,
        MountTarget::Var,
        MountTarget::ResolvConf,
    ] + Seq::new(nd as nat, |i: int| MountTarget::MutableDir { idx: i as usize })
        + Seq::new(ns as nat, |i: int| MountTarget::SharedDir { idx: i as usize })
}

/// The mounts `prepare` adds for working copy `id`.
pub open spec fn spec_mounts_for(id: u64, nd: int, ns: int) -> Seq<ActiveMount> {
    Seq::new(
        spec_mount_targets(nd, ns).len(),
        |i: int| ActiveMount { id, target: spec_mount_targets(nd, ns)[i] },
    )
}

/// The model state of the engine: the store and the live mounts, oldest
/// first.
pub ghost struct EngineView {
    pub store: StoreView,
    pub mounts: Seq<ActiveMount>,
}

impl EngineView {
    /// Mounts only ever stand inside an existing working copy.
    pub open spec fn wf(self) -> bool {
        &&& self.store.wf()
        &&& forall|i: int|
            0 <= i < self.mounts.len()
                ==> self.store.chr_exists(#[trigger] self.mounts[i].id)
    }
}

/// The state after `prepare(id)`: the working triad of `id` staged with
/// the snapshot's content and mutability, and its mounts appended.
pub open spec fn spec_prepare(v: EngineView, id: u64, nd: int, ns: int) -> EngineView {
    EngineView {
        store: StoreView {
            chr: v.store.chr.push(Subvol {
                id,
                tok: subvol_of(v.store.rootfs, id).tok,
                flagged: subvol_of(v.store.rootfs, id).flagged,
            }),
            ..v.store
        },
        mounts: v.mounts + spec_mounts_for(id, nd, ns),
    }
}

/// The state after an effect inside the working copy of `id` left its
/// rootfs with content `tok`.
pub open spec fn spec_effect(v: EngineView, id: u64, tok: u64) -> EngineView {
    EngineView {
        store: StoreView {
            chr: v.store.chr.update(
                pos_of_subvol(v.store.chr, id),
                Subvol { tok, ..subvol_of(v.store.chr, id) },
            ),
            ..v.store
        },
        ..v
    }
}

/// The state after `abort(id)`: every mount of `id` gone, the working
/// triad gone, everything else untouched.
pub open spec fn spec_abort(v: EngineView, id: u64) -> EngineView {
    EngineView {
        store: StoreView { chr: seq_drop_subvol(v.store.chr, id), ..v.store },
        mounts: v.mounts.filter(other_mount(id)),
    }
}

/// The state after `post_transactions(id)`: mounts of `id` gone, the old
/// triad of `id` replaced by a duplicate of the working copy (content and
/// mutability taken from it), and the working triad gone.
pub open spec fn spec_commit(v: EngineView, id: u64) -> EngineView {
    let c = subvol_of(v.store.chr, id);
    EngineView {
        store: StoreView {
            boot: seq_drop_id(v.store.boot, id).push(id),
            etc: seq_drop_id(v.store.etc, id).push(id),
            rootfs: seq_drop_subvol(v.store.rootfs, id).push(Subvol {
                id,
                tok: c.tok,
                flagged: c.flagged,
            }),
            chr: seq_drop_subvol(v.store.chr, id),
        },
        mounts: v.mounts.filter(other_mount(id)),
    }
}

/// Filtering drops nothing when no element matches `id`.
proof fn lemma_filter_keeps_all(s: Seq<ActiveMount>, id: u64)
    requires
        forall|i: int| 0 <= i < s.len() ==> (#[trigger] s[i].id) != id,
    ensures
        s.filter(other_mount(id)) =~= s,
    decreases s.len(),
{
    reveal(Seq::filter);
    if s.len() > 0 {
        assert(forall|i: int| 0 <= i < s.len() - 1 ==> s.drop_last()[i] == s[i]);
        lemma_filter_keeps_all(s.drop_last(), id);
        assert(s.filter(other_mount(id))
            =~= s.drop_last().filter(other_mount(id)).push(s.last()));
    } else {
        assert(s.filter(other_mount(id)) =~= s);
    }
}

/// Filtering drops everything when every element matches `id`.
proof fn lemma_filter_drops_all(s: Seq<ActiveMount>, id: u64)
    requires
        forall|i: int| 0 <= i < s.len() ==> (#[trigger] s[i].id) == id,
    ensures
        s.filter(other_mount(id)) =~= Seq::<ActiveMount>::empty(),
    decreases s.len(),
{
    reveal(Seq::filter);
    if s.len() > 0 {
        assert(forall|i: int| 0 <= i < s.len() - 1 ==> s.drop_last()[i] == s[i]);
        lemma_filter_drops_all(s.drop_last(), id);
        assert(s.filter(other_mount(id))
            =~= s.drop_last().filter(other_mount(id)));
    } else {
        assert(s.filter(other_mount(id)) =~= s);
    }
}

/// What the filter keeps: mounts of other working copies, each of them
/// drawn from the unfiltered list.
proof fn lemma_filter_other(s: Seq<ActiveMount>, id: u64)
    ensures
        forall|i: int|
            0 <= i < s.filter(other_mount(id)).len()
                ==> (#[trigger] s.filter(other_mount(id))[i]).id != id
                    && s.contains(s.filter(other_mount(id))[i]),
    decreases s.len(),
{
    reveal(Seq::filter);
    if s.len() > 0 {
        lemma_filter_other(s.drop_last(), id);
        let f = s.filter(other_mount(id));
        let fd = s.drop_last().filter(other_mount(id));
        assert forall|i: int| 0 <= i < f.len() implies
            (#[trigger] f[i]).id != id && s.contains(f[i]) by {
            if i < fd.len() {
                assert(f[i] == fd[i]);
                assert(s.drop_last().contains(fd[i]));
                let j = choose|j: int| 0 <= j < s.drop_last().len() && s.drop_last()[j] == fd[i];
                assert(s[j] == fd[i]);
            } else {
                assert(f[i] == s.last());
                assert(s[s.len() - 1] == s.last());
            }
        }
    }
}

/// Keeps only the mounts of other working copies, order kept.
fn retain_other_mounts(v: &mut Vec<ActiveMount>, id: u64)
    ensures
        final(v)@ == old(v)@.filter(other_mount(id)),
{
    let mut out: Vec<ActiveMount> = Vec::new();
    let mut k: usize = 0;
    proof {
        reveal(Seq::filter);
        assert(v@.take(0).filter(other_mount(id)) =~= Seq::<ActiveMount>::empty());
    }
    while k < v.len()
        invariant
            k <= v@.len(),
            v@ == old(v)@,
            out@ == v@.take(k as int).filter(other_mount(id)),
        decreases v@.len() - k,
    {
        let ghost pre = v@.take(k as int);
        let m = v[k];
        proof {
            reveal(Seq::filter);
            assert(v@.take(k as int + 1).drop_last() =~= pre);
            assert(v@.take(k as int + 1).last() == m);
            assert(v@.take(k as int + 1).filter(other_mount(id))
                == if m.id != id {
                    pre.filter(other_mount(id)).push(m)
                } else {
                    pre.filter(other_mount(id))
                });
        }
        if m.id != id {
            out.push(m);
        }
        k = k + 1;
    }
    proof {
        assert(v@.take(v@.len() as int) =~= v@);
    }
    *v = out;
}

/// The transaction engine: the modelled store plus the live mounts.
pub struct TransactionEngine {
    store: SubvolumeStore,
    mounts: Vec<ActiveMount>,
}

impl View for TransactionEngine {
    type V = EngineView;

    closed spec fn view(&self) -> EngineView {
        EngineView { store: self.store@, mounts: self.mounts@ }
    }
}

impl TransactionEngine {
    /// An engine over a freshly read store, with no mounts yet recorded.
    pub fn new(store: SubvolumeStore) -> (r: TransactionEngine)
        requires
            store@.wf(),
        ensures
            r@.store == store@,
            r@.mounts =~= Seq::<ActiveMount>::empty(),
            r@.wf(),
    {
        TransactionEngine { store, mounts: Vec::new() }
    }

    /// The store as the engine sees it.
    pub fn subvolumes(&self) -> (r: &SubvolumeStore)
        ensures
            r@ == self@.store,
    {
        &self.store
    }

    /// The live mounts, oldest first.
    pub fn mount_list(&self) -> (r: &Vec<ActiveMount>)
        ensures
            r@ == self@.mounts,
    {
        &self.mounts
    }

    /// Stages the working copy of `id` and mounts the host directories
    /// into it, in the fixed order.  An existing working triad is the
    /// lock of another transaction: the call is refused and the state is
    /// left exactly as it was.
    pub fn prepare(&mut self, id: u64, cfg: &MutableDirSpec) -> (r: Result<(), Error>)
        requires
            old(self)@.wf(),
        ensures
            final(self)@.wf(),
            match r {
                Ok(()) => {
                    &&& !old(self)@.store.chr_exists(id)
                    &&& old(self)@.store.triad_exists(id)
                    &&& final(self)@ == spec_prepare(
                        old(self)@,
                        id,
                        cfg.dirs@.len() as int,
                        cfg.shared@.len() as int,
                    )
                },
                Err(e) => {
                    &&& final(self)@ == old(self)@
                    &&& (e == (Error::Conflict { id }) && old(self)@.store.chr_exists(id)
                        || e == (Error::NotFound { id }) && !old(self)@.store.chr_exists(id)
                            && !old(self)@.store.triad_exists(id))
                },
            },
    {
        match self.store.chr_create(id) {
            Err(e) => {
                return Err(e);
            },
            Ok(()) => {},
        }
        let ghost mid = EngineView { store: self.store@, mounts: self.mounts@ };
        let targets = mount_targets(cfg.dirs.len(), cfg.shared.len());
        let mut k: usize = 0;
        let ghost planned = spec_mounts_for(id, cfg.dirs@.len() as int, cfg.shared@.len() as int);
        while k < targets.len()
            invariant
                k <= targets@.len(),
                targets@ == spec_mount_targets(
                    cfg.dirs@.len() as int,
                    cfg.shared@.len() as int,
                ),
                planned == spec_mounts_for(id, cfg.dirs@.len() as int, cfg.shared@.len() as int),
                planned.len() == targets@.len(),
                forall|i: int|
                    0 <= i < targets@.len()
                        ==> planned[i] == (ActiveMount { id, target: targets@[i] }),
                self.mounts@ == old(self)@.mounts + planned.take(k as int),
                self.store@ == mid.store,
            decreases targets@.len() - k,
        {
            self.mounts.push(ActiveMount { id, target: targets[k] });
            proof {
                assert(planned.take(k as int + 1) =~= planned.take(k as int).push(planned[k as int]));
                assert(self.mounts@ =~= old(self)@.mounts + planned.take(k as int + 1));
            }
            k = k + 1;
        }
        proof {
            assert(planned.take(planned.len() as int) =~= planned);
            let want = spec_prepare(
                old(self)@,
                id,
                cfg.dirs@.len() as int,
                cfg.shared@.len() as int,
            );
            assert(self@.store =~= want.store);
            assert(self@.mounts =~= want.mounts);
            assert(self@ =~= want);
            assert forall|i: int| 0 <= i < self@.mounts.len() implies
                self@.store.chr_exists(#[trigger] self@.mounts[i].id) by {
                if i < old(self)@.mounts.len() {
                    assert(old(self)@.store.chr_exists(self@.mounts[i].id));
                    let j = choose|j: int|
                        0 <= j < old(self)@.store.chr.len()
                            && (#[trigger] old(self)@.store.chr[j].id) == self@.mounts[i].id;
                    assert(self@.store.chr[j].id == self@.mounts[i].id);
                } else {
                    assert(self@.mounts[i].id == id);
                    assert(self@.store.chr.last().id == id);
                }
            }
        }
        Ok(())
    }

    /// Records the outcome of one effect run inside the working copy of
    /// `id`: its rootfs content is now `tok`.  The effect itself is
    /// performed by the caller; failures there change no engine state and
    /// are the caller's to act on, by committing or aborting.
    pub fn run_effect(&mut self, id: u64, tok: u64) -> (r: Result<(), Error>)
        requires
            old(self)@.wf(),
        ensures
            final(self)@.wf(),
            match r {
                Ok(()) => {
                    &&& old(self)@.store.chr_exists(id)
                    &&& final(self)@ == spec_effect(old(self)@, id, tok)
                },
                Err(e) => {
                    &&& final(self)@ == old(self)@
                    &&& !old(self)@.store.chr_exists(id)
                    &&& e == (Error::NotFound { id })
                },
            },
    {
        match self.store.set_chr_token(id, tok) {
            Err(e) => Err(e),
            Ok(()) => {
                proof {
                    assert(self@.store =~= spec_effect(old(self)@, id, tok).store);
                    assert(self@ =~= spec_effect(old(self)@, id, tok));
                    let pos = pos_of_subvol(old(self)@.store.chr, id);
                    assert forall|i: int| 0 <= i < self@.mounts.len() implies
                        self@.store.chr_exists(#[trigger] self@.mounts[i].id) by {
                        let j = choose|j: int|
                            0 <= j < old(self)@.store.chr.len()
                                && (#[trigger] old(self)@.store.chr[j].id) == self@.mounts[i].id;
                        assert(self@.store.chr[j].id == old(self)@.store.chr[j].id);
                    }
                }
                Ok(())
            },
        }
    }

    /// Discards the working copy of `id`: unmounts everything mounted in
    /// it, newest first, then deletes its working triad.  Safe to call at
    /// any time, and idempotent.
    pub fn abort(&mut self, id: u64)
        requires
            old(self)@.wf(),
        ensures
            final(self)@.wf(),
            final(self)@ == spec_abort(old(self)@, id),
    {
        retain_other_mounts(&mut self.mounts, id);
        self.store.chr_delete(id);
        proof {
            assert(self@.store =~= spec_abort(old(self)@, id).store);
            assert(self@ =~= spec_abort(old(self)@, id));
            if has_subvol(old(self)@.store.chr, id) {
                lemma_unique_remove_subvol(old(self)@.store.chr, id);
            }
            assert forall|i: int| 0 <= i < self@.mounts.len() implies
                self@.store.chr_exists(#[trigger] self@.mounts[i].id) by {
                lemma_filter_other(old(self)@.mounts, id);
                let m = self@.mounts[i];
                let j = choose|j: int|
                    0 <= j < old(self)@.mounts.len() && old(self)@.mounts[j] == m;
                assert(old(self)@.store.chr_exists(m.id));
            }
        }
    }

    /// Commits the working copy of `id`.  Everything mounted in it is
    /// unmounted in strict reverse order of mounting, the old triad of
    /// `id` is deleted — the irreversible point — and the working triad
    /// is duplicated into its place, content and mutability preserved,
    /// then deleted, which releases the lock.
    pub fn post_transactions(&mut self, id: u64) -> (r: Result<(), Error>)
        requires
            old(self)@.wf(),
        ensures
            final(self)@.wf(),
            match r {
                Ok(()) => {
                    &&& old(self)@.store.chr_exists(id)
                    &&& final(self)@ == spec_commit(old(self)@, id)
                },
                Err(e) => {
                    &&& final(self)@ == old(self)@
                    &&& !old(self)@.store.chr_exists(id)
                    &&& e == (Error::NotFound { id })
                },
            },
    {
        if !self.store.chr_exists(id) {
            return Err(Error::NotFound { id });
        }
        retain_other_mounts(&mut self.mounts, id);
        self.store.delete(id);
        proof {
            let ov = old(self)@.store;
            assert(!self@.store.id_used(id)) by {
                if ov.boot.contains(id) {
                    crate::store::lemma_unique_remove_id(ov.boot, id);
                }
                if ov.etc.contains(id) {
                    crate::store::lemma_unique_remove_id(ov.etc, id);
                }
                if has_subvol(ov.rootfs, id) {
                    lemma_unique_remove_subvol(ov.rootfs, id);
                }
            }
        }
        match self.store.duplicate_from_chr(id) {
            Ok(()) => {},
            Err(_) => {
                proof {
                    assert(false);
                }
            },
        }
        self.store.chr_delete(id);
        proof {
            assert(self@.store =~= spec_commit(old(self)@, id).store);
            assert(self@ =~= spec_commit(old(self)@, id));
            lemma_unique_remove_subvol(old(self)@.store.chr, id);
            assert forall|i: int| 0 <= i < self@.mounts.len() implies
                self@.store.chr_exists(#[trigger] self@.mounts[i].id) by {
                lemma_filter_other(old(self)@.mounts, id);
                let m = self@.mounts[i];
                assert(old(self)@.store.chr_exists(m.id));
                assert(m.id != id);
            }
        }
        Ok(())
    }
}

/// The mount targets for a working copy, in mount order.
pub fn mount_targets(nd: usize, ns: usize) -> (r: Vec<MountTarget>)
    ensures
        r@ == spec_mount_targets(nd as int, ns as int),
{
    let mut v: Vec<MountTarget> = Vec::new();
    v.push(MountTarget::SelfBind);
    v.push(MountTarget::Dev);
    v.push(MountTarget::Proc);
    v.push(MountTarget::Sys);
    v.push(MountTarget::Home);
    v.push(MountTarget::Run);
    v.push(MountTarget::TmpDir);
    v.push(MountTarget::Var);
    v.push(MountTarget::ResolvConf);
    let mut i: usize = 0;
    while i < nd
        invariant
            i <= nd,
            v@ =~= seq![
                MountTarget::SelfBind,
                MountTarget::Dev,
                MountTarget::Proc,
                MountTarget::Sys,
                MountTarget::Home,
                MountTarget::Run,
                MountTarget::TmpDir,
                MountTarget::Var,
                MountTarget::ResolvConf,
            ] + Seq::new(i as nat, |k: int| MountTarget::MutableDir { idx: k as usize }),
        decreases nd - i,
    {
        v.push(MountTarget::MutableDir { idx: i });
        proof {
            assert(v@ =~= seq![
                MountTarget::SelfBind,
                MountTarget::Dev,
                MountTarget::Proc,
                MountTarget::Sys,
                MountTarget::Home,
                MountTarget::Run,
                MountTarget::TmpDir,
                MountTarget::Var,
                MountTarget::ResolvConf,
            ] + Seq::new((i + 1) as nat, |k: int| MountTarget::MutableDir { idx: k as usize }));
        }
        i = i + 1;
    }
    let ghost base = v@;
    let mut j: usize = 0;
    while j < ns
        invariant
            j <= ns,
            v@ =~= base + Seq::new(j as nat, |k: int| MountTarget::SharedDir { idx: k as usize }),
        decreases ns - j,
    {
        v.push(MountTarget::SharedDir { idx: j });
        proof {
            assert(v@ =~= base
                + Seq::new((j + 1) as nat, |k: int| MountTarget::SharedDir { idx: k as usize }));
        }
        j = j + 1;
    }
    proof {
        assert(v@ =~= spec_mount_targets(nd as int, ns as int));
    }
    v
}

/// The unmount order for a working copy: exactly the reverse of the
/// mount order.
pub fn unmount_targets(nd: usize, ns: usize) -> (r: Vec<MountTarget>)
    ensures
        r@ == spec_mount_targets(nd as int, ns as int).reverse(),
{
    let m = mount_targets(nd, ns);
    let n = m.len();
    let mut v: Vec<MountTarget> = Vec::new();
    let mut i: usize = 0;
    while i < n
        invariant
            i <= n,
            n == m@.len(),
            m@ == spec_mount_targets(nd as int, ns as int),
            v@.len() == i,
            forall|k: int| 0 <= k < i ==> (#[trigger] v@[k]) == m@[n - 1 - k],
        decreases n - i,
    {
        v.push(m[n - 1 - i]);
        i = i + 1;
    }
    proof {
        assert(v@ =~= spec_mount_targets(nd as int, ns as int).reverse());
    }
    v
}

/// The mounts for entering a snapshot directly (a live chroot): the same
/// order, with the EFI variables tree bound last on EFI hosts.
pub fn ash_chroot_mounts(efi: bool) -> (r: Vec<MountTarget>)
    ensures
        r@ == if efi {
            spec_mount_targets(0, 0).push(MountTarget::Efivars)
        } else {
            spec_mount_targets(0, 0)
        },
{
    let mut v = mount_targets(0, 0);
    if efi {
        v.push(MountTarget::Efivars);
    }
    v
}

/// Discarding a freshly prepared working copy restores the state
/// observably: the same triads, the same mounts, no `-chr` triad left.
pub proof fn lemma_prepare_abort_roundtrip(v: EngineView, id: u64, nd: int, ns: int)
    requires
        v.wf(),
        v.store.triad_exists(id),
        !v.store.chr_exists(id),
        nd >= 0,
        ns >= 0,
    ensures
        spec_abort(spec_prepare(v, id, nd, ns), id) =~= v,
{
    let v1 = spec_prepare(v, id, nd, ns);
    let v2 = spec_abort(v1, id);
    let entry = Subvol {
        id,
        tok: subvol_of(v.store.rootfs, id).tok,
        flagged: subvol_of(v.store.rootfs, id).flagged,
    };
    let c1 = v.store.chr.push(entry);
    assert(subvol_ids_unique(c1)) by {
        assert forall|a: int, b: int| 0 <= a < b < c1.len() implies
            (#[trigger] c1[a].id) != (#[trigger] c1[b].id) by {
            if b == c1.len() - 1 {
                assert(c1[a] == v.store.chr[a]);
                if c1[a].id == id {
                    assert(has_subvol(v.store.chr, id));
                }
            } else {
                assert(c1[a] == v.store.chr[a] && c1[b] == v.store.chr[b]);
            }
        }
    }
    assert(c1[c1.len() - 1].id == id);
    assert(has_subvol(c1, id));
    lemma_subvol_of_unique(c1, c1.len() - 1);
    assert(seq_drop_subvol(c1, id) =~= v.store.chr);
    assert(v2.store =~= v.store);
    Seq::<ActiveMount>::filter_distributes_over_add(
        v.mounts,
        spec_mounts_for(id, nd, ns),
        other_mount(id),
    );
    assert forall|i: int| 0 <= i < v.mounts.len() implies (#[trigger] v.mounts[i].id) != id by {
        assert(v.store.chr_exists(v.mounts[i].id));
    }
    lemma_filter_keeps_all(v.mounts, id);
    lemma_filter_drops_all(spec_mounts_for(id, nd, ns), id);
    assert(v2.mounts =~= v.mounts);
}

/// Discarding is idempotent: a second `abort` of the same id changes
/// nothing.
pub proof fn lemma_abort_idempotent(v: EngineView, id: u64)
    requires
        v.store.wf(),
    ensures
        spec_abort(spec_abort(v, id), id) =~= spec_abort(v, id),
{
    let v1 = spec_abort(v, id);
    if has_subvol(v.store.chr, id) {
        lemma_unique_remove_subvol(v.store.chr, id);
    }
    assert(!has_subvol(v1.store.chr, id));
    assert(seq_drop_subvol(v1.store.chr, id) =~= v1.store.chr);
    lemma_filter_other(v.mounts, id);
    lemma_filter_keeps_all(v1.mounts, id);
}

/// A prepared working copy, changed by an effect and committed, leaves
/// the snapshot with exactly the effect's content and mutability kept,
/// the lock released, and no mounts behind.
pub proof fn lemma_effect_commit(v: EngineView, id: u64, nd: int, ns: int, tok: u64)
    requires
        v.wf(),
        v.store.triad_exists(id),
        !v.store.chr_exists(id),
        nd >= 0,
        ns >= 0,
    ensures
        ({
            let w = spec_commit(spec_effect(spec_prepare(v, id, nd, ns), id, tok), id);
            &&& w.store.triad_exists(id)
            &&& subvol_of(w.store.rootfs, id).tok == tok
            &&& subvol_of(w.store.rootfs, id).flagged == subvol_of(v.store.rootfs, id).flagged
            &&& !w.store.chr_exists(id)
            &&& w.mounts =~= v.mounts
        }),
{
    let v1 = spec_prepare(v, id, nd, ns);
    let entry = Subvol {
        id,
        tok: subvol_of(v.store.rootfs, id).tok,
        flagged: subvol_of(v.store.rootfs, id).flagged,
    };
    let c1 = v1.store.chr;
    assert(c1 == v.store.chr.push(entry));
    assert(subvol_ids_unique(c1)) by {
        assert forall|a: int, b: int| 0 <= a < b < c1.len() implies
            (#[trigger] c1[a].id) != (#[trigger] c1[b].id) by {
            if b == c1.len() - 1 {
                assert(c1[a] == v.store.chr[a]);
                if c1[a].id == id {
                    assert(has_subvol(v.store.chr, id));
                }
            } else {
                assert(c1[a] == v.store.chr[a] && c1[b] == v.store.chr[b]);
            }
        }
    }
    assert(c1[c1.len() - 1].id == id);
    assert(has_subvol(c1, id));
    lemma_subvol_of_unique(c1, c1.len() - 1);
    let v2 = spec_effect(v1, id, tok);
    let changed = Subvol { tok, ..entry };
    let c2 = v2.store.chr;
    assert(c2 =~= v.store.chr.push(changed));
    assert(subvol_ids_unique(c2)) by {
        assert forall|a: int, b: int| 0 <= a < b < c2.len() implies
            (#[trigger] c2[a].id) != (#[trigger] c2[b].id) by {
            assert(c2[a].id == c1[a].id && c2[b].id == c1[b].id);
        }
    }
    assert(c2[c2.len() - 1].id == id);
    lemma_subvol_of_unique(c2, c2.len() - 1);
    assert(subvol_of(c2, id) == changed);
    let w = spec_commit(v2, id);
    let nr = w.store.rootfs;
    assert(nr == seq_drop_subvol(v.store.rootfs, id).push(Subvol {
        id,
        tok: changed.tok,
        flagged: changed.flagged,
    }));
    lemma_unique_remove_subvol(v.store.rootfs, id);
    assert(nr[nr.len() - 1].id == id);
    assert(has_subvol(nr, id));
    assert(subvol_ids_unique(nr)) by {
        let dr = seq_drop_subvol(v.store.rootfs, id);
        assert forall|a: int, b: int| 0 <= a < b < nr.len() implies
            (#[trigger] nr[a].id) != (#[trigger] nr[b].id) by {
            if b == nr.len() - 1 {
                assert(nr[a] == dr[a]);
                if nr[a].id == id {
                    assert(has_subvol(dr, id));
                }
            } else {
                assert(nr[a] == dr[a] && nr[b] == dr[b]);
            }
        }
    }
    lemma_subvol_of_unique(nr, nr.len() - 1);
    assert(seq_drop_subvol(c2, id) =~= v.store.chr);
    assert(!w.store.chr_exists(id)) by {
        if has_subvol(v.store.chr, id) {
            assert(v.store.chr_exists(id));
        }
    }
    assert(w.store.boot.last() == id);
    assert(w.store.boot.contains(id));
    assert(w.store.etc.last() == id);
    assert(w.store.etc.contains(id));
    Seq::<ActiveMount>::filter_distributes_over_add(
        v.mounts,
        spec_mounts_for(id, nd, ns),
        other_mount(id),
    );
    assert forall|i: int| 0 <= i < v.mounts.len() implies (#[trigger] v.mounts[i].id) != id by {
        assert(v.store.chr_exists(v.mounts[i].id));
    }
    lemma_filter_keeps_all(v.mounts, id);
    lemma_filter_drops_all(spec_mounts_for(id, nd, ns), id);
}

} // verus!
