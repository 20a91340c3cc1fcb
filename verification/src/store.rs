//! The subvolume store: which snapshot triads exist on storage.
//!
//! A snapshot is a triad of copy-on-write subvolumes (`boot`, `etc`,
//! `rootfs`) sharing one id; a transaction stages its changes in a `-chr`
//! working triad of the same id.  The store models that state: the ids
//! present in each namespace, the mutability marker of each rootfs, and an
//! abstract content token per rootfs, which a copy-on-write duplicate
//! copies and an effect inside a working copy replaces.  The binary around
//! the crate performs the matching filesystem operations and keeps this
//! model in step.

use vstd::prelude::*;
use vstd::set_lib::lemma_len_subset;
use crate::Error;

verus! {

/// One rootfs subvolume: its id, an abstract token standing for its
/// current content, and whether the in-tree mutability marker is present.
#[derive(Clone, Copy, Debug, PartialEq, Eq, Structural)]
pub struct Subvol {
    pub id: u64,
    pub tok: u64,
    pub flagged: bool,
}

pub open spec fn ids_unique(s: Seq<u64>) -> bool {
    forall|i: int, j: int| 0 <= i < j < s.len() ==> (#[trigger] s[i]) != (#[trigger] s[j])
}

pub open spec fn subvol_ids_unique(s: Seq<Subvol>) -> bool {
    forall|i: int, j: int|
        0 <= i < j < s.len() ==> (#[trigger] s[i].id) != (#[trigger] s[j].id)
}

pub open spec fn has_subvol(s: Seq<Subvol>, id: u64) -> bool {
    exists|i: int| 0 <= i < s.len() && (#[trigger] s[i].id) == id
}

/// The entry of `id` in a namespace with unique ids.
pub open spec fn subvol_of(s: Seq<Subvol>, id: u64) -> Subvol {
    s[choose|i: int| 0 <= i < s.len() && (#[trigger] s[i].id) == id]
}

pub open spec fn pos_of_id(s: Seq<u64>, x: u64) -> int {
    choose|i: int| 0 <= i < s.len() && s[i] == x
}

pub open spec fn pos_of_subvol(s: Seq<Subvol>, id: u64) -> int {
    choose|i: int| 0 <= i < s.len() && (#[trigger] s[i].id) == id
}

/// `s` without its occurrence of `x`, order kept.
pub open spec fn seq_drop_id(s: Seq<u64>, x: u64) -> Seq<u64> {
    if s.contains(x) {
        s.remove(pos_of_id(s, x))
    } else {
        s
    }
}

/// `s` without the entry of `id`, order kept.
pub open spec fn seq_drop_subvol(s: Seq<Subvol>, id: u64) -> Seq<Subvol> {
    if has_subvol(s, id) {
        s.remove(pos_of_subvol(s, id))
    } else {
        s
    }
}

pub proof fn lemma_unique_remove_id(s: Seq<u64>, x: u64)
    requires
        ids_unique(s),
        s.contains(x),
    ensures
        ids_unique(seq_drop_id(s, x)),
        !seq_drop_id(s, x).contains(x),
        forall|y: u64| #[trigger] seq_drop_id(s, x).contains(y) ==> s.contains(y),
        forall|y: u64| s.contains(y) && y != x ==> #[trigger] seq_drop_id(s, x).contains(y),
{
    let i = pos_of_id(s, x);
    assert(0 <= i < s.len() && s[i] == x);
    let t = seq_drop_id(s, x);
    assert(t =~= s.take(i) + s.skip(i + 1));
    assert(forall|j: int| 0 <= j < i ==> t[j] == s[j]);
    assert(forall|j: int| i <= j < t.len() ==> t[j] == s[j + 1]);
    assert forall|y: u64| #[trigger] t.contains(y) implies s.contains(y) && (y == x ==> false) by {
        let j = choose|j: int| 0 <= j < t.len() && t[j] == y;
        let j0: int = if j < i { j } else { j + 1 };
        assert(s[j0] == y);
        if y == x {
            assert(j0 != i);
            assert(s[j0] == s[i]);
        }
    }
    assert forall|y: u64| s.contains(y) && y != x implies #[trigger] t.contains(y) by {
        let j = choose|j: int| 0 <= j < s.len() && s[j] == y;
        if j < i {
            assert(t[j] == y);
        } else {
            assert(j != i);
            assert(t[j - 1] == y);
        }
    }
}

pub proof fn lemma_unique_remove_subvol(s: Seq<Subvol>, id: u64)
    requires
        subvol_ids_unique(s),
        has_subvol(s, id),
    ensures
        subvol_ids_unique(seq_drop_subvol(s, id)),
        !has_subvol(seq_drop_subvol(s, id), id),
        forall|y: u64| #[trigger] has_subvol(seq_drop_subvol(s, id), y) ==> has_subvol(s, y),
        forall|y: u64|
            has_subvol(s, y) && y != id
                ==> #[trigger] has_subvol(seq_drop_subvol(s, id), y)
                    && subvol_of(seq_drop_subvol(s, id), y) == subvol_of(s, y),
{
    let i = pos_of_subvol(s, id);
    assert(0 <= i < s.len() && s[i].id == id);
    let t = seq_drop_subvol(s, id);
    assert(t =~= s.take(i) + s.skip(i + 1));
    assert(forall|j: int| 0 <= j < i ==> t[j] == s[j]);
    assert(forall|j: int| i <= j < t.len() ==> t[j] == s[j + 1]);
    assert forall|a: int, b: int| 0 <= a < b < t.len() implies
        (#[trigger] t[a].id) != (#[trigger] t[b].id) by {
        let a0: int = if a < i { a } else { a + 1 };
        let b0: int = if b < i { b } else { b + 1 };
        assert(t[a] == s[a0] && t[b] == s[b0]);
        assert(a0 < b0);
    }
    assert forall|y: u64| #[trigger] has_subvol(t, y) implies
        has_subvol(s, y) && (y == id ==> false) by {
        let j = choose|j: int| 0 <= j < t.len() && (#[trigger] t[j].id) == y;
        let j0: int = if j < i { j } else { j + 1 };
        assert(s[j0].id == y);
        if y == id {
            assert(j0 != i);
        }
    }
    assert forall|y: u64| has_subvol(s, y) && y != id implies
        #[trigger] has_subvol(t, y) && subvol_of(t, y) == subvol_of(s, y) by {
        let j = choose|j: int| 0 <= j < s.len() && (#[trigger] s[j].id) == y;
        assert(j != i);
        let jt: int = if j < i { j } else { j - 1 };
        assert(t[jt] == s[j]);
        lemma_subvol_of_unique(s, j);
        lemma_subvol_of_unique_partial(t, jt);
        assert(subvol_of(t, y) == t[jt] && subvol_of(s, y) == s[j]);
    }
}

/// With unique ids, any position holding `id` is its position.
pub proof fn lemma_subvol_of_unique(s: Seq<Subvol>, j: int)
    requires
        subvol_ids_unique(s),
        0 <= j < s.len(),
    ensures
        pos_of_subvol(s, s[j].id) == j,
        subvol_of(s, s[j].id) == s[j],
{
    let id = s[j].id;
    assert(has_subvol(s, id));
    let i = pos_of_subvol(s, id);
    assert(0 <= i < s.len() && s[i].id == id);
    if i < j {
        assert(s[i].id != s[j].id);
    } else if j < i {
        assert(s[j].id != s[i].id);
    }
}

proof fn lemma_subvol_of_unique_partial(s: Seq<Subvol>, j: int)
    requires
        subvol_ids_unique(s),
        0 <= j < s.len(),
    ensures
        subvol_of(s, s[j].id) == s[j],
{
    lemma_subvol_of_unique(s, j);
}

pub proof fn lemma_pos_of_id_unique(s: Seq<u64>, j: int)
    requires
        ids_unique(s),
        0 <= j < s.len(),
    ensures
        pos_of_id(s, s[j]) == j,
{
    let x = s[j];
    assert(s.contains(x));
    let i = pos_of_id(s, x);
    if i < j {
        assert(s[i] != s[j]);
    } else if j < i {
        assert(s[j] != s[i]);
    }
}

/// The model state of the store: the ids in each namespace, with the
/// rootfs and working-copy entries carrying content and mutability.
pub ghost struct StoreView {
    pub boot: Seq<u64>,
    pub etc: Seq<u64>,
    pub rootfs: Seq<Subvol>,
    pub chr: Seq<Subvol>,
}

impl StoreView {
    pub open spec fn wf(self) -> bool {
        &&& ids_unique(self.boot)
        &&& ids_unique(self.etc)
        &&& subvol_ids_unique(self.rootfs)
        &&& subvol_ids_unique(self.chr)
    }

    /// The full `boot`/`etc`/`rootfs` triad of `id` is present.
    pub open spec fn triad_exists(self, id: u64) -> bool {
        &&& self.boot.contains(id)
        &&& self.etc.contains(id)
        &&& has_subvol(self.rootfs, id)
    }

    /// The `-chr` working triad of `id` is present: the transaction lock.
    pub open spec fn chr_exists(self, id: u64) -> bool {
        has_subvol(self.chr, id)
    }

    /// `id` is spoken for in at least one namespace.
    pub open spec fn id_used(self, id: u64) -> bool {
        self.boot.contains(id) || self.etc.contains(id) || has_subvol(self.rootfs, id)
    }
}

/// Whether `x` occurs in `v`.
pub fn id_vec_contains(v: &Vec<u64>, x: u64) -> (r: bool)
    ensures
        r == v@.contains(x),
{
    let mut i: usize = 0;
    while i < v.len()
        invariant
            i <= v@.len(),
            forall|j: int| 0 <= j < i ==> v@[j] != x,
        decreases v@.len() - i,
    {
        if v[i] == x {
            return true;
        }
        i = i + 1;
    }
    false
}

fn subvol_position(v: &Vec<Subvol>, id: u64) -> (r: Option<usize>)
    ensures
        match r {
            Some(i) => i < v@.len() && v@[i as int].id == id,
            None => !has_subvol(v@, id),
        },
{
    let mut i: usize = 0;
    while i < v.len()
        invariant
            i <= v@.len(),
            forall|j: int| 0 <= j < i ==> (#[trigger] v@[j].id) != id,
        decreases v@.len() - i,
    {
        if v[i].id == id {
            return Some(i);
        }
        i = i + 1;
    }
    None
}

fn id_vec_unique(v: &Vec<u64>) -> (r: bool)
    ensures
        r == ids_unique(v@),
{
    let mut a: usize = 0;
    while a < v.len()
        invariant
            a <= v@.len(),
            forall|i: int, j: int|
                0 <= i < j < v@.len() && i < a ==> (#[trigger] v@[i]) != (#[trigger] v@[j]),
        decreases v@.len() - a,
    {
        let mut b: usize = a + 1;
        while b < v.len()
            invariant
                a < b <= v@.len(),
                forall|j: int| a < j < b ==> (#[trigger] v@[j]) != v@[a as int],
            decreases v@.len() - b,
        {
            if v[b] == v[a] {
                return false;
            }
            b = b + 1;
        }
        a = a + 1;
    }
    true
}

fn remove_id_from(v: &mut Vec<u64>, x: u64)
    requires
        ids_unique(old(v)@),
    ensures
        final(v)@ == seq_drop_id(old(v)@, x),
        ids_unique(final(v)@),
{
    let mut i: usize = 0;
    while i < v.len()
        invariant
            i <= v@.len(),
            v@ == old(v)@,
            ids_unique(v@),
            forall|j: int| 0 <= j < i ==> v@[j] != x,
        decreases v@.len() - i,
    {
        if v[i] == x {
            proof {
                lemma_pos_of_id_unique(v@, i as int);
                lemma_unique_remove_id(v@, x);
            }
            let _ = v.remove(i);
            return ;
        }
        i = i + 1;
    }
    assert(!old(v)@.contains(x));
}

fn remove_subvol_from(v: &mut Vec<Subvol>, id: u64)
    requires
        subvol_ids_unique(old(v)@),
    ensures
        final(v)@ == seq_drop_subvol(old(v)@, id),
        subvol_ids_unique(final(v)@),
{
    let mut i: usize = 0;
    while i < v.len()
        invariant
            i <= v@.len(),
            v@ == old(v)@,
            subvol_ids_unique(v@),
            forall|j: int| 0 <= j < i ==> (#[trigger] v@[j].id) != id,
        decreases v@.len() - i,
    {
        if v[i].id == id {
            proof {
                lemma_subvol_of_unique(v@, i as int);
                lemma_unique_remove_subvol(v@, id);
            }
            let _ = v.remove(i);
            return ;
        }
        i = i + 1;
    }
    assert(!has_subvol(old(v)@, id));
}

/// There is always a positive id below `n + 2` that no namespace uses,
/// where `n` counts all namespace entries together.
proof fn lemma_free_id_exists(v: StoreView)
    requires
        v.boot.len() + v.etc.len() + v.rootfs.len() < u64::MAX,
    ensures
        exists|k: u64|
            1 <= k <= v.boot.len() + v.etc.len() + v.rootfs.len() + 1 && !(#[trigger] v.id_used(k)),
{
    broadcast use vstd::seq_lib::seq_to_set_is_finite;

    let n = (v.boot.len() + v.etc.len() + v.rootfs.len()) as u64;
    let rids = Seq::new(v.rootfs.len(), |i: int| v.rootfs[i].id);
    let used = v.boot.to_set() + v.etc.to_set() + rids.to_set();
    if forall|k: u64| 1 <= k <= n + 1 ==> #[trigger] v.id_used(k) {
        let r = Set::new(|x: u64| 1 <= x <= n + 1);
        lemma_u64_range_len((n + 1) as u64);
        v.boot.lemma_cardinality_of_set();
        v.etc.lemma_cardinality_of_set();
        rids.lemma_cardinality_of_set();
        vstd::set_lib::lemma_len_union(v.boot.to_set(), v.etc.to_set());
        vstd::set_lib::lemma_len_union(v.boot.to_set() + v.etc.to_set(), rids.to_set());
        assert(used.len() <= n);
        assert forall|x: u64| r.contains(x) implies used.contains(x) by {
            assert(v.id_used(x));
            if has_subvol(v.rootfs, x) {
                let i = choose|i: int| 0 <= i < v.rootfs.len() && (#[trigger] v.rootfs[i].id) == x;
                assert(rids[i] == x);
                assert(rids.contains(x));
            }
        }
        lemma_len_subset(r, used);
        assert(false);
    }
}

proof fn lemma_u64_range_len(n: u64)
    ensures
        Set::new(|x: u64| 1 <= x <= n).finite(),
        Set::new(|x: u64| 1 <= x <= n).len() == n,
    decreases n,
{
    let s = Set::new(|x: u64| 1 <= x <= n);
    if n == 0 {
        assert(s =~= Set::empty());
    } else {
        lemma_u64_range_len((n - 1) as u64);
        assert(s =~= Set::new(|x: u64| 1 <= x <= (n - 1) as u64).insert(n));
    }
}

/// The modelled subvolume store.
pub struct SubvolumeStore {
    boot: Vec<u64>,
    etc: Vec<u64>,
    rootfs: Vec<Subvol>,
    chr: Vec<Subvol>,
}

impl View for SubvolumeStore {
    type V = StoreView;

    closed spec fn view(&self) -> StoreView {
        StoreView { boot: self.boot@, etc: self.etc@, rootfs: self.rootfs@, chr: self.chr@ }
    }
}

impl SubvolumeStore {
    /// A store with no subvolumes at all.
    pub fn new() -> (r: SubvolumeStore)
        ensures
            r@.boot =~= Seq::<u64>::empty(),
            r@.etc =~= Seq::<u64>::empty(),
            r@.rootfs =~= Seq::<Subvol>::empty(),
            r@.chr =~= Seq::<Subvol>::empty(),
            r@.wf(),
    {
        SubvolumeStore { boot: Vec::new(), etc: Vec::new(), rootfs: Vec::new(), chr: Vec::new() }
    }

    /// Builds the store from the id lists found in the three namespaces,
    /// the working-copy ids, and the ids whose rootfs carries the
    /// mutability marker.  Content tokens start at zero.
    pub fn from_parts(
        boot: Vec<u64>,
        etc: Vec<u64>,
        rootfs: Vec<u64>,
        chr: Vec<u64>,
        mutable: Vec<u64>,
    ) -> (r: Result<SubvolumeStore, Error>)
        ensures
            match r {
                Ok(s) => {
                    &&& s@.wf()
                    &&& s@.boot == boot@
                    &&& s@.etc == etc@
                    &&& s@.rootfs.len() == rootfs@.len()
                    &&& forall|i: int|
                        0 <= i < rootfs@.len()
                            ==> (#[trigger] s@.rootfs[i]) == (Subvol {
                                id: rootfs@[i],
                                tok: 0,
                                flagged: mutable@.contains(rootfs@[i]),
                            })
                    &&& s@.chr.len() == chr@.len()
                    &&& forall|i: int|
                        0 <= i < chr@.len()
                            ==> (#[trigger] s@.chr[i]) == (Subvol {
                                id: chr@[i],
                                tok: 0,
                                flagged: true,
                            })
                },
                Err(e) => {
                    &&& e == (Error::Io { id: 0 })
                    &&& !(ids_unique(boot@) && ids_unique(etc@) && ids_unique(rootfs@)
                        && ids_unique(chr@))
                },
            },
    {
        if !id_vec_unique(&boot) || !id_vec_unique(&etc) || !id_vec_unique(&rootfs)
            || !id_vec_unique(&chr) {
            return Err(Error::Io { id: 0 });
        }
        let mut rv: Vec<Subvol> = Vec::new();
        let mut i: usize = 0;
        while i < rootfs.len()
            invariant
                i <= rootfs@.len(),
                ids_unique(rootfs@),
                rv@.len() == i,
                forall|j: int|
                    0 <= j < i
                        ==> (#[trigger] rv@[j]) == (Subvol {
                            id: rootfs@[j],
                            tok: 0,
                            flagged: mutable@.contains(rootfs@[j]),
                        }),
            decreases rootfs@.len() - i,
        {
            let flagged = id_vec_contains(&mutable, rootfs[i]);
            rv.push(Subvol { id: rootfs[i], tok: 0, flagged });
            i = i + 1;
        }
        let mut cv: Vec<Subvol> = Vec::new();
        let mut k: usize = 0;
        while k < chr.len()
            invariant
                k <= chr@.len(),
                ids_unique(chr@),
                cv@.len() == k,
                forall|j: int|
                    0 <= j < k
                        ==> (#[trigger] cv@[j]) == (Subvol { id: chr@[j], tok: 0, flagged: true }),
            decreases chr@.len() - k,
        {
            cv.push(Subvol { id: chr[k], tok: 0, flagged: true });
            k = k + 1;
        }
        let s = SubvolumeStore { boot, etc, rootfs: rv, chr: cv };
        proof {
            assert forall|a: int, b: int| 0 <= a < b < s@.rootfs.len() implies
                (#[trigger] s@.rootfs[a].id) != (#[trigger] s@.rootfs[b].id) by {
                assert(s@.rootfs[a].id == rootfs@[a] && s@.rootfs[b].id == rootfs@[b]);
            }
            assert forall|a: int, b: int| 0 <= a < b < s@.chr.len() implies
                (#[trigger] s@.chr[a].id) != (#[trigger] s@.chr[b].id) by {
                assert(s@.chr[a].id == chr@[a] && s@.chr[b].id == chr@[b]);
            }
        }
        Ok(s)
    }

    /// Whether the full triad of `id` is on storage.
    pub fn triad_exists(&self, id: u64) -> (r: bool)
        ensures
            r == self@.triad_exists(id),
    {
        let b = id_vec_contains(&self.boot, id);
        let e = id_vec_contains(&self.etc, id);
        let s = subvol_position(&self.rootfs, id);
        proof {
            if self@.rootfs.contains(subvol_of(self@.rootfs, id)) {
            }
        }
        b && e && s.is_some()
    }

    /// Whether the `-chr` working triad of `id` is on storage.
    pub fn chr_exists(&self, id: u64) -> (r: bool)
        ensures
            r == self@.chr_exists(id),
    {
        subvol_position(&self.chr, id).is_some()
    }

    /// Whether the rootfs of `id` carries the mutability marker.
    pub fn check_mutability(&self, id: u64) -> (r: bool)
        requires
            self@.wf(),
        ensures
            r == (has_subvol(self@.rootfs, id) && subvol_of(self@.rootfs, id).flagged),
    {
        match subvol_position(&self.rootfs, id) {
            None => false,
            Some(i) => {
                proof {
                    lemma_subvol_of_unique(self@.rootfs, i as int);
                }
                self.rootfs[i].flagged
            },
        }
    }

    /// The content token of the rootfs of `id`, if present.
    pub fn content_token(&self, id: u64) -> (r: Option<u64>)
        requires
            self@.wf(),
        ensures
            match r {
                Some(t) => has_subvol(self@.rootfs, id) && t == subvol_of(self@.rootfs, id).tok,
                None => !has_subvol(self@.rootfs, id),
            },
    {
        match subvol_position(&self.rootfs, id) {
            None => None,
            Some(i) => {
                proof {
                    lemma_subvol_of_unique(self@.rootfs, i as int);
                }
                Some(self.rootfs[i].tok)
            },
        }
    }

    /// The content token of the working copy of `id`, if present.
    pub fn chr_token(&self, id: u64) -> (r: Option<u64>)
        requires
            self@.wf(),
        ensures
            match r {
                Some(t) => has_subvol(self@.chr, id) && t == subvol_of(self@.chr, id).tok,
                None => !has_subvol(self@.chr, id),
            },
    {
        match subvol_position(&self.chr, id) {
            None => None,
            Some(i) => {
                proof {
                    lemma_subvol_of_unique(self@.chr, i as int);
                }
                Some(self.chr[i].tok)
            },
        }
    }

    /// The smallest positive id that no namespace uses.  It never
    /// collides with any entry of `boot`, `etc` or `rootfs`, and every
    /// smaller positive id is in use.
    pub fn find_new(&self) -> (r: u64)
        requires
            self@.boot.len() + self@.etc.len() + self@.rootfs.len() < u64::MAX,
        ensures
            r >= 1,
            !self@.id_used(r),
            forall|k: u64| 1 <= k < r ==> #[trigger] self@.id_used(k),
    {
        proof {
            lemma_free_id_exists(self@);
        }
        let ghost bound = self@.boot.len() + self@.etc.len() + self@.rootfs.len() + 1;
        let mut i: u64 = 1;
        loop
            invariant
                1 <= i,
                exists|k: u64| 1 <= k <= bound && !(#[trigger] self@.id_used(k)),
                forall|k: u64| 1 <= k < i ==> #[trigger] self@.id_used(k),
                i <= bound,
            decreases bound - i,
        {
            let b = id_vec_contains(&self.boot, i);
            let e = id_vec_contains(&self.etc, i);
            let s = subvol_position(&self.rootfs, i);
            if !b && !e && s.is_none() {
                return i;
            }
            proof {
                assert(self@.id_used(i));
                let k = choose|k: u64| 1 <= k <= bound && !(#[trigger] self@.id_used(k));
                assert(k > i);
            }
            i = i + 1;
        }
    }

    /// Copy-on-write duplicate of the whole triad of `src` as `dst`.  The
    /// new rootfs shares the source's content; a writable duplicate
    /// carries the mutability marker, a read-only one does not.
    pub fn duplicate(&mut self, src: u64, dst: u64, read_only: bool) -> (r: Result<(), Error>)
        requires
            old(self)@.wf(),
        ensures
            final(self)@.wf(),
            match r {
                Ok(()) => {
                    &&& old(self)@.triad_exists(src)
                    &&& !old(self)@.id_used(dst)
                    &&& final(self)@.boot == old(self)@.boot.push(dst)
                    &&& final(self)@.etc == old(self)@.etc.push(dst)
                    &&& final(self)@.rootfs == old(self)@.rootfs.push(Subvol {
                        id: dst,
                        tok: subvol_of(old(self)@.rootfs, src).tok,
                        flagged: !read_only,
                    })
                    &&& final(self)@.chr == old(self)@.chr
                },
                Err(e) => {
                    &&& final(self)@ == old(self)@
                    &&& (e == (Error::NotFound { id: src }) && !old(self)@.triad_exists(src)
                        || e == (Error::Conflict { id: dst }) && old(self)@.triad_exists(src)
                            && old(self)@.id_used(dst))
                },
            },
    {
        if !self.triad_exists(src) {
            return Err(Error::NotFound { id: src });
        }
        let used = {
            let b = id_vec_contains(&self.boot, dst);
            let e = id_vec_contains(&self.etc, dst);
            let s = subvol_position(&self.rootfs, dst);
            b || e || s.is_some()
        };
        if used {
            return Err(Error::Conflict { id: dst });
        }
        let tok = match self.content_token(src) {
            Some(t) => t,
            None => {
                proof {
                    assert(false);
                }
                0
            },
        };
        self.boot.push(dst);
        self.etc.push(dst);
        self.rootfs.push(Subvol { id: dst, tok, flagged: !read_only });
        proof {
            let rs = old(self)@.rootfs;
            let nr = self@.rootfs;
            assert forall|a: int, b: int| 0 <= a < b < nr.len() implies
                (#[trigger] nr[a].id) != (#[trigger] nr[b].id) by {
                if b == nr.len() - 1 {
                    assert(nr[a] == rs[a]);
                    if nr[a].id == dst {
                        assert(has_subvol(rs, dst));
                    }
                } else {
                    assert(nr[a] == rs[a] && nr[b] == rs[b]);
                }
            }
            assert(ids_unique(self@.boot)) by {
                assert(forall|j: int|
                    0 <= j < old(self)@.boot.len() ==> self@.boot[j] == old(self)@.boot[j]);
            }
            assert(ids_unique(self@.etc)) by {
                assert(forall|j: int|
                    0 <= j < old(self)@.etc.len() ==> self@.etc[j] == old(self)@.etc[j]);
            }
        }
        Ok(())
    }

    /// Deletes the whole triad of `id`.  Deleting an absent id is not an
    /// error.
    pub fn delete(&mut self, id: u64)
        requires
            old(self)@.wf(),
        ensures
            final(self)@.wf(),
            final(self)@.boot == seq_drop_id(old(self)@.boot, id),
            final(self)@.etc == seq_drop_id(old(self)@.etc, id),
            final(self)@.rootfs == seq_drop_subvol(old(self)@.rootfs, id),
            final(self)@.chr == old(self)@.chr,
    {
        remove_id_from(&mut self.boot, id);
        remove_id_from(&mut self.etc, id);
        remove_subvol_from(&mut self.rootfs, id);
    }

    /// Toggles the storage-level read-only property of the rootfs of
    /// `id`, together with its mutability marker.
    pub fn set_read_only(&mut self, id: u64, ro: bool) -> (r: Result<(), Error>)
        requires
            old(self)@.wf(),
        ensures
            final(self)@.wf(),
            final(self)@.boot == old(self)@.boot,
            final(self)@.etc == old(self)@.etc,
            final(self)@.chr == old(self)@.chr,
            match r {
                Ok(()) => {
                    &&& has_subvol(old(self)@.rootfs, id)
                    &&& final(self)@.rootfs == old(self)@.rootfs.update(
                        pos_of_subvol(old(self)@.rootfs, id),
                        Subvol { flagged: !ro, ..subvol_of(old(self)@.rootfs, id) },
                    )
                },
                Err(e) => {
                    &&& final(self)@ == old(self)@
                    &&& !has_subvol(old(self)@.rootfs, id)
                    &&& e == (Error::NotFound { id })
                },
            },
    {
        match subvol_position(&self.rootfs, id) {
            None => Err(Error::NotFound { id }),
            Some(i) => {
                proof {
                    lemma_subvol_of_unique(self@.rootfs, i as int);
                }
                let v = self.rootfs[i];
                let _ = self.rootfs.remove(i);
                self.rootfs.insert(i, Subvol { id: v.id, tok: v.tok, flagged: !ro });
                proof {
                    let rs = old(self)@.rootfs;
                    assert(self@.rootfs =~= rs.update(
                        i as int,
                        Subvol { flagged: !ro, ..subvol_of(rs, id) },
                    ));
                    assert forall|a: int, b: int| 0 <= a < b < self@.rootfs.len() implies
                        (#[trigger] self@.rootfs[a].id) != (#[trigger] self@.rootfs[b].id) by {
                        assert(self@.rootfs[a].id == rs[a].id);
                        assert(self@.rootfs[b].id == rs[b].id);
                    }
                }
                Ok(())
            },
        }
    }

    /// Stages a working copy: duplicates the triad of `id` as its `-chr`
    /// triad.  The working copy starts with the source's content and
    /// inherits its mutability marker.  An existing working triad is a
    /// conflict: it is the transaction lock.
    pub fn chr_create(&mut self, id: u64) -> (r: Result<(), Error>)
        requires
            old(self)@.wf(),
        ensures
            final(self)@.wf(),
            final(self)@.boot == old(self)@.boot,
            final(self)@.etc == old(self)@.etc,
            final(self)@.rootfs == old(self)@.rootfs,
            match r {
                Ok(()) => {
                    &&& !old(self)@.chr_exists(id)
                    &&& old(self)@.triad_exists(id)
                    &&& final(self)@.chr == old(self)@.chr.push(Subvol {
                        id,
                        tok: subvol_of(old(self)@.rootfs, id).tok,
                        flagged: subvol_of(old(self)@.rootfs, id).flagged,
                    })
                },
                Err(e) => {
                    &&& final(self)@ == old(self)@
                    &&& (e == (Error::Conflict { id }) && old(self)@.chr_exists(id)
                        || e == (Error::NotFound { id }) && !old(self)@.chr_exists(id)
                            && !old(self)@.triad_exists(id))
                },
            },
    {
        if self.chr_exists(id) {
            return Err(Error::Conflict { id });
        }
        if !self.triad_exists(id) {
            return Err(Error::NotFound { id });
        }
        let i = match subvol_position(&self.rootfs, id) {
            Some(i) => i,
            None => {
                proof {
                    assert(false);
                }
                return Err(Error::NotFound { id });
            },
        };
        proof {
            lemma_subvol_of_unique(self@.rootfs, i as int);
        }
        let v = self.rootfs[i];
        self.chr.push(Subvol { id, tok: v.tok, flagged: v.flagged });
        proof {
            let cs = old(self)@.chr;
            let nc = self@.chr;
            assert forall|a: int, b: int| 0 <= a < b < nc.len() implies
                (#[trigger] nc[a].id) != (#[trigger] nc[b].id) by {
                if b == nc.len() - 1 {
                    assert(nc[a] == cs[a]);
                    if nc[a].id == id {
                        assert(has_subvol(cs, id));
                    }
                } else {
                    assert(nc[a] == cs[a] && nc[b] == cs[b]);
                }
            }
        }
        Ok(())
    }

    /// Deletes the `-chr` working triad of `id`, releasing the lock.
    /// Deleting an absent working copy is not an error.
    pub fn chr_delete(&mut self, id: u64)
        requires
            old(self)@.wf(),
        ensures
            final(self)@.wf(),
            final(self)@.boot == old(self)@.boot,
            final(self)@.etc == old(self)@.etc,
            final(self)@.rootfs == old(self)@.rootfs,
            final(self)@.chr == seq_drop_subvol(old(self)@.chr, id),
    {
        remove_subvol_from(&mut self.chr, id);
    }

    /// The whole working-copy entry of `id`, if present.
    pub fn chr_entry(&self, id: u64) -> (r: Option<Subvol>)
        requires
            self@.wf(),
        ensures
            match r {
                Some(v) => has_subvol(self@.chr, id) && v == subvol_of(self@.chr, id),
                None => !has_subvol(self@.chr, id),
            },
    {
        match subvol_position(&self.chr, id) {
            None => None,
            Some(i) => {
                proof {
                    lemma_subvol_of_unique(self@.chr, i as int);
                }
                Some(self.chr[i])
            },
        }
    }

    /// Copy-on-write duplicate of the working triad of `id` into the
    /// final triad of the same id, content and mutability marker taken
    /// from the working copy.
    pub fn duplicate_from_chr(&mut self, id: u64) -> (r: Result<(), Error>)
        requires
            old(self)@.wf(),
        ensures
            final(self)@.wf(),
            final(self)@.chr == old(self)@.chr,
            match r {
                Ok(()) => {
                    &&& old(self)@.chr_exists(id)
                    &&& !old(self)@.id_used(id)
                    &&& final(self)@.boot == old(self)@.boot.push(id)
                    &&& final(self)@.etc == old(self)@.etc.push(id)
                    &&& final(self)@.rootfs == old(self)@.rootfs.push(Subvol {
                        id,
                        tok: subvol_of(old(self)@.chr, id).tok,
                        flagged: subvol_of(old(self)@.chr, id).flagged,
                    })
                },
                Err(e) => {
                    &&& final(self)@ == old(self)@
                    &&& (e == (Error::NotFound { id }) && !old(self)@.chr_exists(id)
                        || e == (Error::Conflict { id }) && old(self)@.chr_exists(id)
                            && old(self)@.id_used(id))
                },
            },
    {
        let c = match self.chr_entry(id) {
            None => {
                return Err(Error::NotFound { id });
            },
            Some(c) => c,
        };
        let used = {
            let b = id_vec_contains(&self.boot, id);
            let e = id_vec_contains(&self.etc, id);
            let s = subvol_position(&self.rootfs, id);
            b || e || s.is_some()
        };
        if used {
            return Err(Error::Conflict { id });
        }
        self.boot.push(id);
        self.etc.push(id);
        self.rootfs.push(Subvol { id, tok: c.tok, flagged: c.flagged });
        proof {
            let rs = old(self)@.rootfs;
            let nr = self@.rootfs;
            assert forall|a: int, b: int| 0 <= a < b < nr.len() implies
                (#[trigger] nr[a].id) != (#[trigger] nr[b].id) by {
                if b == nr.len() - 1 {
                    assert(nr[a] == rs[a]);
                    if nr[a].id == id {
                        assert(has_subvol(rs, id));
                    }
                } else {
                    assert(nr[a] == rs[a] && nr[b] == rs[b]);
                }
            }
            assert(ids_unique(self@.boot)) by {
                assert(forall|j: int|
                    0 <= j < old(self)@.boot.len() ==> self@.boot[j] == old(self)@.boot[j]);
            }
            assert(ids_unique(self@.etc)) by {
                assert(forall|j: int|
                    0 <= j < old(self)@.etc.len() ==> self@.etc[j] == old(self)@.etc[j]);
            }
        }
        Ok(())
    }

    /// Records that work inside the working copy of `id` changed its
    /// rootfs content to `tok`.
    pub fn set_chr_token(&mut self, id: u64, tok: u64) -> (r: Result<(), Error>)
        requires
            old(self)@.wf(),
        ensures
            final(self)@.wf(),
            final(self)@.boot == old(self)@.boot,
            final(self)@.etc == old(self)@.etc,
            final(self)@.rootfs == old(self)@.rootfs,
            match r {
                Ok(()) => {
                    &&& old(self)@.chr_exists(id)
                    &&& final(self)@.chr == old(self)@.chr.update(
                        pos_of_subvol(old(self)@.chr, id),
                        Subvol { tok, ..subvol_of(old(self)@.chr, id) },
                    )
                },
                Err(e) => {
                    &&& final(self)@ == old(self)@
                    &&& !old(self)@.chr_exists(id)
                    &&& e == (Error::NotFound { id })
                },
            },
    {
        match subvol_position(&self.chr, id) {
            None => Err(Error::NotFound { id }),
            Some(i) => {
                proof {
                    lemma_subvol_of_unique(self@.chr, i as int);
                }
                let v = self.chr[i];
                let _ = self.chr.remove(i);
                self.chr.insert(i, Subvol { id: v.id, tok, flagged: v.flagged });
                proof {
                    let cs = old(self)@.chr;
                    assert(self@.chr =~= cs.update(
                        i as int,
                        Subvol { tok, ..subvol_of(cs, id) },
                    ));
                    assert forall|a: int, b: int| 0 <= a < b < self@.chr.len() implies
                        (#[trigger] self@.chr[a].id) != (#[trigger] self@.chr[b].id) by {
                        assert(self@.chr[a].id == cs[a].id);
                        assert(self@.chr[b].id == cs[b].id);
                    }
                }
                Ok(())
            },
        }
    }
}

/// The smallest positive id that no namespace uses.
pub fn find_new(store: &SubvolumeStore) -> (r: u64)
    requires
        store@.boot.len() + store@.etc.len() + store@.rootfs.len() < u64::MAX,
    ensures
        r >= 1,
        !store@.id_used(r),
        forall|k: u64| 1 <= k < r ==> #[trigger] store@.id_used(k),
{
    store.find_new()
}

} // verus!
