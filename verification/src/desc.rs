//! Per-snapshot descriptions: free text keyed by snapshot id.
//!
//! A description is created on first write and never required to exist:
//! an absent entry reads as no description.  Besides user notes the text
//! carries the mutability tag, which enabling immutability strips again —
//! exactly the literal tag, never the rest of the text.

use vstd::prelude::*;

verus! {

/// The mutability tag as bytes: `MUTABLE`.
pub open spec fn tag_bytes() -> Seq<u8> {
    seq![77u8, 85u8, 84u8, 65u8, 66u8, 76u8, 69u8]
}

/// `s` with every occurrence of the tag removed, scanning left to right
/// without overlap.
pub open spec fn spec_strip_tag(s: Seq<u8>) -> Seq<u8>
    decreases s.len(),
{
    if s.len() == 0 {
        s
    } else if s.len() >= 7 && s.take(7) == tag_bytes() {
        spec_strip_tag(s.skip(7))
    } else {
        seq![s[0]] + spec_strip_tag(s.skip(1))
    }
}

/// One description entry.
#[derive(Debug)]
pub struct DescEntry {
    pub id: u64,
    pub text: Vec<u8>,
}

/// The description store: at most one text per id.
pub struct DescriptionStore {
    entries: Vec<DescEntry>,
}

/// The model of the store: the entries in creation order.
pub open spec fn desc_pairs(s: Seq<DescEntry>) -> Seq<(u64, Seq<u8>)> {
    Seq::new(s.len(), |i: int| (s[i].id, s[i].text@))
}

pub open spec fn desc_keys_unique(v: Seq<(u64, Seq<u8>)>) -> bool {
    forall|i: int, j: int| 0 <= i < j < v.len() ==> (#[trigger] v[i].0) != (#[trigger] v[j].0)
}

pub open spec fn has_desc(v: Seq<(u64, Seq<u8>)>, id: u64) -> bool {
    exists|i: int| 0 <= i < v.len() && (#[trigger] v[i].0) == id
}

pub open spec fn desc_pos(v: Seq<(u64, Seq<u8>)>, id: u64) -> int {
    choose|i: int| 0 <= i < v.len() && (#[trigger] v[i].0) == id
}

/// The description of `id`: its stored text, or empty when absent.
pub open spec fn desc_of(v: Seq<(u64, Seq<u8>)>, id: u64) -> Seq<u8> {
    if has_desc(v, id) {
        v[desc_pos(v, id)].1
    } else {
        Seq::empty()
    }
}

/// The store after writing `text` for `id`: replacing or appending to
/// what is there, creating the entry when absent.
pub open spec fn spec_write_desc(
    v: Seq<(u64, Seq<u8>)>,
    id: u64,
    text: Seq<u8>,
    replace: bool,
) -> Seq<(u64, Seq<u8>)> {
    if !has_desc(v, id) {
        v.push((id, text))
    } else if replace {
        v.update(desc_pos(v, id), (id, text))
    } else {
        v.update(desc_pos(v, id), (id, v[desc_pos(v, id)].1 + text))
    }
}

/// The store after stripping the mutability tag from the entry of `id`.
pub open spec fn spec_strip_desc(v: Seq<(u64, Seq<u8>)>, id: u64) -> Seq<(u64, Seq<u8>)> {
    if has_desc(v, id) {
        v.update(desc_pos(v, id), (id, spec_strip_tag(v[desc_pos(v, id)].1)))
    } else {
        v
    }
}

pub proof fn lemma_desc_pos_unique(v: Seq<(u64, Seq<u8>)>, j: int)
    requires
        desc_keys_unique(v),
        0 <= j < v.len(),
    ensures
        desc_pos(v, v[j].0) == j,
{
    let id = v[j].0;
    assert(has_desc(v, id));
    let i = desc_pos(v, id);
    if i < j {
        assert(v[i].0 != v[j].0);
    } else if j < i {
        assert(v[j].0 != v[i].0);
    }
}

/// A byte-for-byte copy of `src`.
pub fn copy_bytes(src: &Vec<u8>) -> (r: Vec<u8>)
    ensures
        r@ == src@,
{
    let mut out: Vec<u8> = Vec::new();
    let mut i: usize = 0;
    while i < src.len()
        invariant
            i <= src@.len(),
            out@ =~= src@.take(i as int),
        decreases src@.len() - i,
    {
        out.push(src[i]);
        proof {
            assert(out@ =~= src@.take(i as int + 1));
        }
        i = i + 1;
    }
    proof {
        assert(out@ =~= src@);
    }
    out
}

/// `text` with every occurrence of the mutability tag removed.
pub fn strip_tag(text: &Vec<u8>) -> (r: Vec<u8>)
    ensures
        r@ == spec_strip_tag(text@),
{
    let n = text.len();
    let mut out: Vec<u8> = Vec::new();
    let mut i: usize = 0;
    proof {
        assert(text@.skip(0) =~= text@);
    }
    while i < n
        invariant
            i <= n,
            n == text@.len(),
            spec_strip_tag(text@) == out@ + spec_strip_tag(text@.skip(i as int)),
        decreases n - i,
    {
        let ghost rem = text@.skip(i as int);
        let hit = if n - i >= 7 {
            text[i] == 77 && text[i + 1] == 85 && text[i + 2] == 84 && text[i + 3] == 65
                && text[i + 4] == 66 && text[i + 5] == 76 && text[i + 6] == 69
        } else {
            false
        };
        if hit {
            proof {
                assert(rem.take(7) =~= tag_bytes()) by {
                    assert(forall|k: int| 0 <= k < 7 ==> rem.take(7)[k] == text@[i + k]);
                    assert(text@[i as int] == 77 && text@[i + 1] == 85 && text@[i + 2] == 84
                        && text@[i + 3] == 65 && text@[i + 4] == 66 && text@[i + 5] == 76
                        && text@[i + 6] == 69);
                }
                assert(rem.skip(7) =~= text@.skip(i as int + 7));
                assert(spec_strip_tag(rem) == spec_strip_tag(text@.skip(i as int + 7)));
            }
            i = i + 7;
        } else {
            proof {
                assert(rem.len() > 0);
                assert(rem[0] == text@[i as int]);
                if rem.len() >= 7 && rem.take(7) == tag_bytes() {
                    assert(forall|k: int| 0 <= k < 7 ==> rem.take(7)[k] == text@[i + k]);
                    assert(text@[i as int] == 77 && text@[i + 1] == 85 && text@[i + 2] == 84
                        && text@[i + 3] == 65 && text@[i + 4] == 66 && text@[i + 5] == 76
                        && text@[i + 6] == 69);
                    assert(false);
                }
                assert(rem.skip(1) =~= text@.skip(i as int + 1));
                assert(spec_strip_tag(rem) == seq![text@[i as int]]
                    + spec_strip_tag(text@.skip(i as int + 1)));
            }
            let ghost out0 = out@;
            out.push(text[i]);
            proof {
                assert(out@ + spec_strip_tag(text@.skip(i as int + 1))
                    =~= out0 + (seq![text@[i as int]]
                        + spec_strip_tag(text@.skip(i as int + 1))));
            }
            i = i + 1;
        }
    }
    proof {
        assert(text@.skip(n as int) =~= Seq::<u8>::empty());
        assert(spec_strip_tag(Seq::<u8>::empty()) =~= Seq::<u8>::empty());
        assert(out@ + Seq::<u8>::empty() =~= out@);
    }
    out
}

impl View for DescriptionStore {
    type V = Seq<(u64, Seq<u8>)>;

    closed spec fn view(&self) -> Seq<(u64, Seq<u8>)> {
        desc_pairs(self.entries@)
    }
}

impl DescriptionStore {
    pub open spec fn wf(&self) -> bool {
        desc_keys_unique(self@)
    }

    /// A store with no descriptions yet.
    pub fn new() -> (r: DescriptionStore)
        ensures
            r@ =~= Seq::<(u64, Seq<u8>)>::empty(),
            r.wf(),
    {
        DescriptionStore { entries: Vec::new() }
    }

    fn position_of(&self, id: u64) -> (r: Option<usize>)
        ensures
            match r {
                Some(i) => i < self@.len() && self@[i as int].0 == id,
                None => !has_desc(self@, id),
            },
    {
        let mut i: usize = 0;
        while i < self.entries.len()
            invariant
                i <= self@.len(),
                self@.len() == self.entries@.len(),
                forall|j: int| 0 <= j < i ==> (#[trigger] self@[j].0) != id,
            decreases self@.len() - i,
        {
            if self.entries[i].id == id {
                return Some(i);
            }
            i = i + 1;
        }
        None
    }

    /// The stored description of `id`; absence is not an error.
    pub fn read_desc(&self, id: u64) -> (r: Option<&Vec<u8>>)
        requires
            self.wf(),
        ensures
            match r {
                Some(t) => has_desc(self@, id) && t@ == desc_of(self@, id),
                None => !has_desc(self@, id),
            },
    {
        match self.position_of(id) {
            None => None,
            Some(i) => {
                proof {
                    lemma_desc_pos_unique(self@, i as int);
                }
                Some(&self.entries[i].text)
            },
        }
    }

    /// Writes the description of `id`: truncate-then-write when
    /// `replace`, append otherwise; the entry is created on first write.
    pub fn write_desc(&mut self, id: u64, text: &Vec<u8>, replace: bool)
        requires
            old(self).wf(),
        ensures
            final(self).wf(),
            final(self)@ == spec_write_desc(old(self)@, id, text@, replace),
    {
        let copied = copy_bytes(text);
        match self.position_of(id) {
            None => {
                self.entries.push(DescEntry { id, text: copied });
                proof {
                    assert(self@ =~= old(self)@.push((id, text@)));
                    assert forall|a: int, b: int| 0 <= a < b < self@.len() implies
                        (#[trigger] self@[a].0) != (#[trigger] self@[b].0) by {
                        if b == self@.len() - 1 {
                            assert(self@[a] == old(self)@[a]);
                            if self@[a].0 == id {
                                assert(has_desc(old(self)@, id));
                            }
                        } else {
                            assert(self@[a] == old(self)@[a] && self@[b] == old(self)@[b]);
                        }
                    }
                }
            },
            Some(i) => {
                proof {
                    lemma_desc_pos_unique(self@, i as int);
                }
                if replace {
                    let _ = self.entries.remove(i);
                    self.entries.insert(i, DescEntry { id, text: copied });
                } else {
                    let prev = self.entries.remove(i);
                    let mut joined = prev.text;
                    let mut k: usize = 0;
                    while k < copied.len()
                        invariant
                            k <= copied@.len(),
                            copied@ == text@,
                            joined@ =~= prev.text@ + copied@.take(k as int),
                        decreases copied@.len() - k,
                    {
                        joined.push(copied[k]);
                        proof {
                            assert(joined@ =~= prev.text@ + copied@.take(k as int + 1));
                        }
                        k = k + 1;
                    }
                    proof {
                        assert(joined@ =~= prev.text@ + text@);
                    }
                    self.entries.insert(i, DescEntry { id, text: joined });
                }
                proof {
                    let want = spec_write_desc(old(self)@, id, text@, replace);
                    assert(self@ =~= want);
                    assert forall|a: int, b: int| 0 <= a < b < self@.len() implies
                        (#[trigger] self@[a].0) != (#[trigger] self@[b].0) by {
                        assert(self@[a].0 == old(self)@[a].0);
                        assert(self@[b].0 == old(self)@[b].0);
                    }
                }
            },
        }
    }

    /// Strips the mutability tag from the description of `id`, leaving
    /// the rest of the text alone.
    pub fn strip_mutable_tag(&mut self, id: u64)
        requires
            old(self).wf(),
        ensures
            final(self).wf(),
            final(self)@ == spec_strip_desc(old(self)@, id),
    {
        match self.position_of(id) {
            None => {},
            Some(i) => {
                proof {
                    lemma_desc_pos_unique(self@, i as int);
                }
                let prev = self.entries.remove(i);
                let stripped = strip_tag(&prev.text);
                self.entries.insert(i, DescEntry { id, text: stripped });
                proof {
                    assert(self@ =~= spec_strip_desc(old(self)@, id));
                    assert forall|a: int, b: int| 0 <= a < b < self@.len() implies
                        (#[trigger] self@[a].0) != (#[trigger] self@[b].0) by {
                        assert(self@[a].0 == old(self)@[a].0);
                        assert(self@[b].0 == old(self)@[b].0);
                    }
                }
            },
        }
    }
}

} // verus!
