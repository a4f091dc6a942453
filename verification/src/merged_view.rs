//! The merged view: an ordered collection of excerpt records, one per
//! currently-tracked path, always kept in key-sorted order. Only the
//! reconciler mutates it; everything else reads it.

use vstd::prelude::*;
use vstd::pervasive::VecAdditionalExecFns;
use crate::path_key::{
    PathKey, lemma_key_lt_irrefl, lemma_key_lt_asym, lemma_key_lt_connected, lemma_key_lt_trans,
};

verus! {

/// A contiguous range of rows (line numbers) in a document.
#[derive(Clone, Copy, Debug, PartialEq, Eq, Structural)]
pub struct RowRange {
    pub start: u32,
    pub end: u32,
}

/// One materialized excerpt: the part of one document shown in the merged
/// view for one path — the diff hunk ranges plus surrounding context.
#[derive(Debug)]
pub struct Excerpt {
    pub key: PathKey,
    pub document_id: u64,
    pub ranges: Vec<RowRange>,
    pub folded: bool,
}

impl Excerpt {
    /// Mathematical equality of excerpt records.
    pub open spec fn eqv(self, other: Excerpt) -> bool {
        self.key.eqv(other.key) && self.document_id == other.document_id && self.ranges@
            == other.ranges@ && self.folded == other.folded
    }
}

/// The keys strictly ascend: the visible order is the key sort order, and
/// each key occurs at most once.
pub open spec fn sorted_keys(s: Seq<Excerpt>) -> bool {
    forall|i: int, j: int| 0 <= i < j < s.len() ==> s[i].key.lt(s[j].key)
}

/// Some excerpt in `s` carries the key `k`.
pub open spec fn seq_has_key(s: Seq<Excerpt>, k: PathKey) -> bool {
    exists|i: int| 0 <= i < s.len() && #[trigger] s[i].key.eqv(k)
}

/// The index of the excerpt carrying `k` (unique when the keys ascend).
pub open spec fn key_index(s: Seq<Excerpt>, k: PathKey) -> int {
    choose|i: int| 0 <= i < s.len() && #[trigger] s[i].key.eqv(k)
}

/// The excerpt record carrying `k`.
pub open spec fn entry_of(s: Seq<Excerpt>, k: PathKey) -> Excerpt {
    s[key_index(s, k)]
}

/// In a sorted view a key occurs at one index only.
pub proof fn lemma_key_unique(s: Seq<Excerpt>, k: PathKey, i: int, j: int)
    requires
        sorted_keys(s),
        0 <= i < s.len(),
        0 <= j < s.len(),
        s[i].key.eqv(k),
        s[j].key.eqv(k),
    ensures
        i == j,
{
    if i < j {
        lemma_key_lt_irrefl(s[i].key, s[j].key);
    }
    if j < i {
        lemma_key_lt_irrefl(s[j].key, s[i].key);
    }
}

/// `entry_of` picks the witness index: any index carrying `k` is the index.
pub proof fn lemma_entry_at(s: Seq<Excerpt>, k: PathKey, i: int)
    requires
        sorted_keys(s),
        0 <= i < s.len(),
        s[i].key.eqv(k),
    ensures
        seq_has_key(s, k),
        key_index(s, k) == i,
        entry_of(s, k) == s[i],
{
    assert(seq_has_key(s, k));
    lemma_key_unique(s, k, key_index(s, k), i);
}

/// The ordered collection of excerpts. Invariant: the set of keys present
/// equals exactly the set of paths with active changes as of the most
/// recently completed refresh, and the keys strictly ascend.
#[derive(Debug)]
pub struct MergedView {
    entries: Vec<Excerpt>,
}

impl MergedView {
    /// The mathematical content of the view: its excerpts in visible order.
    pub closed spec fn rep(self) -> Seq<Excerpt> {
        self.entries@
    }

    /// Well-formedness: the visible order is the key sort order.
    pub open spec fn wf(self) -> bool {
        sorted_keys(self.rep())
    }

    pub open spec fn spec_len(self) -> nat {
        self.rep().len()
    }

    pub open spec fn has_key(self, k: PathKey) -> bool {
        seq_has_key(self.rep(), k)
    }

    pub open spec fn entry(self, k: PathKey) -> Excerpt {
        entry_of(self.rep(), k)
    }

    /// An empty view.
    pub fn new() -> (v: MergedView)
        ensures
            v.wf(),
            v.spec_len() == 0,
    {
        MergedView { entries: Vec::new() }
    }

    pub fn len(&self) -> (n: usize)
        ensures
            n == self.spec_len(),
    {
        self.entries.len()
    }

    pub fn is_empty(&self) -> (r: bool)
        ensures
            r == (self.spec_len() == 0),
    {
        self.entries.len() == 0
    }

    /// Read access to the excerpt at a visible position.
    pub fn get(&self, i: usize) -> (e: &Excerpt)
        requires
            i < self.spec_len(),
        ensures
            *e == self.rep()[i as int],
    {
        &self.entries[i]
    }

    /// The first position whose key does not sort before `key`.
    fn lower_bound(&self, key: &PathKey) -> (i: usize)
        requires
            self.wf(),
        ensures
            i <= self.spec_len(),
            forall|j: int| 0 <= j < i ==> self.rep()[j].key.lt(*key),
            i < self.spec_len() ==> !self.rep()[i as int].key.lt(*key),
    {
        let mut i: usize = 0;
        while i < self.entries.len()
            invariant
                i <= self.spec_len(),
                forall|j: int| 0 <= j < i ==> self.rep()[j].key.lt(*key),
        decreases self.spec_len() - i,
        {
            if !self.entries[i].key.lt_key(key) {
                return i;
            }
            i = i + 1;
        }
        i
    }

    /// Inserts or replaces the excerpt for `key`, keeping the view sorted.
    /// Re-insertion of an existing key updates its record in place; a new
    /// key lands at its sort position. Returns true when the key was newly
    /// added (previously absent).
    pub fn set_excerpts(
        &mut self,
        key: PathKey,
        document_id: u64,
        ranges: Vec<RowRange>,
        folded: bool,
    ) -> (newly_added: bool)
        requires
            old(self).wf(),
        ensures
            final(self).wf(),
            newly_added == !old(self).has_key(key),
            final(self).has_key(key),
            final(self).entry(key).key.eqv(key),
            final(self).entry(key).document_id == document_id,
            final(self).entry(key).ranges@ == ranges@,
            final(self).entry(key).folded == folded,
            forall|k2: PathKey|
                !k2.eqv(key) ==> final(self).has_key(k2) == old(self).has_key(k2),
            forall|k2: PathKey|
                !k2.eqv(key) && old(self).has_key(k2) ==> final(self).entry(k2) == old(self).entry(k2),
            final(self).spec_len() == old(self).spec_len() + (if newly_added {
                1int
            } else {
                0int
            }),
    {
        let ghost s0 = self.rep();
        let i = self.lower_bound(&key);
        let replaces = i < self.entries.len() && self.entries[i].key.eq_key(&key);
        let record = Excerpt { key, document_id, ranges, folded };
        let ghost k = record.key;
        if replaces {
            self.entries.set(i, record);
            proof {
                let s1 = self.rep();
                assert forall|p: int, q: int| 0 <= p < q < s1.len() implies s1[p].key.lt(
                    s1[q].key,
                ) by {
                    assert(s0[p].key.lt(s0[q].key));
                }
                lemma_entry_at(s0, k, i as int);
                lemma_entry_at(s1, k, i as int);
                assert forall|k2: PathKey| !k2.eqv(k) implies seq_has_key(s1, k2)
                    == seq_has_key(s0, k2) by {
                    if seq_has_key(s0, k2) {
                        let j = key_index(s0, k2);
                        assert(j != i);
                        assert(s1[j].key.eqv(k2));
                    }
                    if seq_has_key(s1, k2) {
                        let j = key_index(s1, k2);
                        assert(j != i);
                        assert(s0[j].key.eqv(k2));
                    }
                }
                assert forall|k2: PathKey| !k2.eqv(k) && seq_has_key(s0, k2) implies entry_of(
                    s1,
                    k2,
                ) == entry_of(s0, k2) by {
                    let j = key_index(s0, k2);
                    assert(j != i);
                    assert(s1[j].key.eqv(k2));
                    lemma_entry_at(s1, k2, j);
                }
            }
            false
        } else {
            proof {
                // `key` is absent: positions before i sort below it, the rest above.
                assert forall|j: int| 0 <= j < s0.len() implies !s0[j].key.eqv(k) by {
                    if j < i {
                        lemma_key_lt_asym(s0[j].key, k);
                        if s0[j].key.eqv(k) {
                            lemma_key_lt_irrefl(s0[j].key, k);
                        }
                    } else if j == i {
                        assert(!s0[j].key.eqv(k));
                    } else {
                        // j > i: k.lt(s0[i].key) and s0[i].key.lt(s0[j].key)
                        if !s0[i as int].key.eqv(k) {
                            if !k.lt(s0[i as int].key) {
                                lemma_key_lt_connected(s0[i as int].key, k);
                            }
                            lemma_key_lt_trans(k, s0[i as int].key, s0[j].key);
                            if s0[j].key.eqv(k) {
                                lemma_key_lt_irrefl(k, s0[j].key);
                            }
                        }
                    }
                }
            }
            self.entries.insert(i, record);
            proof {
                let s1 = self.rep();
                assert(s1 == s0.insert(i as int, record));
                // key at i strictly above everything before, strictly below everything after
                assert(i < s0.len() ==> !s0[i as int].key.eqv(k));
                if i < s0.len() && !k.lt(s0[i as int].key) {
                    lemma_key_lt_connected(s0[i as int].key, k);
                }
                assert forall|p: int, q: int| 0 <= p < q < s1.len() implies s1[p].key.lt(
                    s1[q].key,
                ) by {
                    if q < i {
                        assert(s1[p] == s0[p]);
                        assert(s1[q] == s0[q]);
                    } else if p < i && q == i {
                        assert(s1[p] == s0[p]);
                        assert(s1[q] == record);
                    } else if p < i && q > i {
                        assert(s1[p] == s0[p]);
                        assert(s1[q] == s0[q - 1]);
                    } else if p == i {
                        assert(s1[p] == record);
                        assert(s1[q] == s0[q - 1]);
                        if q - 1 > i {
                            lemma_key_lt_trans(k, s0[i as int].key, s0[q - 1].key);
                        }
                    } else {
                        assert(s1[p] == s0[p - 1]);
                        assert(s1[q] == s0[q - 1]);
                    }
                }
                lemma_entry_at(s1, k, i as int);
                assert forall|k2: PathKey| !k2.eqv(k) implies seq_has_key(s1, k2)
                    == seq_has_key(s0, k2) by {
                    if seq_has_key(s0, k2) {
                        let j = key_index(s0, k2);
                        if j < i {
                            assert(s1[j].key.eqv(k2));
                        } else {
                            assert(s1[j + 1].key.eqv(k2));
                        }
                    }
                    if seq_has_key(s1, k2) {
                        let j = key_index(s1, k2);
                        assert(j != i);
                        if j < i {
                            assert(s0[j].key.eqv(k2));
                        } else {
                            assert(s0[j - 1].key.eqv(k2));
                        }
                    }
                }
                assert forall|k2: PathKey| !k2.eqv(k) && seq_has_key(s0, k2) implies entry_of(
                    s1,
                    k2,
                ) == entry_of(s0, k2) by {
                    let j = key_index(s0, k2);
                    if j < i {
                        assert(s1[j].key.eqv(k2));
                        lemma_entry_at(s1, k2, j);
                    } else {
                        assert(s1[j + 1].key.eqv(k2));
                        lemma_entry_at(s1, k2, j + 1);
                    }
                }
                assert(!seq_has_key(s0, k));
            }
            true
        }
    }

    /// Removes the excerpt for `key`, if present. Returns true when an
    /// excerpt was removed.
    pub fn remove_excerpts(&mut self, key: &PathKey) -> (removed: bool)
        requires
            old(self).wf(),
        ensures
            final(self).wf(),
            removed == old(self).has_key(*key),
            !final(self).has_key(*key),
            forall|k2: PathKey|
                !k2.eqv(*key) ==> final(self).has_key(k2) == old(self).has_key(k2),
            forall|k2: PathKey|
                !k2.eqv(*key) && old(self).has_key(k2) ==> final(self).entry(k2) == old(self).entry(k2),
            final(self).spec_len() == old(self).spec_len() - (if removed {
                1int
            } else {
                0int
            }),
    {
        let ghost s0 = self.rep();
        let loc = self.location_for(key);
        match loc {
            None => false,
            Some(i) => {
                proof {
                    assert(s0[i as int].key.eqv(*key));
                }
                self.entries.remove(i);
                proof {
                    let s1 = self.rep();
                    assert(s1 == s0.remove(i as int));
                    assert forall|p: int, q: int| 0 <= p < q < s1.len() implies s1[p].key.lt(
                        s1[q].key,
                    ) by {
                        if q < i {
                            assert(s1[p] == s0[p]);
                            assert(s1[q] == s0[q]);
                        } else if p < i {
                            assert(s1[p] == s0[p]);
                            assert(s1[q] == s0[q + 1]);
                        } else {
                            assert(s1[p] == s0[p + 1]);
                            assert(s1[q] == s0[q + 1]);
                        }
                    }
                    assert forall|j: int| 0 <= j < s1.len() implies !s1[j].key.eqv(*key) by {
                        if j < i {
                            assert(s1[j] == s0[j]);
                            if s1[j].key.eqv(*key) {
                                lemma_key_unique(s0, *key, i as int, j);
                            }
                        } else {
                            assert(s1[j] == s0[j + 1]);
                            if s1[j].key.eqv(*key) {
                                lemma_key_unique(s0, *key, i as int, j + 1);
                            }
                        }
                    }
                    assert forall|k2: PathKey| !k2.eqv(*key) implies seq_has_key(s1, k2)
                        == seq_has_key(s0, k2) by {
                        if seq_has_key(s0, k2) {
                            let j = key_index(s0, k2);
                            assert(j != i);
                            if j < i {
                                assert(s1[j].key.eqv(k2));
                            } else {
                                assert(s1[j - 1].key.eqv(k2));
                            }
                        }
                        if seq_has_key(s1, k2) {
                            let j = key_index(s1, k2);
                            if j < i {
                                assert(s0[j].key.eqv(k2));
                            } else {
                                assert(s0[j + 1].key.eqv(k2));
                            }
                        }
                    }
                    assert forall|k2: PathKey| !k2.eqv(*key) && seq_has_key(s0, k2)
                        implies entry_of(s1, k2) == entry_of(s0, k2) by {
                        let j = key_index(s0, k2);
                        assert(j != i);
                        if j < i {
                            assert(s1[j].key.eqv(k2));
                            lemma_entry_at(s1, k2, j);
                        } else {
                            assert(s1[j - 1].key.eqv(k2));
                            lemma_entry_at(s1, k2, j - 1);
                        }
                    }
                }
                true
            },
        }
    }

    /// The visible position of the excerpt for `key`, if one exists.
    pub fn location_for(&self, key: &PathKey) -> (r: Option<usize>)
        requires
            self.wf(),
        ensures
            match r {
                Some(i) => self.has_key(*key) && i < self.spec_len() && i as int == key_index(
                    self.rep(),
                    *key,
                ),
                None => !self.has_key(*key),
            },
    {
        let mut i: usize = 0;
        while i < self.entries.len()
            invariant
                i <= self.spec_len(),
                self.wf(),
                forall|j: int| 0 <= j < i ==> !self.rep()[j].key.eqv(*key),
            decreases self.spec_len() - i,
        {
            if self.entries[i].key.eq_key(key) {
                proof {
                    lemma_entry_at(self.rep(), *key, i as int);
                }
                return Some(i);
            }
            i = i + 1;
        }
        None
    }
}

/// Membership, index and record lookups agree on equal keys.
pub proof fn lemma_key_congruence(s: Seq<Excerpt>, k1: PathKey, k2: PathKey)
    requires
        sorted_keys(s),
        k1.eqv(k2),
    ensures
        seq_has_key(s, k1) == seq_has_key(s, k2),
        seq_has_key(s, k1) ==> key_index(s, k1) == key_index(s, k2) && entry_of(s, k1)
            == entry_of(s, k2),
{
    if seq_has_key(s, k1) {
        let i = key_index(s, k1);
        assert(s[i].key.eqv(k2));
        lemma_entry_at(s, k2, i);
    }
    if seq_has_key(s, k2) {
        let i = key_index(s, k2);
        assert(s[i].key.eqv(k1));
        lemma_entry_at(s, k1, i);
    }
}

/// The keys of a sorted view still ascend after its first excerpt is
/// dropped.
pub proof fn lemma_sorted_tail(s: Seq<Excerpt>)
    requires
        sorted_keys(s),
        s.len() > 0,
    ensures
        sorted_keys(s.drop_first()),
{
    let t = s.drop_first();
    assert forall|p: int, q: int| 0 <= p < q < t.len() implies t[p].key.lt(t[q].key) by {
        assert(t[p] == s[p + 1]);
        assert(t[q] == s[q + 1]);
    }
}

/// Membership and records below the first excerpt of a sorted view carry
/// over to its tail unchanged.
pub proof fn lemma_tail_transfer(s: Seq<Excerpt>, k: PathKey)
    requires
        sorted_keys(s),
        s.len() > 0,
    ensures
        seq_has_key(s.drop_first(), k) == (seq_has_key(s, k) && !s[0].key.eqv(k)),
        seq_has_key(s.drop_first(), k) ==> entry_of(s.drop_first(), k) == entry_of(s, k),
{
    let t = s.drop_first();
    lemma_sorted_tail(s);
    if seq_has_key(t, k) {
        let j = key_index(t, k);
        assert(t[j] == s[j + 1]);
        lemma_entry_at(s, k, j + 1);
        lemma_entry_at(t, k, j);
        if s[0].key.eqv(k) {
            lemma_key_unique(s, k, 0, j + 1);
        }
    }
    if seq_has_key(s, k) && !s[0].key.eqv(k) {
        let j = key_index(s, k);
        assert(j != 0);
        assert(t[j - 1] == s[j]);
        assert(seq_has_key(t, k));
    }
}

/// Ordering invariant, stated over content alone: two sorted views that
/// track the same keys with the same records are identical — same length,
/// same visible order, same contents. The visible order of a well-formed
/// view is thus a function of what it tracks, never of the order in which
/// loads completed or keys were registered.
pub proof fn lemma_view_canonical(s1: Seq<Excerpt>, s2: Seq<Excerpt>)
    requires
        sorted_keys(s1),
        sorted_keys(s2),
        forall|k: PathKey| seq_has_key(s1, k) == seq_has_key(s2, k),
        forall|k: PathKey|
            seq_has_key(s1, k) ==> entry_of(s1, k).eqv(entry_of(s2, k)),
    ensures
        s1.len() == s2.len(),
        forall|i: int| 0 <= i < s1.len() ==> s1[i].eqv(s2[i]),
    decreases s1.len(),
{
    if s1.len() == 0 {
        if s2.len() > 0 {
            assert(s2[0].key.eqv(s2[0].key));
            assert(seq_has_key(s2, s2[0].key));
        }
    } else if s2.len() == 0 {
        assert(s1[0].key.eqv(s1[0].key));
        assert(seq_has_key(s1, s1[0].key));
    } else {
        let k1 = s1[0].key;
        let k2 = s2[0].key;
        assert(s1[0].key.eqv(k1));
        assert(s2[0].key.eqv(k2));
        assert(seq_has_key(s1, k1));
        assert(seq_has_key(s2, k2));
        let j = key_index(s2, k1);
        let m = key_index(s1, k2);
        assert(s2[j].key.eqv(k1));
        assert(s1[m].key.eqv(k2));
        if j > 0 && m > 0 {
            assert(s2[0].key.lt(s2[j].key));
            assert(s1[0].key.lt(s1[m].key));
            assert(k2.lt(k1));
            assert(k1.lt(k2));
            lemma_key_lt_asym(k1, k2);
        }
        assert(k1.eqv(k2));
        lemma_entry_at(s1, k1, 0);
        lemma_entry_at(s2, k1, 0);
        assert(s1[0].eqv(s2[0]));
        let t1 = s1.drop_first();
        let t2 = s2.drop_first();
        lemma_sorted_tail(s1);
        lemma_sorted_tail(s2);
        assert forall|k: PathKey| seq_has_key(t1, k) == seq_has_key(t2, k) by {
            lemma_tail_transfer(s1, k);
            lemma_tail_transfer(s2, k);
        }
        assert forall|k: PathKey| seq_has_key(t1, k) implies entry_of(t1, k).eqv(
            entry_of(t2, k),
        ) by {
            lemma_tail_transfer(s1, k);
            lemma_tail_transfer(s2, k);
        }
        lemma_view_canonical(t1, t2);
        assert forall|i: int| 0 <= i < s1.len() implies s1[i].eqv(s2[i]) by {
            if i > 0 {
                assert(t1[i - 1] == s1[i]);
                assert(t2[i - 1] == s2[i]);
                assert(t1[i - 1].eqv(t2[i - 1]));
            }
        }
    }
}

} // verus!
