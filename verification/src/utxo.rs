use vstd::prelude::*;

use crate::types;
use crate::types::TransactionOutput;

verus! {

/// One unspent output, keyed by its digest, with the mark that says a pooled
/// transaction already spends it.
#[derive(Clone, Copy, Debug)]
pub struct UtxoEntry {
    pub hash: types::Hash,
    pub marked: bool,
    pub output: TransactionOutput,
}

/// No two entries share a key.
pub open spec fn keys_unique(s: Seq<UtxoEntry>) -> bool {
    forall|i: int, j: int| 0 <= i < j < s.len() ==> s[i].hash != s[j].hash
}

/// The key-to-value map that a sequence of entries stands for.
pub open spec fn entries_map(s: Seq<UtxoEntry>) -> Map<types::Hash, (bool, TransactionOutput)> {
    Map::new(
        |k: types::Hash| exists|i: int| 0 <= i < s.len() && s[i].hash == k,
        |k: types::Hash|
            {
                let i = choose|i: int| 0 <= i < s.len() && s[i].hash == k;
                (s[i].marked, s[i].output)
            },
    )
}

/// With unique keys, the map holds each entry's value under its key.
pub proof fn lemma_entries_map_at(s: Seq<UtxoEntry>, i: int)
    requires
        keys_unique(s),
        0 <= i < s.len(),
    ensures
        entries_map(s).contains_key(s[i].hash),
        entries_map(s)[s[i].hash] == (s[i].marked, s[i].output),
{
    let k = s[i].hash;
    assert(exists|j: int| 0 <= j < s.len() && s[j].hash == k);
    let j = choose|j: int| 0 <= j < s.len() && s[j].hash == k;
    if j != i {
        if j < i {
            assert(s[j].hash != s[i].hash);
        } else {
            assert(s[i].hash != s[j].hash);
        }
    }
}

/// The set of unspent outputs, as a map from output digest to (mark, output).
/// Each key occurs at most once.
#[derive(Debug)]
pub struct UtxoSet {
    entries: Vec<UtxoEntry>,
}

impl View for UtxoSet {
    type V = Map<types::Hash, (bool, TransactionOutput)>;

    closed spec fn view(&self) -> Map<types::Hash, (bool, TransactionOutput)> {
        entries_map(self.entries@)
    }
}

impl Clone for UtxoSet {
    /// A copy with the same entries in the same order.
    fn clone(&self) -> (r: UtxoSet)
        ensures
            r@ == self@,
    {
        self.snapshot()
    }
}

impl UtxoSet {
    /// Each key occurs at most once.
    #[verifier::type_invariant]
    spec fn keys_are_unique(&self) -> bool {
        keys_unique(self.entries@)
    }

    /// The entries in storage order.
    pub closed spec fn entry_seq(&self) -> Seq<UtxoEntry> {
        self.entries@
    }

    /// The map is finite, its keys are those of the entries, and each entry's
    /// value is stored under its key.
    proof fn lemma_view_entries(&self)
        requires
            keys_unique(self.entries@),
        ensures
            self@.dom().finite(),
            self@.dom().len() == self.entry_seq().len(),
            forall|k: types::Hash|
                self@.contains_key(k) <==> exists|i: int|
                    0 <= i < self.entry_seq().len() && #[trigger] self.entry_seq()[i].hash == k,
            forall|i: int|
                0 <= i < self.entry_seq().len() ==> self@.contains_key(
                    #[trigger] self.entry_seq()[i].hash,
                ) && self@[self.entry_seq()[i].hash] == (
                    self.entry_seq()[i].marked,
                    self.entry_seq()[i].output,
                ),
    {
        let s = self.entries@;
        assert forall|i: int| 0 <= i < s.len() implies entries_map(s).contains_key(
            #[trigger] s[i].hash,
        ) && entries_map(s)[s[i].hash] == (s[i].marked, s[i].output) by {
            lemma_entries_map_at(s, i);
        }
        lemma_dom_len(s);
    }

    /// An empty set.
    pub fn new() -> (r: UtxoSet)
        ensures
            r@ == Map::<types::Hash, (bool, TransactionOutput)>::empty(),
    {
        let r = UtxoSet { entries: Vec::new() };
        assert(r@ =~= Map::<types::Hash, (bool, TransactionOutput)>::empty());
        r
    }

    /// The number of entries.
    pub fn len(&self) -> (r: usize)
        ensures
            r == self@.dom().len(),
    {
        proof {
            use_type_invariant(self);
            self.lemma_view_entries();
        }
        self.entries.len()
    }

    /// A copy of the set, with the same entries in the same order.
    pub fn snapshot(&self) -> (r: UtxoSet)
        ensures
            r.entry_seq() == self.entry_seq(),
            r@ == self@,
    {
        proof {
            use_type_invariant(self);
        }
        let n = self.entries.len();
        let mut v: Vec<UtxoEntry> = Vec::new();
        let mut i: usize = 0;
        while i < n
            invariant
                i <= n,
                n == self.entries@.len(),
                v@ == self.entries@.take(i as int),
            decreases n - i,
        {
            let e = self.entries[i];
            proof {
                assert(self.entries@.take(i + 1) =~= self.entries@.take(i as int).push(e));
            }
            v.push(e);
            i = i + 1;
        }
        proof {
            assert(self.entries@.take(n as int) =~= self.entries@);
        }
        UtxoSet { entries: v }
    }

    /// The entries in storage order.
    pub fn entries(&self) -> (r: &Vec<UtxoEntry>)
        ensures
            r@ == self.entry_seq(),
    {
        &self.entries
    }

    fn find(&self, h: &types::Hash) -> (r: Option<usize>)
        ensures
            match r {
                Some(i) => i < self.entries@.len() && self.entries@[i as int].hash == *h,
                None => forall|i: int|
                    0 <= i < self.entries@.len() ==> self.entries@[i].hash != *h,
            },
    {
        let n = self.entries.len();
        let mut i: usize = 0;
        while i < n
            invariant
                i <= n,
                n == self.entries@.len(),
                forall|j: int| 0 <= j < i ==> self.entries@[j].hash != *h,
            decreases n - i,
        {
            if self.entries[i].hash == *h {
                return Some(i);
            }
            i = i + 1;
        }
        None
    }

    /// Whether an output with this digest is unspent.
    pub fn contains_key(&self, h: &types::Hash) -> (r: bool)
        ensures
            r == self@.contains_key(*h),
    {
        proof {
            use_type_invariant(self);
        }
        match self.find(h) {
            Some(i) => {
                proof {
                    lemma_entries_map_at(self.entries@, i as int);
                }
                true
            },
            None => false,
        }
    }

    /// The mark and output stored under this digest, if any.
    pub fn get(&self, h: &types::Hash) -> (r: Option<(bool, TransactionOutput)>)
        ensures
            r == (if self@.contains_key(*h) {
                Some(self@[*h])
            } else {
                None
            }),
    {
        proof {
            use_type_invariant(self);
        }
        match self.find(h) {
            Some(i) => {
                proof {
                    lemma_entries_map_at(self.entries@, i as int);
                }
                let e = self.entries[i];
                Some((e.marked, e.output))
            },
            None => None,
        }
    }

    /// Stores a mark and output under a digest, replacing what was there.
    pub fn insert(&mut self, h: types::Hash, marked: bool, output: TransactionOutput)
        ensures
            final(self)@ == old(self)@.insert(h, (marked, output)),
    {
        proof {
            use_type_invariant(&*self);
        }
        let ghost s = self.entries@;
        let e = UtxoEntry { hash: h, marked, output };
        let found = self.find(&h);
        let mut entries: Vec<UtxoEntry> = Vec::new();
        std::mem::swap(&mut entries, &mut self.entries);
        match found {
            Some(i) => {
                entries.set(i, e);
                proof {
                    lemma_map_update(s, i as int, e);
                }
            },
            None => {
                entries.push(e);
                proof {
                    lemma_map_push(s, e);
                }
            },
        }
        self.entries = entries;
    }

    /// Deletes the entry under a digest, if there is one.
    pub fn remove(&mut self, h: &types::Hash)
        ensures
            final(self)@ == old(self)@.remove(*h),
    {
        proof {
            use_type_invariant(&*self);
        }
        let ghost s = self.entries@;
        match self.find(h) {
            Some(i) => {
                let mut entries: Vec<UtxoEntry> = Vec::new();
                std::mem::swap(&mut entries, &mut self.entries);
                entries.remove(i);
                proof {
                    lemma_map_remove(s, i as int);
                }
                self.entries = entries;
            },
            None => {
                assert(entries_map(s).remove(*h) =~= entries_map(s));
            },
        }
    }

    /// Clears the mark of the entry under a digest, if there is one.
    pub fn unmark(&mut self, h: &types::Hash)
        ensures
            final(self)@ == (if old(self)@.contains_key(*h) {
                old(self)@.insert(*h, (false, old(self)@[*h].1))
            } else {
                old(self)@
            }),
    {
        proof {
            use_type_invariant(&*self);
        }
        let ghost s = self.entries@;
        match self.find(h) {
            Some(i) => {
                let old_entry = self.entries[i];
                let e = UtxoEntry { hash: old_entry.hash, marked: false, output: old_entry.output };
                let mut entries: Vec<UtxoEntry> = Vec::new();
                std::mem::swap(&mut entries, &mut self.entries);
                entries.set(i, e);
                proof {
                    lemma_entries_map_at(s, i as int);
                    lemma_map_update(s, i as int, e);
                }
                self.entries = entries;
            },
            None => {},
        }
    }
}

proof fn lemma_map_update(s: Seq<UtxoEntry>, i: int, e: UtxoEntry)
    requires
        keys_unique(s),
        0 <= i < s.len(),
        s[i].hash == e.hash,
    ensures
        keys_unique(s.update(i, e)),
        entries_map(s.update(i, e)) == entries_map(s).insert(e.hash, (e.marked, e.output)),
{
    let t = s.update(i, e);
    assert(keys_unique(t)) by {
        assert forall|a: int, b: int| 0 <= a < b < t.len() implies t[a].hash != t[b].hash by {
            assert(s[a].hash != s[b].hash);
        }
    }
    let m1 = entries_map(t);
    let m2 = entries_map(s).insert(e.hash, (e.marked, e.output));
    assert forall|k: types::Hash| m1.contains_key(k) <==> m2.contains_key(k) by {
        if k == e.hash {
            assert(t[i].hash == k);
            assert(m1.contains_key(k));
        }
        if m2.contains_key(k) && k != e.hash {
            let j = choose|j: int| 0 <= j < s.len() && s[j].hash == k;
            assert(t[j] == s[j]);
            assert(t[j].hash == k);
            assert(m1.contains_key(k));
        }
        if m1.contains_key(k) {
            let j = choose|j: int| 0 <= j < t.len() && t[j].hash == k;
            if j != i {
                assert(t[j] == s[j]);
                assert(s[j].hash == k);
                assert(m2.contains_key(k));
            }
        }
    }
    assert forall|k: types::Hash| m1.contains_key(k) implies m1[k] == m2[k] by {
        let j = choose|j: int| 0 <= j < t.len() && t[j].hash == k;
        lemma_entries_map_at(t, j);
        if j != i {
            lemma_entries_map_at(s, j);
        }
    }
    assert(m1 =~= m2);
}

proof fn lemma_map_push(s: Seq<UtxoEntry>, e: UtxoEntry)
    requires
        keys_unique(s),
        forall|i: int| 0 <= i < s.len() ==> s[i].hash != e.hash,
    ensures
        keys_unique(s.push(e)),
        entries_map(s.push(e)) == entries_map(s).insert(e.hash, (e.marked, e.output)),
{
    let t = s.push(e);
    assert(keys_unique(t)) by {
        assert forall|a: int, b: int| 0 <= a < b < t.len() implies t[a].hash != t[b].hash by {
            if b < s.len() {
                assert(s[a].hash != s[b].hash);
            }
        }
    }
    let m1 = entries_map(t);
    let m2 = entries_map(s).insert(e.hash, (e.marked, e.output));
    assert forall|k: types::Hash| m1.contains_key(k) <==> m2.contains_key(k) by {
        if m2.contains_key(k) && k != e.hash {
            let j = choose|j: int| 0 <= j < s.len() && s[j].hash == k;
            assert(t[j].hash == k);
        }
        if k == e.hash {
            assert(t[s.len() as int].hash == k);
        }
        if m1.contains_key(k) {
            let j = choose|j: int| 0 <= j < t.len() && t[j].hash == k;
            if j < s.len() {
                assert(s[j].hash == k);
            }
        }
    }
    assert forall|k: types::Hash| m1.contains_key(k) implies m1[k] == m2[k] by {
        let j = choose|j: int| 0 <= j < t.len() && t[j].hash == k;
        lemma_entries_map_at(t, j);
        if j < s.len() {
            lemma_entries_map_at(s, j);
        }
    }
    assert(m1 =~= m2);
}

proof fn lemma_map_remove(s: Seq<UtxoEntry>, i: int)
    requires
        keys_unique(s),
        0 <= i < s.len(),
    ensures
        keys_unique(s.remove(i)),
        entries_map(s.remove(i)) == entries_map(s).remove(s[i].hash),
{
    let t = s.remove(i);
    let h = s[i].hash;
    assert forall|j: int| 0 <= j < t.len() implies #[trigger] t[j] == (if j < i {
        s[j]
    } else {
        s[j + 1]
    }) by {}
    assert(keys_unique(t)) by {
        assert forall|a: int, b: int| 0 <= a < b < t.len() implies t[a].hash != t[b].hash by {
            let a2 = if a < i { a } else { a + 1 };
            let b2 = if b < i { b } else { b + 1 };
            assert(s[a2].hash != s[b2].hash);
        }
    }
    let m1 = entries_map(t);
    let m2 = entries_map(s).remove(h);
    assert forall|k: types::Hash| m1.contains_key(k) <==> m2.contains_key(k) by {
        if m2.contains_key(k) {
            let j = choose|j: int| 0 <= j < s.len() && s[j].hash == k;
            assert(j != i);
            let j2 = if j < i { j } else { j - 1 };
            assert(t[j2] == s[j]);
            assert(t[j2].hash == k);
            assert(m1.contains_key(k));
        }
        if m1.contains_key(k) {
            let j = choose|j: int| 0 <= j < t.len() && t[j].hash == k;
            let j2 = if j < i { j } else { j + 1 };
            assert(t[j] == s[j2]);
            assert(s[j2].hash == k);
            if j2 < i {
                assert(s[j2].hash != s[i].hash);
            } else {
                assert(s[i].hash != s[j2].hash);
            }
            assert(m2.contains_key(k));
        }
    }
    assert forall|k: types::Hash| m1.contains_key(k) implies m1[k] == m2[k] by {
        let j = choose|j: int| 0 <= j < t.len() && t[j].hash == k;
        lemma_entries_map_at(t, j);
        let j2 = if j < i { j } else { j + 1 };
        lemma_entries_map_at(s, j2);
    }
    assert(m1 =~= m2);
}

proof fn lemma_dom_len(s: Seq<UtxoEntry>)
    requires
        keys_unique(s),
    ensures
        entries_map(s).dom().finite(),
        entries_map(s).dom().len() == s.len(),
    decreases s.len(),
{
    if s.len() == 0 {
        assert(entries_map(s).dom() =~= Set::<types::Hash>::empty());
    } else {
        let p = s.drop_last();
        assert(keys_unique(p));
        lemma_dom_len(p);
        assert forall|i: int| 0 <= i < p.len() implies p[i].hash != s.last().hash by {
            assert(s[i].hash != s[s.len() - 1].hash);
        }
        lemma_map_push(p, s.last());
        assert(p.push(s.last()) =~= s);
        assert(!entries_map(p).contains_key(s.last().hash));
    }
}

} // verus!
