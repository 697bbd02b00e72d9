//! An index from text keys (word variants, phones) to the ids of the words
//! that have them: a list of entries with distinct keys, each holding the
//! distinct ids filed under its key, in the order they were filed.
use vstd::prelude::*;
use crate::text::chars_eq;

verus! {

/// The entries of an index as character sequences and id sequences.
pub open spec fn entries_view(v: Seq<(String, Vec<u128>)>) -> Seq<(Seq<char>, Seq<u128>)> {
    v.map_values(|e: (String, Vec<u128>)| (e.0@, e.1@))
}

/// Keys are distinct, and each key holds at least one id and no id twice.
pub open spec fn entries_wf(es: Seq<(Seq<char>, Seq<u128>)>) -> bool {
    &&& forall|i: int, j: int| 0 <= i < j < es.len() ==> #[trigger] es[i].0 != #[trigger] es[j].0
    &&& forall|i: int| 0 <= i < es.len() ==> (#[trigger] es[i]).1.no_duplicates() && es[i].1.len() > 0
}

/// Whether some entry has key `k`.
pub open spec fn has_key(es: Seq<(Seq<char>, Seq<u128>)>, k: Seq<char>) -> bool {
    exists|i: int| 0 <= i < es.len() && (#[trigger] es[i]).0 == k
}

/// Whether the id `x` is filed under the key `k`.
pub open spec fn holds(es: Seq<(Seq<char>, Seq<u128>)>, k: Seq<char>, x: u128) -> bool {
    exists|i: int| 0 <= i < es.len() && (#[trigger] es[i]).0 == k && es[i].1.contains(x)
}

/// An index from keys to ids.
pub struct KeyIndex {
    entries: Vec<(String, Vec<u128>)>,
}

impl View for KeyIndex {
    type V = Map<Seq<char>, Set<u128>>;

    open spec fn view(&self) -> Map<Seq<char>, Set<u128>> {
        Map::new(
            |k: Seq<char>| has_key(self.spec_entries(), k),
            |k: Seq<char>| Set::new(|x: u128| holds(self.spec_entries(), k, x)),
        )
    }
}

impl KeyIndex {
    /// The entries, in order.
    pub closed spec fn spec_entries(&self) -> Seq<(Seq<char>, Seq<u128>)> {
        entries_view(self.entries@)
    }

    /// Keys are distinct, and each key holds at least one id and no id twice.
    pub open spec fn wf(&self) -> bool {
        entries_wf(self.spec_entries())
    }

    /// An index with no entries.
    pub fn new() -> (ix: KeyIndex)
        ensures
            ix.wf(),
            ix.spec_entries() == Seq::<(Seq<char>, Seq<u128>)>::empty(),
    {
        let ix = KeyIndex { entries: Vec::new() };
        assert(ix.spec_entries() =~= Seq::<(Seq<char>, Seq<u128>)>::empty());
        ix
    }

    /// The number of entries.
    pub fn len(&self) -> (n: usize)
        ensures
            n == self.spec_entries().len(),
    {
        self.entries.len()
    }

    /// The key of entry `i`.
    pub fn key(&self, i: usize) -> (k: &String)
        requires
            i < self.spec_entries().len(),
        ensures
            k@ == self.spec_entries()[i as int].0,
    {
        &self.entries[i].0
    }

    /// The ids of entry `i`.
    pub fn ids(&self, i: usize) -> (v: &Vec<u128>)
        requires
            i < self.spec_entries().len(),
        ensures
            v@ == self.spec_entries()[i as int].1,
    {
        &self.entries[i].1
    }

    /// The keys, in entry order.
    pub fn keys(&self) -> (v: Vec<String>)
        ensures
            v@.len() == self.spec_entries().len(),
            forall|i: int| 0 <= i < v@.len() ==> (#[trigger] v@[i])@ == self.spec_entries()[i].0,
    {
        let mut v: Vec<String> = Vec::new();
        let mut i: usize = 0;
        while i < self.entries.len()
            invariant
                i <= self.spec_entries().len(),
                self.spec_entries().len() == self.entries@.len(),
                v@.len() == i,
                forall|j: int| 0 <= j < i ==> (#[trigger] v@[j])@ == self.spec_entries()[j].0,
            decreases self.entries@.len() - i,
        {
            v.push(self.entries[i].0.clone());
            i = i + 1;
        }
        v
    }

    /// The position of the entry with key `key`, if there is one.
    pub fn find(&self, key: &[char]) -> (r: Option<usize>)
        ensures
            r matches Some(i) ==> i < self.spec_entries().len() && self.spec_entries()[i as int].0
                == key@,
            r is None ==> !has_key(self.spec_entries(), key@),
    {
        let mut i: usize = 0;
        while i < self.entries.len()
            invariant
                i <= self.spec_entries().len(),
                self.spec_entries().len() == self.entries@.len(),
                forall|j: int| 0 <= j < i ==> (#[trigger] self.spec_entries()[j]).0 != key@,
            decreases self.entries@.len() - i,
        {
            let k = &self.entries[i].0;
            let kc = crate::text::chars_of(k.as_str());
            if chars_eq(&kc, key) {
                return Some(i);
            }
            i = i + 1;
        }
        None
    }

    /// Files `id` under `key`: into the entry with that key, unless it is
    /// already there, or into a new entry at the end.
    pub fn add(&mut self, key: &[char], id: u128)
        requires
            old(self).wf(),
        ensures
            final(self).wf(),
            match find_key(old(self).spec_entries(), key@) {
                Some(i) => final(self).spec_entries() == old(self).spec_entries().update(
                    i,
                    (
                        key@,
                        if old(self).spec_entries()[i].1.contains(id) {
                            old(self).spec_entries()[i].1
                        } else {
                            old(self).spec_entries()[i].1.push(id)
                        },
                    ),
                ),
                None => final(self).spec_entries() == old(self).spec_entries().push(
                    (key@, seq![id]),
                ),
            },
            forall|k: Seq<char>, x: u128|
                #[trigger] holds(final(self).spec_entries(), k, x) <==> (holds(
                    old(self).spec_entries(),
                    k,
                    x,
                ) || (k == key@ && x == id)),
            forall|k: Seq<char>|
                #[trigger] has_key(final(self).spec_entries(), k) <==> (has_key(
                    old(self).spec_entries(),
                    k,
                ) || k == key@),
    {
        let ghost es = self.spec_entries();
        match self.find(key) {
            Some(i) => {
                proof {
                    lemma_find_key(es, key@, i as int);
                }
                let mut entry = self.entries.remove(i);
                let mut present = false;
                let mut j: usize = 0;
                while j < entry.1.len()
                    invariant
                        j <= entry.1@.len(),
                        present == (exists|m: int| 0 <= m < j && entry.1@[m] == id),
                    decreases entry.1@.len() - j,
                {
                    if entry.1[j] == id {
                        present = true;
                    }
                    j = j + 1;
                }
                if !present {
                    entry.1.push(id);
                }
                self.entries.insert(i, entry);
                proof {
                    let ne = self.spec_entries();
                    assert(ne =~= es.update(
                        i as int,
                        (key@, if es[i as int].1.contains(id) {
                            es[i as int].1
                        } else {
                            es[i as int].1.push(id)
                        }),
                    ));
                    assert forall|a: int, b: int| 0 <= a < b < ne.len() implies #[trigger] ne[a].0
                        != #[trigger] ne[b].0 by {
                        assert(es[a].0 != es[b].0);
                    }
                    assert forall|a: int| 0 <= a < ne.len() implies (#[trigger] ne[a]).1.no_duplicates()
                        && ne[a].1.len() > 0 by {
                        if a == i {
                            assert(es[a].1.no_duplicates());
                        }
                    }
                    assert forall|k: Seq<char>, x: u128| #[trigger]
                        holds(ne, k, x) <==> (holds(es, k, x) || (k == key@ && x == id)) by {
                        if holds(ne, k, x) {
                            let a = choose|a: int| 0 <= a < ne.len() && (#[trigger] ne[a]).0 == k
                                && ne[a].1.contains(x);
                            if a != i {
                                assert(es[a].0 == k && es[a].1.contains(x));
                            } else if !(k == key@ && x == id) {
                                let m = choose|m: int| 0 <= m < ne[a].1.len() && ne[a].1[m] == x;
                                if !es[i as int].1.contains(id) && m == es[i as int].1.len() {
                                } else {
                                    assert(es[a].1[m] == x);
                                }
                                assert(es[a].0 == k && es[a].1.contains(x));
                            }
                        }
                        if holds(es, k, x) {
                            let a = choose|a: int| 0 <= a < es.len() && (#[trigger] es[a]).0 == k
                                && es[a].1.contains(x);
                            if a == i {
                                let m = choose|m: int| 0 <= m < es[a].1.len() && es[a].1[m] == x;
                                assert(ne[a].1[m] == x);
                            }
                            assert(ne[a].0 == k && ne[a].1.contains(x));
                        }
                        if k == key@ && x == id {
                            if es[i as int].1.contains(id) {
                            } else {
                                assert(ne[i as int].1[es[i as int].1.len() as int] == id);
                            }
                            assert(ne[i as int].0 == k && ne[i as int].1.contains(x));
                        }
                    }
                    assert forall|k: Seq<char>| #[trigger]
                        has_key(ne, k) <==> (has_key(es, k) || k == key@) by {
                        if has_key(ne, k) {
                            let a = choose|a: int| 0 <= a < ne.len() && (#[trigger] ne[a]).0 == k;
                            assert(es[a].0 == k);
                        }
                        if has_key(es, k) {
                            let a = choose|a: int| 0 <= a < es.len() && (#[trigger] es[a]).0 == k;
                            assert(ne[a].0 == k);
                        }
                        if k == key@ {
                            assert(ne[i as int].0 == k);
                        }
                    }
                }
            },
            None => {
                proof {
                    lemma_find_key_none(es, key@);
                }
                let mut ids: Vec<u128> = Vec::new();
                ids.push(id);
                let k = crate::text::string_of(key);
                self.entries.push((k, ids));
                proof {
                    let ne = self.spec_entries();
                    assert(ne =~= es.push((key@, seq![id])));
                    assert forall|a: int, b: int| 0 <= a < b < ne.len() implies #[trigger] ne[a].0
                        != #[trigger] ne[b].0 by {
                        if b == es.len() {
                            assert(es[a].0 != key@);
                        } else {
                            assert(es[a].0 != es[b].0);
                        }
                    }
                    assert forall|a: int| 0 <= a < ne.len() implies (#[trigger] ne[a]).1.no_duplicates()
                        && ne[a].1.len() > 0 by {
                        if a < es.len() {
                            assert(es[a].1.no_duplicates());
                        }
                    }
                    assert forall|k: Seq<char>, x: u128| #[trigger]
                        holds(ne, k, x) <==> (holds(es, k, x) || (k == key@ && x == id)) by {
                        if holds(ne, k, x) {
                            let a = choose|a: int| 0 <= a < ne.len() && (#[trigger] ne[a]).0 == k
                                && ne[a].1.contains(x);
                            if a < es.len() {
                                assert(es[a].0 == k && es[a].1.contains(x));
                            } else {
                                let m = choose|m: int| 0 <= m < ne[a].1.len() && ne[a].1[m] == x;
                            }
                        }
                        if holds(es, k, x) {
                            let a = choose|a: int| 0 <= a < es.len() && (#[trigger] es[a]).0 == k
                                && es[a].1.contains(x);
                            assert(ne[a].0 == k && ne[a].1.contains(x));
                        }
                        if k == key@ && x == id {
                            assert(ne[es.len() as int].1[0] == id);
                            assert(ne[es.len() as int].0 == k && ne[es.len() as int].1.contains(x));
                        }
                    }
                    assert forall|k: Seq<char>| #[trigger]
                        has_key(ne, k) <==> (has_key(es, k) || k == key@) by {
                        if has_key(ne, k) {
                            let a = choose|a: int| 0 <= a < ne.len() && (#[trigger] ne[a]).0 == k;
                            if a < es.len() {
                                assert(es[a].0 == k);
                            }
                        }
                        if has_key(es, k) {
                            let a = choose|a: int| 0 <= a < es.len() && (#[trigger] es[a]).0 == k;
                            assert(ne[a].0 == k);
                        }
                        if k == key@ {
                            assert(ne[es.len() as int].0 == k);
                        }
                    }
                }
            },
        }
    }
}

/// The position of the entry with key `k`, if there is one (keys being
/// distinct, there is at most one).
pub open spec fn find_key(es: Seq<(Seq<char>, Seq<u128>)>, k: Seq<char>) -> Option<int> {
    if has_key(es, k) {
        Some(choose|i: int| 0 <= i < es.len() && (#[trigger] es[i]).0 == k)
    } else {
        None
    }
}

/// With distinct keys, the entry found for a key is the one that has it.
pub proof fn lemma_find_key(es: Seq<(Seq<char>, Seq<u128>)>, k: Seq<char>, i: int)
    requires
        entries_wf(es),
        0 <= i < es.len(),
        es[i].0 == k,
    ensures
        find_key(es, k) == Some(i),
{
    assert(has_key(es, k));
    let j = choose|j: int| 0 <= j < es.len() && (#[trigger] es[j]).0 == k;
    if j != i {
        if j < i {
            assert(es[j].0 != es[i].0);
        } else {
            assert(es[i].0 != es[j].0);
        }
    }
}

/// No entry is found for a key that no entry has.
pub proof fn lemma_find_key_none(es: Seq<(Seq<char>, Seq<u128>)>, k: Seq<char>)
    requires
        !has_key(es, k),
    ensures
        find_key(es, k) is None,
{
}

} // verus!
