//! A table from phonetic symbols of one alphabet to those of another (such as
//! ARPAbet or X-SAMPA to IPA).
use vstd::prelude::*;
use crate::text::{chars_of, matches_at, occurs_at};

verus! {

/// The symbol that `key` maps to among `entries` (the last entry with that key).
pub open spec fn lookup(entries: Seq<(Seq<char>, Seq<char>)>, key: Seq<char>) -> Option<Seq<char>>
    decreases entries.len(),
{
    if entries.len() == 0 {
        None
    } else if entries.last().0 == key {
        Some(entries.last().1)
    } else {
        lookup(entries.drop_last(), key)
    }
}

/// The entry with the longest key that occurs in `t` at position `i`.
pub open spec fn longest_entry_at(entries: Seq<(Seq<char>, Seq<char>)>, t: Seq<char>, i: int) -> Option<
    (Seq<char>, Seq<char>),
>
    decreases entries.len(),
{
    if entries.len() == 0 {
        None
    } else {
        let best = longest_entry_at(entries.drop_last(), t, i);
        let e = entries.last();
        if occurs_at(t, e.0, i) && (best is None || best.unwrap().0.len() <= e.0.len()) {
            Some(e)
        } else {
            best
        }
    }
}

/// An entry that `longest_entry_at` picks has a key that occurs at `i`.
pub proof fn lemma_longest_entry_at(entries: Seq<(Seq<char>, Seq<char>)>, t: Seq<char>, i: int)
    ensures
        longest_entry_at(entries, t, i) matches Some(e) ==> occurs_at(t, e.0, i) && entries.contains(e),
    decreases entries.len(),
{
    if entries.len() > 0 {
        lemma_longest_entry_at(entries.drop_last(), t, i);
        if let Some(e) = longest_entry_at(entries.drop_last(), t, i) {
            let k = choose|k: int| 0 <= k < entries.drop_last().len() && entries.drop_last()[k] == e;
            assert(entries[k] == e);
        }
        assert(entries[entries.len() - 1] == entries.last());
    }
}

/// Of the entries whose key occurs in `t` at `i`, the one picked has a key
/// at least as long as any other: none is picked only where no key occurs
/// there, and the one picked is an entry whose key occurs there.
pub proof fn law_longest_key_wins(entries: Seq<(Seq<char>, Seq<char>)>, t: Seq<char>, i: int)
    ensures
        longest_entry_at(entries, t, i) is None <==> forall|j: int|
            0 <= j < entries.len() ==> !occurs_at(t, #[trigger] entries[j].0, i),
        longest_entry_at(entries, t, i) matches Some(e) ==> {
            &&& occurs_at(t, e.0, i)
            &&& entries.contains(e)
            &&& forall|j: int|
                0 <= j < entries.len() && occurs_at(t, #[trigger] entries[j].0, i) ==> entries[j].0.len()
                    <= e.0.len()
        },
    decreases entries.len(),
{
    lemma_longest_entry_at(entries, t, i);
    if entries.len() > 0 {
        let d = entries.drop_last();
        let n = entries.len() - 1;
        law_longest_key_wins(d, t, i);
        assert(entries.last() == entries[n]);
        assert forall|j: int| 0 <= j < d.len() implies #[trigger] d[j] == entries[j] by {}
        if longest_entry_at(entries, t, i) is None {
            assert forall|j: int| 0 <= j < entries.len() implies !occurs_at(t, #[trigger] entries[j].0, i) by {
                if j < n {
                    assert(d[j] == entries[j]);
                }
            }
        } else {
            let e = longest_entry_at(entries, t, i).unwrap();
            assert forall|j: int| 0 <= j < entries.len() && occurs_at(t, #[trigger] entries[j].0, i) implies entries[j].0.len()
                <= e.0.len() by {
                if j < n {
                    assert(d[j] == entries[j]);
                    assert(occurs_at(t, d[j].0, i));
                }
            }
            if forall|j: int| 0 <= j < entries.len() ==> !occurs_at(t, #[trigger] entries[j].0, i) {
                assert(!occurs_at(t, entries[n].0, i));
                if longest_entry_at(d, t, i) is Some {
                    let j0 = choose|j: int| 0 <= j < d.len() && occurs_at(t, #[trigger] d[j].0, i);
                    assert(!occurs_at(t, entries[j0].0, i));
                }
            }
        }
    }
}

/// A table of symbols to symbols, holding each key once.
pub struct SymbolMap {
    keys: Vec<Vec<char>>,
    values: Vec<String>,
}

impl SymbolMap {
    /// The entries, as key–symbol pairs, in the order they were first added.
    pub closed spec fn entries(&self) -> Seq<(Seq<char>, Seq<char>)> {
        Seq::new(self.keys@.len(), |i: int| (self.keys@[i]@, self.values@[i]@))
    }

    /// Each key is held once.
    pub closed spec fn wf(&self) -> bool {
        &&& self.keys@.len() == self.values@.len()
        &&& forall|i: int, j: int| 0 <= i < j < self.keys@.len() ==> #[trigger] self.keys@[i]@ != #[trigger] self.keys@[j]@
    }

    /// An empty table.
    pub fn new() -> (res: SymbolMap)
        ensures
            res.wf(),
            res.entries() == Seq::<(Seq<char>, Seq<char>)>::empty(),
    {
        let res = SymbolMap { keys: Vec::new(), values: Vec::new() };
        assert(res.entries() =~= Seq::<(Seq<char>, Seq<char>)>::empty());
        res
    }

    /// The index of the entry whose key is `key`.
    fn position(&self, key: &[char]) -> (res: Option<usize>)
        requires
            self.wf(),
        ensures
            match res {
                Some(i) => i < self.entries().len() && self.entries()[i as int].0 == key@,
                None => forall|i: int| 0 <= i < self.entries().len() ==> self.entries()[i].0 != key@,
            },
    {
        let n = self.keys.len();
        let mut i: usize = 0;
        while i < n
            invariant
                n == self.keys@.len(),
                n == self.values@.len(),
                i <= n,
                forall|j: int| 0 <= j < i ==> self.entries()[j].0 != key@,
            decreases n - i,
        {
            let k = &self.keys[i];
            if k.len() == key.len() && matches_at(k.as_slice(), key, 0) {
                assert(k@.subrange(0, key@.len() as int) =~= k@);
                return Some(i);
            }
            assert(k@ != key@) by {
                if k@ == key@ {
                    assert(k@.subrange(0, key@.len() as int) =~= k@);
                }
            }
            i += 1;
        }
        None
    }

    /// Maps `key` to `value`, in place of what it mapped to before.
    pub fn insert(&mut self, key: &str, value: &str)
        requires
            old(self).wf(),
        ensures
            final(self).wf(),
            ({
                let old_entries = old(self).entries();
                let k = key@;
                &&& lookup(final(self).entries(), k) == Some(value@)
                &&& forall|k2: Seq<char>| k2 != k ==> lookup(final(self).entries(), k2) == lookup(old_entries, k2)
            }),
    {
        let kc = chars_of(key);
        match self.position(kc.as_slice()) {
            Some(i) => {
                let ghost e0 = self.entries();
                assert forall|a: int, b: int| 0 <= a < e0.len() && 0 <= b < e0.len() && a != b implies #[trigger] e0[a].0
                    != #[trigger] e0[b].0 by {
                    if a < b {
                        assert(self.keys@[a]@ != self.keys@[b]@);
                    } else {
                        assert(self.keys@[b]@ != self.keys@[a]@);
                    }
                }
                let v = String::from_str(value);
                self.values.set(i, v);
                assert(self.entries() =~= e0.update(i as int, (key@, value@)));
                proof {
                    lemma_lookup_update(e0, i as int, value@);
                }
            },
            None => {
                let ghost e0 = self.entries();
                let ghost keys0 = self.keys@;
                self.keys.push(kc);
                self.values.push(String::from_str(value));
                assert forall|a: int, b: int| 0 <= a < b < self.keys@.len() implies #[trigger] self.keys@[a]@
                    != #[trigger] self.keys@[b]@ by {
                    if b == keys0.len() {
                        assert(e0[a].0 == keys0[a]@);
                    } else {
                        assert(keys0[a]@ != keys0[b]@);
                    }
                }
                assert(self.entries() =~= e0.push((key@, value@)));
                assert(self.entries().drop_last() =~= e0);
            },
        }
    }

    /// The symbol that `key` maps to.
    pub fn get(&self, key: &[char]) -> (res: Option<&String>)
        requires
            self.wf(),
        ensures
            match res {
                Some(v) => lookup(self.entries(), key@) == Some(v@),
                None => lookup(self.entries(), key@) is None,
            },
    {
        match self.position(key) {
            Some(i) => {
                proof {
                    let es = self.entries();
                    assert forall|a: int, b: int| 0 <= a < es.len() && 0 <= b < es.len() && a != b implies #[trigger] es[a].0
                        != #[trigger] es[b].0 by {
                        if a < b {
                            assert(self.keys@[a]@ != self.keys@[b]@);
                        } else {
                            assert(self.keys@[b]@ != self.keys@[a]@);
                        }
                    }
                    lemma_lookup_unique(es, i as int);
                }
                Some(&self.values[i])
            },
            None => {
                proof {
                    lemma_lookup_absent(self.entries(), key@);
                }
                None
            },
        }
    }

    /// The entry whose key is the longest one that occurs in `t` at position `i`,
    /// as its index.
    pub fn longest_key_at(&self, t: &[char], i: usize) -> (res: Option<usize>)
        requires
            self.wf(),
        ensures
            match res {
                Some(j) => j < self.entries().len() && longest_entry_at(self.entries(), t@, i as int)
                    == Some(self.entries()[j as int]),
                None => longest_entry_at(self.entries(), t@, i as int) is None,
            },
    {
        let ghost es = self.entries();
        let n = self.keys.len();
        let tl = t.len();
        let mut best: Option<usize> = None;
        let mut j: usize = 0;
        while j < n
            invariant
                n == self.keys@.len(),
                n == self.values@.len(),
                tl == t@.len(),
                es == self.entries(),
                j <= n,
                match best {
                    Some(b) => b < j && longest_entry_at(es.take(j as int), t@, i as int) == Some(es[b as int]),
                    None => longest_entry_at(es.take(j as int), t@, i as int) is None,
                },
            decreases n - j,
        {
            let k = &self.keys[j];
            assert(es.take(j + 1).drop_last() =~= es.take(j as int));
            assert(es.take(j + 1).last() == es[j as int]);
            let fits = i <= tl && k.len() <= tl - i && matches_at(t, k.as_slice(), i);
            let longer = match best {
                None => true,
                Some(b) => self.keys[b].len() <= k.len(),
            };
            if fits && longer {
                best = Some(j);
            }
            j += 1;
        }
        assert(es.take(n as int) =~= es);
        best
    }

    /// The symbol of the entry at `index`.
    pub fn value_at(&self, index: usize) -> (res: &String)
        requires
            self.wf(),
            index < self.entries().len(),
        ensures
            res@ == self.entries()[index as int].1,
    {
        &self.values[index]
    }

    /// The length of the key of the entry at `index`.
    pub fn key_len_at(&self, index: usize) -> (res: usize)
        requires
            self.wf(),
            index < self.entries().len(),
        ensures
            res == self.entries()[index as int].0.len(),
    {
        self.keys[index].len()
    }
}

proof fn lemma_lookup_unique(es: Seq<(Seq<char>, Seq<char>)>, i: int)
    requires
        0 <= i < es.len(),
        forall|a: int, b: int| 0 <= a < es.len() && 0 <= b < es.len() && a != b ==> #[trigger] es[a].0 != #[trigger] es[b].0,
    ensures
        lookup(es, es[i].0) == Some(es[i].1),
    decreases es.len(),
{
    if i < es.len() - 1 {
        let d = es.drop_last();
        assert(es.last() == es[es.len() - 1]);
        assert(d[i] == es[i]);
        assert forall|a: int, b: int| 0 <= a < d.len() && 0 <= b < d.len() && a != b implies #[trigger] d[a].0 != #[trigger] d[b].0 by {
            assert(d[a] == es[a] && d[b] == es[b]);
        }
        lemma_lookup_unique(d, i);
    }
}

proof fn lemma_lookup_absent(es: Seq<(Seq<char>, Seq<char>)>, k: Seq<char>)
    requires
        forall|i: int| 0 <= i < es.len() ==> es[i].0 != k,
    ensures
        lookup(es, k) is None,
    decreases es.len(),
{
    if es.len() > 0 {
        let d = es.drop_last();
        assert(es.last() == es[es.len() - 1]);
        assert forall|i: int| 0 <= i < d.len() implies d[i].0 != k by {
            assert(d[i] == es[i]);
        }
        lemma_lookup_absent(d, k);
    }
}

proof fn lemma_lookup_update(es: Seq<(Seq<char>, Seq<char>)>, i: int, v: Seq<char>)
    requires
        0 <= i < es.len(),
        forall|a: int, b: int| 0 <= a < es.len() && 0 <= b < es.len() && a != b ==> #[trigger] es[a].0 != #[trigger] es[b].0,
    ensures
        lookup(es.update(i, (es[i].0, v)), es[i].0) == Some(v),
        forall|k2: Seq<char>| k2 != es[i].0 ==> lookup(es.update(i, (es[i].0, v)), k2) == lookup(es, k2),
    decreases es.len(),
{
    let u = es.update(i, (es[i].0, v));
    let last = es.len() - 1;
    assert(es.last() == es[last]);
    assert(u.last() == u[last]);
    if i == last {
        assert(u.drop_last() =~= es.drop_last());
        assert forall|k2: Seq<char>| k2 != es[i].0 implies lookup(u, k2) == lookup(es, k2) by {
            assert(u.last().0 == es[i].0);
        }
    } else {
        let d = es.drop_last();
        assert(u.drop_last() =~= d.update(i, (d[i].0, v)));
        assert(d[i] == es[i]);
        assert forall|a: int, b: int| 0 <= a < d.len() && 0 <= b < d.len() && a != b implies #[trigger] d[a].0 != #[trigger] d[b].0 by {
            assert(d[a] == es[a] && d[b] == es[b]);
        }
        lemma_lookup_update(d, i, v);
        assert(es[last].0 != es[i].0);
        assert forall|k2: Seq<char>| k2 != es[i].0 implies lookup(u, k2) == lookup(es, k2) by {
            if es.last().0 != k2 {
                assert(lookup(d.update(i, (d[i].0, v)), k2) == lookup(d, k2));
            }
        }
    }
}

} // verus!
