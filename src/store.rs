//! The store engine: a map from string keys to string values.
use vstd::prelude::*;
use vstd::utf8::encode_utf8;

use crate::codec::{
    decode, encodable, pow256, encode_entries, encode_store, lemma_encode_entries_push, lemma_store_round_trip,
    magic, parse_entries, parse_store, write_text,
};
use crate::error::KvsError;
use crate::order::{compare_keys, key_less, lemma_key_less_irreflexive, lemma_key_less_transitive};

use core::cmp::Ordering;

verus! {

/// A key and its value, as character sequences.
pub type Entry = (Seq<char>, Seq<char>);

/// No key occurs twice among `es`.
pub open spec fn unique_keys(es: Seq<Entry>) -> bool {
    forall|i: int, j: int| 0 <= i < j < es.len() ==> es[i].0 != es[j].0
}

/// Whether `k` is the key of some entry of `es`.
pub open spec fn has_key(es: Seq<Entry>, k: Seq<char>) -> bool {
    exists|i: int| 0 <= i < es.len() && es[i].0 == k
}

/// The map that a sequence of entries with unique keys stands for.
pub open spec fn as_map(es: Seq<Entry>) -> Map<Seq<char>, Seq<char>> {
    Map::new(
        |k: Seq<char>| has_key(es, k),
        |k: Seq<char>| es[choose|i: int| 0 <= i < es.len() && es[i].0 == k].1,
    )
}

/// Each entry of a sequence with unique keys is found in its map.
pub proof fn lemma_as_map_entry(es: Seq<Entry>, i: int)
    requires
        unique_keys(es),
        0 <= i < es.len(),
    ensures
        as_map(es).contains_key(es[i].0),
        as_map(es)[es[i].0] == es[i].1,
{
    assert(has_key(es, es[i].0));
    let j = choose|j: int| 0 <= j < es.len() && es[j].0 == es[i].0;
    assert(i == j) by {
        if i < j {
        } else if j < i {
        }
    }
}

/// Two sequences of unique-keyed entries with the same keys and the same value
/// at each key stand for the same map.
pub proof fn lemma_as_map_ext(a: Seq<Entry>, m: Map<Seq<char>, Seq<char>>)
    requires
        unique_keys(a),
        forall|k: Seq<char>| #[trigger] m.contains_key(k) <==> has_key(a, k),
        forall|i: int| 0 <= i < a.len() ==> m[#[trigger] a[i].0] == a[i].1,
    ensures
        as_map(a) == m,
{
    assert forall|k: Seq<char>| #[trigger] as_map(a).contains_key(k) implies as_map(a)[k]
        == m[k] by {
        let i = choose|i: int| 0 <= i < a.len() && a[i].0 == k;
        lemma_as_map_entry(a, i);
    }
    assert(as_map(a) =~= m);
}

/// What a lookup of `k` in `m` finds: its value, or `None` when `k` is absent.
pub open spec fn lookup(m: Map<Seq<char>, Seq<char>>, k: Seq<char>) -> Option<Seq<char>> {
    if m.contains_key(k) {
        Some(m[k])
    } else {
        None
    }
}

/// Entries held as strings, seen as character sequences.
pub open spec fn entries_view(v: Seq<(String, String)>) -> Seq<Entry> {
    v.map_values(|e: (String, String)| (e.0@, e.1@))
}

/// The keys of `es` are in strictly increasing order.
pub open spec fn sorted_keys(es: Seq<Entry>) -> bool {
    forall|i: int, j: int| 0 <= i < j < es.len() ==> key_less(#[trigger] es[i].0, #[trigger] es[j].0)
}

/// Keys in strictly increasing order are unique.
pub proof fn lemma_sorted_unique(es: Seq<Entry>)
    requires
        sorted_keys(es),
    ensures
        unique_keys(es),
{
    assert forall|i: int, j: int| 0 <= i < j < es.len() implies es[i].0 != es[j].0 by {
        lemma_key_less_irreflexive(es[i].0);
    }
}

/// Adding an entry with a new key to the end adds it to the map.
pub proof fn lemma_as_map_push(es: Seq<Entry>, e: Entry)
    requires
        unique_keys(es.push(e)),
    ensures
        unique_keys(es),
        as_map(es.push(e)) == as_map(es).insert(e.0, e.1),
{
    let a = es.push(e);
    let m = as_map(es).insert(e.0, e.1);
    assert forall|i: int, j: int| 0 <= i < j < es.len() implies es[i].0 != es[j].0 by {
        assert(a[i] == es[i] && a[j] == es[j]);
    }
    assert forall|j: int| 0 <= j < a.len() implies m[#[trigger] a[j].0] == a[j].1 by {
        if j < es.len() {
            assert(a[j] == es[j]);
            assert(a[es.len() as int] == e);
            assert(a[j].0 != a[es.len() as int].0);
            lemma_as_map_entry(es, j);
        }
    }
    assert forall|q: Seq<char>| #[trigger] m.contains_key(q) <==> has_key(a, q) by {
        if has_key(es, q) {
            let j = choose|j: int| 0 <= j < es.len() && es[j].0 == q;
            assert(a[j].0 == q);
        }
        if q == e.0 {
            assert(a[es.len() as int].0 == q);
        }
        if has_key(a, q) {
            let j = choose|j: int| 0 <= j < a.len() && a[j].0 == q;
            if j < es.len() {
                assert(es[j].0 == q);
            }
        }
    }
    lemma_as_map_ext(a, m);
}

/// A key-value store held in memory.
///
/// Keys are unique and held in increasing order (the byte-wise lexicographic
/// order of their UTF-8 encodings), so a lookup is a binary search.
pub struct KvStore {
    entries: Vec<(String, String)>,
}

impl KvStore {
    /// The entries of the store, as character sequences, in key order.
    pub closed spec fn entry_seq(&self) -> Seq<Entry> {
        entries_view(self.entries@)
    }

    /// The store's internal invariant: keys are in strictly increasing order,
    /// so no key is held twice.
    pub closed spec fn wf(&self) -> bool {
        sorted_keys(self.entry_seq()) && unique_keys(self.entry_seq())
    }

    /// The mapping from keys to values that the store holds.
    pub closed spec fn view(&self) -> Map<Seq<char>, Seq<char>> {
        as_map(self.entry_seq())
    }

    /// Returns an empty store.
    pub fn new() -> (r: KvStore)
        ensures
            r.wf(),
            r.view() == Map::<Seq<char>, Seq<char>>::empty(),
    {
        let r = KvStore { entries: Vec::new() };
        assert(r.entry_seq() =~= Seq::<Entry>::empty());
        assert(r.view() =~= Map::<Seq<char>, Seq<char>>::empty());
        r
    }

    /// Binary search for `k`: `Ok` with its position when it is held, else
    /// `Err` with the position where it would go.
    fn search(&self, k: &String) -> (r: Result<usize, usize>)
        requires
            self.wf(),
        ensures
            match r {
                Ok(i) => i < self.entry_seq().len() && self.entry_seq()[i as int].0 == k@,
                Err(p) => p <= self.entry_seq().len() && !has_key(self.entry_seq(), k@)
                    && (forall|j: int| 0 <= j < p ==> key_less(#[trigger] self.entry_seq()[j].0, k@))
                    && (forall|j: int| p <= j < self.entry_seq().len() ==> key_less(k@, #[trigger] self.entry_seq()[j].0)),
            },
    {
        let ghost es = self.entry_seq();
        let mut lo: usize = 0;
        let mut hi: usize = self.entries.len();
        while lo < hi
            invariant
                lo <= hi <= self.entries@.len(),
                es == self.entry_seq(),
                es.len() == self.entries@.len(),
                sorted_keys(es),
                forall|j: int| 0 <= j < lo ==> key_less(#[trigger] es[j].0, k@),
                forall|j: int| hi <= j < es.len() ==> key_less(k@, #[trigger] es[j].0),
            decreases hi - lo,
        {
            let mid = lo + (hi - lo) / 2;
            match compare_keys(&self.entries[mid].0, k) {
                Ordering::Less => {
                    assert forall|j: int| 0 <= j < mid + 1 implies key_less(#[trigger] es[j].0, k@) by {
                        if j < mid {
                            lemma_key_less_transitive(es[j].0, es[mid as int].0, k@);
                        }
                    }
                    lo = mid + 1;
                },
                Ordering::Greater => {
                    assert forall|j: int| mid <= j < es.len() implies key_less(k@, #[trigger] es[j].0) by {
                        if j > mid {
                            lemma_key_less_transitive(k@, es[mid as int].0, es[j].0);
                        }
                    }
                    hi = mid;
                },
                Ordering::Equal => {
                    return Ok(mid);
                },
            }
        }
        proof {
            lemma_key_less_irreflexive(k@);
            assert forall|j: int| 0 <= j < es.len() implies es[j].0 != k@ by {
                if j < lo {
                    assert(key_less(es[j].0, k@));
                } else {
                    assert(key_less(k@, es[j].0));
                }
            }
        }
        Err(lo)
    }

    /// Sets `v` as the value of `k`, replacing any earlier value.
    pub fn set(&mut self, k: String, v: String) -> (r: Result<(), KvsError>)
        requires
            old(self).wf(),
        ensures
            final(self).wf(),
            r == Ok::<(), KvsError>(()),
            final(self).view() == old(self).view().insert(k@, v@),
    {
        let ghost old_es = self.entry_seq();
        let ghost m = old(self).view().insert(k@, v@);
        let ghost kk = k@;
        let ghost vv = v@;
        match self.search(&k) {
            Ok(i) => {
                self.entries.set(i, (k, v));
                proof {
                    let es = self.entry_seq();
                    assert(es =~= old_es.update(i as int, (kk, vv)));
                    assert forall|a: int, c: int| 0 <= a < c < es.len() implies key_less(#[trigger] es[a].0, #[trigger] es[c].0) by {
                        assert(es[a].0 == old_es[a].0 && es[c].0 == old_es[c].0);
                    }
                    lemma_sorted_unique(es);
                    assert forall|j: int| 0 <= j < es.len() implies m[#[trigger] es[j].0]
                        == es[j].1 by {
                        if j != i {
                            lemma_as_map_entry(old_es, j);
                        }
                    }
                    assert forall|q: Seq<char>| #[trigger] m.contains_key(q) <==> has_key(es, q) by {
                        if has_key(old_es, q) {
                            let j = choose|j: int| 0 <= j < old_es.len() && old_es[j].0 == q;
                            assert(es[j].0 == q);
                        }
                        if has_key(es, q) {
                            let j = choose|j: int| 0 <= j < es.len() && es[j].0 == q;
                            if j != i {
                                assert(old_es[j].0 == q);
                            }
                        }
                    }
                    lemma_as_map_ext(es, m);
                }
            },
            Err(p) => {
                self.entries.insert(p, (k, v));
                proof {
                    let es = self.entry_seq();
                    assert(es =~= old_es.insert(p as int, (kk, vv)));
                    assert forall|a: int, c: int| 0 <= a < c < es.len() implies key_less(#[trigger] es[a].0, #[trigger] es[c].0) by {
                        if a < p && c < p {
                            assert(es[a] == old_es[a] && es[c] == old_es[c]);
                        } else if a < p && c == p {
                            assert(es[a] == old_es[a]);
                        } else if a < p {
                            assert(es[a] == old_es[a] && es[c] == old_es[c - 1]);
                            lemma_key_less_transitive(es[a].0, kk, es[c].0);
                        } else if a == p {
                            assert(es[c] == old_es[c - 1]);
                        } else {
                            assert(es[a] == old_es[a - 1] && es[c] == old_es[c - 1]);
                        }
                    }
                    lemma_sorted_unique(es);
                    assert forall|j: int| 0 <= j < es.len() implies m[#[trigger] es[j].0]
                        == es[j].1 by {
                        if j < p {
                            lemma_as_map_entry(old_es, j);
                        } else if j > p {
                            lemma_as_map_entry(old_es, j - 1);
                        }
                    }
                    assert forall|q: Seq<char>| #[trigger] m.contains_key(q) <==> has_key(es, q) by {
                        if has_key(old_es, q) {
                            let j = choose|j: int| 0 <= j < old_es.len() && old_es[j].0 == q;
                            if j < p {
                                assert(es[j].0 == q);
                            } else {
                                assert(es[j + 1].0 == q);
                            }
                        }
                        if q == kk {
                            assert(es[p as int].0 == q);
                        }
                        if has_key(es, q) {
                            let j = choose|j: int| 0 <= j < es.len() && es[j].0 == q;
                            if j < p {
                                assert(old_es[j].0 == q);
                            } else if j > p {
                                assert(old_es[j - 1].0 == q);
                            }
                        }
                    }
                    lemma_as_map_ext(es, m);
                }
            },
        }
        Ok(())
    }

    /// The value of `k`: `Ok(None)` when the store does not hold `k`.
    pub fn get(&self, k: String) -> (r: Result<Option<String>, KvsError>)
        requires
            self.wf(),
        ensures
            r is Ok,
            match r.unwrap() {
                Some(s) => lookup(self.view(), k@) == Some(s@),
                None => lookup(self.view(), k@) is None,
            },
    {
        match self.search(&k) {
            Ok(i) => {
                proof { lemma_as_map_entry(self.entry_seq(), i as int); }
                Ok(Some(self.entries[i].1.clone()))
            },
            Err(_) => Ok(None),
        }
    }

    /// Removes `k` and its value; fails with `KeyNotFound` when `k` is not held.
    /// On success the result is the confirmation `"removed"`.
    pub fn remove(&mut self, k: String) -> (r: Result<String, KvsError>)
        requires
            old(self).wf(),
        ensures
            final(self).wf(),
            old(self).view().contains_key(k@) ==> r is Ok && r.unwrap()@ == "removed"@
                && final(self).view() == old(self).view().remove(k@),
            !old(self).view().contains_key(k@) ==> r == Err::<String, KvsError>(
                KvsError::KeyNotFound,
            ) && final(self).view() == old(self).view(),
    {
        let ghost old_es = self.entry_seq();
        let ghost m = old(self).view().remove(k@);
        match self.search(&k) {
            Ok(i) => {
                let _ = self.entries.remove(i);
                proof {
                    let es = self.entry_seq();
                    assert(es =~= old_es.remove(i as int));
                    assert forall|a: int, c: int| 0 <= a < c < es.len() implies key_less(#[trigger] es[a].0, #[trigger] es[c].0) by {
                        if c < i {
                            assert(es[a] == old_es[a] && es[c] == old_es[c]);
                        } else if a < i {
                            assert(es[a] == old_es[a] && es[c] == old_es[c + 1]);
                        } else {
                            assert(es[a] == old_es[a + 1] && es[c] == old_es[c + 1]);
                        }
                    }
                    lemma_sorted_unique(es);
                    assert forall|j: int| 0 <= j < es.len() implies m[#[trigger] es[j].0]
                        == es[j].1 by {
                        if j < i {
                            lemma_as_map_entry(old_es, j);
                        } else {
                            lemma_as_map_entry(old_es, j + 1);
                        }
                    }
                    assert forall|q: Seq<char>| #[trigger] m.contains_key(q) <==> has_key(es, q) by {
                        if has_key(old_es, q) && q != k@ {
                            let j = choose|j: int| 0 <= j < old_es.len() && old_es[j].0 == q;
                            if j < i {
                                assert(es[j].0 == q);
                            } else {
                                assert(es[j - 1].0 == q);
                            }
                        }
                        if has_key(es, q) {
                            let j = choose|j: int| 0 <= j < es.len() && es[j].0 == q;
                            if j < i {
                                assert(old_es[j].0 == q);
                            } else {
                                assert(old_es[j + 1].0 == q);
                            }
                        }
                    }
                    lemma_as_map_ext(es, m);
                }
                proof { reveal_strlit("removed"); }
                Ok("removed".to_owned())
            },
            Err(_) => {
                Err(KvsError::KeyNotFound)
            },
        }
    }

    /// The bytes in which the store is saved; reading them back with `open`
    /// gives the same entries.
    pub fn to_bytes(&self) -> (r: Vec<u8>)
        requires
            self.wf(),
        ensures
            r@ == encode_store(self.entry_seq()),
            encodable(self.entry_seq()),
            parse_store(r@) == Some(self.entry_seq()),
    {
        let ghost es = self.entry_seq();
        let mut out: Vec<u8> = Vec::new();
        out.push(0x6bu8);
        out.push(0x76u8);
        out.push(0x73u8);
        out.push(0x01u8);
        assert(es.take(0) =~= Seq::<Entry>::empty());
        assert(out@ =~= magic() + encode_entries(es.take(0)));
        let mut i: usize = 0;
        while i < self.entries.len()
            invariant
                i <= self.entries@.len(),
                es == self.entry_seq(),
                es.len() == self.entries@.len(),
                out@ == magic() + encode_entries(es.take(i as int)),
                encodable(es.take(i as int)),
            decreases self.entries@.len() - i,
        {
            write_text(&mut out, &self.entries[i].0);
            write_text(&mut out, &self.entries[i].1);
            proof {
                assert(es.take(i + 1) =~= es.take(i as int).push(es[i as int]));
                lemma_encode_entries_push(es.take(i as int), es[i as int]);
                assert(out@ =~= magic() + encode_entries(es.take(i + 1)));
                assert forall|j: int| 0 <= j < es.take(i + 1).len() implies encode_utf8(
                    #[trigger] es.take(i + 1)[j].0,
                ).len() < pow256(8) && encode_utf8(es.take(i + 1)[j].1).len() < pow256(8) by {
                    if j < i {
                        assert(es.take(i as int)[j] == es.take(i + 1)[j]);
                    }
                }
            }
            i = i + 1;
        }
        assert(es.take(i as int) =~= es);
        proof { lemma_store_round_trip(es); }
        out
    }

    /// Opens a store from what was saved at its location: `None` when nothing
    /// was saved there yet, which gives an empty store. Saved bytes that are not
    /// a valid store give `CorruptedStore`.
    pub fn open(stored: Option<&[u8]>) -> (r: Result<KvStore, KvsError>)
        ensures
            stored is None ==> r is Ok && r.unwrap().wf() && r.unwrap().view() == Map::<
                Seq<char>,
                Seq<char>,
            >::empty(),
            stored is Some ==> match parse_store(stored.unwrap()@) {
                Some(es) => r is Ok && r.unwrap().wf() && r.unwrap().view() == as_map(es),
                None => r == Err::<KvStore, KvsError>(KvsError::CorruptedStore),
            },
    {
        if stored.is_none() {
            return Ok(KvStore::new());
        }
        let b = stored.unwrap();
        let v = match decode(b) {
            None => {
                return Err(KvsError::CorruptedStore);
            },
            Some(v) => v,
        };
        let ghost es = entries_view(v@);
        let mut store = KvStore::new();
        assert(es.take(0) =~= Seq::<Entry>::empty());
        assert(as_map(es.take(0)) =~= Map::<Seq<char>, Seq<char>>::empty());
        let mut i: usize = 0;
        while i < v.len()
            invariant
                i <= v@.len(),
                es == entries_view(v@),
                es.len() == v@.len(),
                stored == Some(b),
                b@.len() >= 4 && b@.subrange(0, 4) == magic(),
                parse_entries(b@.subrange(4, b@.len() as int)) == Some(es),
                store.wf(),
                store.view() == as_map(es.take(i as int)),
                unique_keys(es.take(i as int)),
            decreases v@.len() - i,
        {
            let k = v[i].0.clone();
            let val = v[i].1.clone();
            assert(k@ == es[i as int].0 && val@ == es[i as int].1);
            assert(es.take(i + 1) =~= es.take(i as int).push(es[i as int]));
            let found = store.search(&k);
            if found.is_ok() {
                proof {
                    let j = choose|j: int| 0 <= j < store.entry_seq().len() && store.entry_seq()[j].0 == k@;
                    assert(has_key(store.entry_seq(), k@));
                    assert(as_map(es.take(i as int)).contains_key(k@));
                    let l = choose|l: int| 0 <= l < es.take(i as int).len() && es.take(i as int)[l].0 == k@;
                    assert(es[l].0 == es[i as int].0);
                    assert(!unique_keys(es));
                }
                return Err(KvsError::CorruptedStore);
            }
            proof {
                if has_key(es.take(i as int), k@) {
                    assert(as_map(es.take(i as int)).contains_key(k@));
                    assert(has_key(store.entry_seq(), k@));
                }
            }
            let _ = store.set(k, val);
            proof {
                assert(!has_key(es.take(i as int), es[i as int].0));
                assert forall|a: int, c: int| 0 <= a < c < es.take(i + 1).len() implies #[trigger] es.take(i + 1)[a].0
                    != #[trigger] es.take(i + 1)[c].0 by {
                    if c == i {
                        assert(es.take(i + 1)[a] == es.take(i as int)[a]);
                    } else {
                        assert(es.take(i + 1)[a] == es.take(i as int)[a]);
                        assert(es.take(i + 1)[c] == es.take(i as int)[c]);
                    }
                }
                lemma_as_map_push(es.take(i as int), es[i as int]);
            }
            i = i + 1;
        }
        assert(es.take(i as int) =~= es);
        Ok(store)
    }
}

impl Default for KvStore {
    /// An empty store, as `KvStore::new` gives.
    fn default() -> (r: KvStore)
        ensures
            r.wf(),
            r.view() == Map::<Seq<char>, Seq<char>>::empty(),
    {
        KvStore::new()
    }
}

} // verus!
