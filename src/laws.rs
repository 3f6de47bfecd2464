//! Laws that relate the store's operations, stated over the map each store
//! stands for (`KvStore::view`) and over the saved byte format.
use vstd::prelude::*;

use crate::codec::{encodable, encode_store, lemma_store_round_trip, parse_store};
use crate::store::{as_map, lookup, unique_keys, Entry};

verus! {

/// After `set(k, v)`, `get(k)` finds `v`.
pub proof fn law_get_after_set(m: Map<Seq<char>, Seq<char>>, k: Seq<char>, v: Seq<char>)
    ensures
        lookup(m.insert(k, v), k) == Some(v),
{
}

/// A key is absent from a new store, and stays absent through every `set` and
/// `remove` of other keys: until it is set, `get` reports it as `None`.
pub proof fn law_absent_until_set(
    m: Map<Seq<char>, Seq<char>>,
    k: Seq<char>,
    other: Seq<char>,
    v: Seq<char>,
)
    requires
        other != k,
        lookup(m, k) is None,
    ensures
        lookup(Map::<Seq<char>, Seq<char>>::empty(), k) is None,
        lookup(m.insert(other, v), k) is None,
        lookup(m.remove(other), k) is None,
{
}

/// Setting a key that holds `v1` to `v2` replaces the value: `get` finds `v2`,
/// and no other key changes.
pub proof fn law_overwrite(
    m: Map<Seq<char>, Seq<char>>,
    k: Seq<char>,
    v1: Seq<char>,
    v2: Seq<char>,
    other: Seq<char>,
)
    requires
        lookup(m, k) == Some(v1),
        other != k,
    ensures
        lookup(m.insert(k, v2), k) == Some(v2),
        lookup(m.insert(k, v2), other) == lookup(m, other),
        m.insert(k, v2).dom() == m.dom(),
{
    assert(m.insert(k, v2).dom() =~= m.dom());
}

/// After `remove(k)`, `get(k)` reports `k` as absent.
pub proof fn law_absent_after_remove(m: Map<Seq<char>, Seq<char>>, k: Seq<char>)
    ensures
        lookup(m.remove(k), k) is None,
{
}

/// A store saved with `to_bytes` and opened again holds the same mapping: its
/// entries read back in order, and so stand for the same map.
pub proof fn law_reopen(es: Seq<Entry>)
    requires
        unique_keys(es),
        encodable(es),
    ensures
        parse_store(encode_store(es)) == Some(es),
        as_map(parse_store(encode_store(es)).unwrap()) == as_map(es),
{
    lemma_store_round_trip(es);
}

} // verus!
