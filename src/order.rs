//! The order of keys: byte-wise lexicographic order of their UTF-8 encodings,
//! which is also the order of their characters.
use vstd::prelude::*;
use vstd::utf8::{encode_utf8, encode_utf8_decode_utf8};

use core::cmp::Ordering;

verus! {

/// `a` and `b` have the same first `i` bytes.
pub open spec fn agree_before(a: Seq<u8>, b: Seq<u8>, i: int) -> bool {
    0 <= i <= a.len() && i <= b.len() && forall|j: int| 0 <= j < i ==> a[j] == b[j]
}

/// `a` comes before `b`, and `i` is where they first differ: either `a` ends
/// there, or its byte there is smaller.
pub open spec fn less_at(a: Seq<u8>, b: Seq<u8>, i: int) -> bool {
    agree_before(a, b, i) && ((i == a.len() && i < b.len()) || (i < a.len() && i < b.len()
        && a[i] < b[i]))
}

/// `a` comes strictly before `b` in lexicographic order.
pub open spec fn bytes_less(a: Seq<u8>, b: Seq<u8>) -> bool {
    exists|i: int| less_at(a, b, i)
}

/// Key `k1` comes strictly before key `k2`.
pub open spec fn key_less(k1: Seq<char>, k2: Seq<char>) -> bool {
    bytes_less(encode_utf8(k1), encode_utf8(k2))
}

/// No sequence comes before itself.
pub proof fn lemma_less_irreflexive(a: Seq<u8>)
    ensures
        !bytes_less(a, a),
{
}

/// No key comes before itself.
pub proof fn lemma_key_less_irreflexive(k: Seq<char>)
    ensures
        !key_less(k, k),
{
    lemma_less_irreflexive(encode_utf8(k));
}

/// The order is transitive.
pub proof fn lemma_less_transitive(a: Seq<u8>, b: Seq<u8>, c: Seq<u8>)
    requires
        bytes_less(a, b),
        bytes_less(b, c),
    ensures
        bytes_less(a, c),
{
    let i1 = choose|i: int| less_at(a, b, i);
    let i2 = choose|i: int| less_at(b, c, i);
    if i1 < i2 {
        assert(less_at(a, c, i1));
    } else if i2 < i1 {
        assert(b[i2] == a[i2]);
        assert(less_at(a, c, i2));
    } else {
        assert(less_at(a, c, i1));
    }
}

/// The order on keys is transitive.
pub proof fn lemma_key_less_transitive(k1: Seq<char>, k2: Seq<char>, k3: Seq<char>)
    requires
        key_less(k1, k2),
        key_less(k2, k3),
    ensures
        key_less(k1, k3),
{
    lemma_less_transitive(encode_utf8(k1), encode_utf8(k2), encode_utf8(k3));
}

/// Compares two byte sequences in lexicographic order.
pub fn compare_bytes(a: &[u8], b: &[u8]) -> (r: Ordering)
    ensures
        r == Ordering::Less <==> bytes_less(a@, b@),
        r == Ordering::Equal <==> a@ == b@,
        r == Ordering::Greater <==> bytes_less(b@, a@),
{
    let mut i: usize = 0;
    while i < a.len() && i < b.len()
        invariant
            agree_before(a@, b@, i as int),
        decreases a@.len() - i,
    {
        if a[i] != b[i] {
            if a[i] < b[i] {
                assert(less_at(a@, b@, i as int));
                proof { lemma_less_irreflexive(a@); }
                assert(!bytes_less(b@, a@)) by {
                    if bytes_less(b@, a@) {
                        let j = choose|j: int| less_at(b@, a@, j);
                        assert(j <= i as int) by {
                            if j > i {
                                assert(b@[i as int] == a@[i as int]);
                            }
                        }
                        if j < i {
                            assert(a@[j] == b@[j]);
                        }
                    }
                }
                assert(a@ != b@) by {
                    assert(a@[i as int] != b@[i as int]);
                }
                return Ordering::Less;
            } else {
                assert(less_at(b@, a@, i as int));
                assert(!bytes_less(a@, b@)) by {
                    if bytes_less(a@, b@) {
                        let j = choose|j: int| less_at(a@, b@, j);
                        assert(j <= i as int) by {
                            if j > i {
                                assert(b@[i as int] == a@[i as int]);
                            }
                        }
                        if j < i {
                            assert(a@[j] == b@[j]);
                        }
                    }
                }
                assert(a@ != b@) by {
                    assert(a@[i as int] != b@[i as int]);
                }
                return Ordering::Greater;
            }
        }
        i = i + 1;
    }
    if a.len() == b.len() {
        assert(a@ =~= b@);
        proof { lemma_less_irreflexive(a@); }
        Ordering::Equal
    } else if a.len() < b.len() {
        assert(less_at(a@, b@, i as int));
        assert(!bytes_less(b@, a@)) by {
            if bytes_less(b@, a@) {
                let j = choose|j: int| less_at(b@, a@, j);
                if j < i {
                    assert(a@[j] == b@[j]);
                }
            }
        }
        Ordering::Less
    } else {
        assert(less_at(b@, a@, i as int));
        assert(!bytes_less(a@, b@)) by {
            if bytes_less(a@, b@) {
                let j = choose|j: int| less_at(a@, b@, j);
                if j < i {
                    assert(a@[j] == b@[j]);
                }
            }
        }
        Ordering::Greater
    }
}

/// Compares two keys in the order of keys.
pub fn compare_keys(k1: &String, k2: &String) -> (r: Ordering)
    ensures
        r == Ordering::Less <==> key_less(k1@, k2@),
        r == Ordering::Equal <==> k1@ == k2@,
        r == Ordering::Greater <==> key_less(k2@, k1@),
{
    let r = compare_bytes(k1.as_str().as_bytes(), k2.as_str().as_bytes());
    proof {
        encode_utf8_decode_utf8(k1@);
        encode_utf8_decode_utf8(k2@);
    }
    r
}

} // verus!
