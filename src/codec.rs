//! The byte format in which a store is saved.
//!
//! A saved store is the four bytes `k v s 0x01`, then one record per entry.
//! A record is the key and then the value, each written as its UTF-8 length in
//! eight little-endian bytes followed by its UTF-8 bytes.
use vstd::prelude::*;
use vstd::utf8::{decode_utf8, encode_utf8, encode_utf8_decode_utf8, encode_utf8_valid_utf8, valid_utf8};

use vstd::slice::slice_subrange;

use crate::store::{entries_view, unique_keys, Entry};

verus! {

/// The bytes that open every saved store.
pub open spec fn magic() -> Seq<u8> {
    seq![0x6bu8, 0x76u8, 0x73u8, 0x01u8]
}

/// `256` to the power `w`.
pub open spec fn pow256(w: nat) -> nat
    decreases w,
{
    if w == 0 {
        1
    } else {
        256 * pow256((w - 1) as nat)
    }
}

/// The number that bytes `b` stand for, least significant byte first.
pub open spec fn le_value(b: Seq<u8>) -> nat
    decreases b.len(),
{
    if b.len() == 0 {
        0
    } else {
        b[0] as nat + 256 * le_value(b.drop_first())
    }
}

/// The `w` least significant bytes of `n`, least significant first.
pub open spec fn le_bytes(n: nat, w: nat) -> Seq<u8>
    decreases w,
{
    if w == 0 {
        seq![]
    } else {
        seq![(n % 256) as u8] + le_bytes(n / 256, (w - 1) as nat)
    }
}

/// A string as it is saved: its UTF-8 length, then its UTF-8 bytes.
#[verifier::opaque]
pub open spec fn encode_text(s: Seq<char>) -> Seq<u8> {
    le_bytes(encode_utf8(s).len(), 8) + encode_utf8(s)
}

/// An entry as it is saved: its key, then its value.
pub open spec fn encode_entry(e: Entry) -> Seq<u8> {
    encode_text(e.0) + encode_text(e.1)
}

/// The records of a sequence of entries, in order.
pub open spec fn encode_entries(es: Seq<Entry>) -> Seq<u8>
    decreases es.len(),
{
    if es.len() == 0 {
        seq![]
    } else {
        encode_entry(es[0]) + encode_entries(es.drop_first())
    }
}

/// The bytes in which a store with entries `es` is saved.
pub open spec fn encode_store(es: Seq<Entry>) -> Seq<u8> {
    magic() + encode_entries(es)
}

/// The string written at the start of `b`, and how many bytes it takes; `None`
/// when `b` does not start with a length and that many bytes of valid UTF-8.
#[verifier::opaque]
pub open spec fn parse_text(b: Seq<u8>) -> Option<(Seq<char>, int)> {
    if b.len() < 8 {
        None
    } else {
        let n = le_value(b.subrange(0, 8)) as int;
        if b.len() - 8 < n {
            None
        } else if valid_utf8(b.subrange(8, 8 + n)) {
            Some((decode_utf8(b.subrange(8, 8 + n)), 8 + n))
        } else {
            None
        }
    }
}

/// The entries whose records make up the whole of `b`, if it is made of records.
pub open spec fn parse_entries(b: Seq<u8>) -> Option<Seq<Entry>>
    decreases b.len(),
    via parse_entries_decreases
{
    if b.len() == 0 {
        Some(seq![])
    } else if parse_text(b) is None {
        None
    } else {
        let (k, n1) = parse_text(b).unwrap();
        let b1 = b.subrange(n1, b.len() as int);
        if parse_text(b1) is None {
            None
        } else {
            let (v, n2) = parse_text(b1).unwrap();
            match parse_entries(b1.subrange(n2, b1.len() as int)) {
                Some(rest) => Some(seq![(k, v)] + rest),
                None => None,
            }
        }
    }
}

#[via_fn]
proof fn parse_entries_decreases(b: Seq<u8>) {
    reveal(parse_text);
}

/// The entries of the store saved as `b`; `None` when `b` is not a valid saved
/// store: it lacks the opening bytes, is not made of records, or holds a key twice.
pub open spec fn parse_store(b: Seq<u8>) -> Option<Seq<Entry>> {
    if b.len() >= 4 && b.subrange(0, 4) == magic() {
        match parse_entries(b.subrange(4, b.len() as int)) {
            Some(es) => if unique_keys(es) {
                Some(es)
            } else {
                None
            },
            None => None,
        }
    } else {
        None
    }
}

/// Every entry of `es` can be saved: its key and value take fewer than 2^64
/// bytes of UTF-8.
pub open spec fn encodable(es: Seq<Entry>) -> bool {
    forall|i: int|
        0 <= i < es.len() ==> encode_utf8(#[trigger] es[i].0).len() < pow256(8)
            && encode_utf8(es[i].1).len() < pow256(8)
}

/// `le_bytes` gives exactly `w` bytes.
pub proof fn lemma_le_bytes_len(n: nat, w: nat)
    ensures
        le_bytes(n, w).len() == w,
    decreases w,
{
    if w > 0 {
        lemma_le_bytes_len(n / 256, (w - 1) as nat);
    }
}

/// Reading back the bytes of a number that fits gives the number.
pub proof fn lemma_le_round_trip(n: nat, w: nat)
    requires
        n < pow256(w),
    ensures
        le_value(le_bytes(n, w)) == n,
    decreases w,
{
    if w > 0 {
        let w1 = (w - 1) as nat;
        assert(n / 256 < pow256(w1)) by (nonlinear_arith)
            requires
                n < 256 * pow256(w1),
        ;
        lemma_le_round_trip(n / 256, w1);
        lemma_le_bytes_len(n / 256, w1);
        assert(le_bytes(n, w).drop_first() =~= le_bytes(n / 256, w1));
    }
}

/// A number read from `w` bytes is below `256^w`.
pub proof fn lemma_le_value_bound(b: Seq<u8>)
    ensures
        le_value(b) < pow256(b.len()),
    decreases b.len(),
{
    if b.len() > 0 {
        lemma_le_value_bound(b.drop_first());
        let r = le_value(b.drop_first());
        let p = pow256((b.len() - 1) as nat);
        assert(b[0] as nat + 256 * r < 256 * p) by (nonlinear_arith)
            requires
                r < p,
                b[0] < 256,
        ;
    }
}

/// The text at the front of `encode_text(s) + rest` is `s`.
pub proof fn lemma_parse_text(s: Seq<char>, rest: Seq<u8>)
    requires
        encode_utf8(s).len() < pow256(8),
    ensures
        parse_text(encode_text(s) + rest) == Some((s, encode_text(s).len() as int)),
        encode_text(s).len() >= 8,
{
    reveal(encode_text);
    reveal(parse_text);
    let u = encode_utf8(s);
    let b = encode_text(s) + rest;
    lemma_le_bytes_len(u.len(), 8);
    lemma_le_round_trip(u.len(), 8);
    assert(b.subrange(0, 8) =~= le_bytes(u.len(), 8));
    assert(b.subrange(8, 8 + u.len() as int) =~= u);
    encode_utf8_valid_utf8(s);
    encode_utf8_decode_utf8(s);
}

/// Records read back as the entries that were written.
pub proof fn lemma_parse_entries(es: Seq<Entry>)
    requires
        encodable(es),
    ensures
        parse_entries(encode_entries(es)) == Some(es),
    decreases es.len(),
{
    if es.len() > 0 {
        let e = es[0];
        let tail = encode_entries(es.drop_first());
        let b = encode_entries(es);
        assert(encodable(es.drop_first())) by {
            assert forall|i: int| 0 <= i < es.drop_first().len() implies encode_utf8(
                #[trigger] es.drop_first()[i].0,
            ).len() < pow256(8) && encode_utf8(es.drop_first()[i].1).len() < pow256(8) by {
                assert(es.drop_first()[i] == es[i + 1]);
            }
        }
        assert(encode_utf8(es[0].0).len() < pow256(8));
        lemma_parse_text(e.0, encode_text(e.1) + tail);
        assert(b =~= encode_text(e.0) + (encode_text(e.1) + tail));
        let n1 = encode_text(e.0).len() as int;
        let b1 = b.subrange(n1, b.len() as int);
        assert(b1 =~= encode_text(e.1) + tail);
        lemma_parse_text(e.1, tail);
        let n2 = encode_text(e.1).len() as int;
        assert(b1.subrange(n2, b1.len() as int) =~= tail);
        lemma_parse_entries(es.drop_first());
        assert(seq![(e.0, e.1)] + es.drop_first() =~= es);
    }
}

/// Saving a store and reading the bytes back gives the same entries.
pub proof fn lemma_store_round_trip(es: Seq<Entry>)
    requires
        unique_keys(es),
        encodable(es),
    ensures
        parse_store(encode_store(es)) == Some(es),
{
    let b = encode_store(es);
    assert(b.subrange(0, 4) =~= magic());
    assert(b.subrange(4, b.len() as int) =~= encode_entries(es));
    lemma_parse_entries(es);
}

/// `parse_entries` of `b` when `done` was already read in front of it.
pub open spec fn prepend(done: Seq<Entry>, rest: Option<Seq<Entry>>) -> Option<Seq<Entry>> {
    match rest {
        Some(t) => Some(done + t),
        None => None,
    }
}

/// Appending an entry appends its record.
pub proof fn lemma_encode_entries_push(es: Seq<Entry>, e: Entry)
    ensures
        encode_entries(es.push(e)) == encode_entries(es) + encode_entry(e),
    decreases es.len(),
{
    if es.len() == 0 {
        assert(es.push(e).drop_first() =~= Seq::<Entry>::empty());
        assert(encode_entries(Seq::<Entry>::empty()) == Seq::<u8>::empty());
        assert(es.push(e)[0] == e);
        assert(encode_entries(es.push(e)) =~= encode_entry(e));
        assert(encode_entries(es) =~= Seq::<u8>::empty());
    } else {
        lemma_encode_entries_push(es.drop_first(), e);
        assert(es.push(e).drop_first() =~= es.drop_first().push(e));
        assert(encode_entries(es.push(e)) =~= encode_entries(es) + encode_entry(e));
    }
}

proof fn lemma_pow256_8()
    ensures
        pow256(8) == 0x1_0000_0000_0000_0000,
{
    reveal_with_fuel(pow256, 9);
}

/// Appends the eight little-endian bytes of `x` to `out`.
fn write_u64_le(out: &mut Vec<u8>, x: u64)
    ensures
        final(out)@ == old(out)@ + le_bytes(x as nat, 8),
{
    let mut cur: u64 = x;
    let mut i: usize = 0;
    while i < 8
        invariant
            i <= 8,
            out@ + le_bytes(cur as nat, (8 - i) as nat) == old(out)@ + le_bytes(x as nat, 8),
        decreases 8 - i,
    {
        let ghost before = out@;
        let ghost rest = le_bytes(cur as nat / 256, (8 - i - 1) as nat);
        assert(le_bytes(cur as nat, (8 - i) as nat) == seq![(cur as nat % 256) as u8] + rest);
        out.push((cur % 256) as u8);
        assert(out@ + rest =~= before + (seq![(cur as nat % 256) as u8] + rest));
        cur = cur / 256;
        i = i + 1;
    }
    assert(out@ =~= out@ + le_bytes(cur as nat, 0));
}

/// The number in the eight little-endian bytes of `b` at `pos`.
fn read_u64_le(b: &[u8], pos: usize) -> (r: u64)
    requires
        pos + 8 <= b@.len(),
    ensures
        r as nat == le_value(b@.subrange(pos as int, pos + 8)),
{
    let len = b.len();
    let mut acc: u64 = 0;
    let mut j: usize = 8;
    while j > 0
        invariant
            j <= 8,
            len == b@.len(),
            pos + 8 <= b@.len(),
            acc as nat == le_value(b@.subrange(pos + j, pos + 8)),
        decreases j,
    {
        let ghost tail = b@.subrange(pos + j, pos + 8);
        let ghost s = b@.subrange(pos + j - 1, pos + 8);
        assert(s.drop_first() =~= tail);
        proof {
            lemma_le_value_bound(tail);
            lemma_pow256_8();
            reveal_with_fuel(pow256, 9);
        }
        let byte = b[pos + j - 1];
        assert((acc as nat) * 256 + (byte as nat) < 0x1_0000_0000_0000_0000) by (nonlinear_arith)
            requires
                acc as nat == le_value(tail),
                le_value(tail) < pow256(tail.len()),
                pow256(tail.len()) <= pow256(7),
                pow256(7) == 0x100_0000_0000_0000,
                byte < 256,
        {
        }
        acc = acc * 256 + byte as u64;
        j = j - 1;
    }
    acc
}

/// Relies on `std::str::from_utf8`: it succeeds exactly on valid UTF-8, and
/// then the string holds the characters that the bytes encode.
#[verifier::external_body]
fn utf8_to_string(b: &[u8]) -> (r: Option<String>)
    ensures
        r is Some <==> valid_utf8(b@),
        r is Some ==> r.unwrap()@ == decode_utf8(b@),
{
    match std::str::from_utf8(b) {
        Ok(s) => Some(s.to_owned()),
        Err(_) => None,
    }
}

/// Appends `s` as it is saved to `out`.
pub fn write_text(out: &mut Vec<u8>, s: &String)
    ensures
        final(out)@ == old(out)@ + encode_text(s@),
        encode_utf8(s@).len() < pow256(8),
{
    let bytes = s.as_str().as_bytes();
    proof {
        lemma_pow256_8();
        reveal(encode_text);
    }
    write_u64_le(out, bytes.len() as u64);
    let ghost mid = out@;
    out.extend_from_slice(bytes);
    assert(out@ =~= mid + bytes@);
}

/// The string saved at `pos` in `b`, and the position after it; `None` where
/// `b` holds no saved string there.
pub fn read_text(b: &[u8], pos: usize) -> (r: Option<(String, usize)>)
    requires
        pos <= b@.len(),
    ensures
        match parse_text(b@.subrange(pos as int, b@.len() as int)) {
            None => r is None,
            Some((s, n)) => r is Some && r.unwrap().0@ == s && r.unwrap().1 == pos + n,
        },
        r is Some ==> pos + 8 <= r.unwrap().1 <= b@.len(),
{
    let ghost t = b@.subrange(pos as int, b@.len() as int);
    proof { reveal(parse_text); }
    if b.len() - pos < 8 {
        return None;
    }
    let n = read_u64_le(b, pos);
    assert(t.subrange(0, 8) =~= b@.subrange(pos as int, pos + 8));
    if n > (b.len() - pos - 8) as u64 {
        return None;
    }
    let start = pos + 8;
    let end = start + n as usize;
    let sub = slice_subrange(b, start, end);
    assert(sub@ =~= t.subrange(8, 8 + n as int));
    match utf8_to_string(sub) {
        Some(s) => Some((s, end)),
        None => None,
    }
}

/// The entries saved in `b`, where `b` is a saved store but perhaps for a
/// repeated key; `None` where it is not.
pub fn decode(b: &[u8]) -> (r: Option<Vec<(String, String)>>)
    ensures
        match r {
            Some(v) => b@.len() >= 4 && b@.subrange(0, 4) == magic() && parse_entries(
                b@.subrange(4, b@.len() as int),
            ) == Some(entries_view(v@)),
            None => !(b@.len() >= 4 && b@.subrange(0, 4) == magic()) || parse_entries(
                b@.subrange(4, b@.len() as int),
            ) is None,
        },
{
    if b.len() < 4 || b[0] != 0x6bu8 || b[1] != 0x76u8 || b[2] != 0x73u8 || b[3] != 0x01u8 {
        proof {
            if b@.len() >= 4 && b@.subrange(0, 4) == magic() {
                assert(b@.subrange(0, 4)[0] == b@[0]);
                assert(b@.subrange(0, 4)[1] == b@[1]);
                assert(b@.subrange(0, 4)[2] == b@[2]);
                assert(b@.subrange(0, 4)[3] == b@[3]);
            }
        }
        return None;
    }
    assert(b@.subrange(0, 4) =~= magic());
    let ghost whole = parse_entries(b@.subrange(4, b@.len() as int));
    let mut out: Vec<(String, String)> = Vec::new();
    let mut pos: usize = 4;
    assert(entries_view(out@) + Seq::<Entry>::empty() =~= entries_view(out@));
    while pos < b.len()
        invariant
            4 <= pos <= b@.len(),
            whole == parse_entries(b@.subrange(4, b@.len() as int)),
            whole == prepend(entries_view(out@), parse_entries(b@.subrange(pos as int, b@.len() as int))),
        decreases b@.len() - pos,
    {
        let ghost t = b@.subrange(pos as int, b@.len() as int);
        let kr = read_text(b, pos);
        match kr {
            None => {
                return None;
            },
            Some((k, p1)) => {
                let ghost n1 = p1 - pos;
                let ghost b1 = t.subrange(n1, t.len() as int);
                assert(b1 =~= b@.subrange(p1 as int, b@.len() as int));
                let vr = read_text(b, p1);
                match vr {
                    None => {
                        return None;
                    },
                    Some((v, p2)) => {
                        let ghost n2 = p2 - p1;
                        assert(b1.subrange(n2, b1.len() as int) =~= b@.subrange(p2 as int, b@.len() as int));
                        let ghost done = entries_view(out@);
                        let ghost e: Entry = (k@, v@);
                        out.push((k, v));
                        assert(entries_view(out@) =~= done.push(e));
                        proof {
                            reveal(parse_text);
                            match parse_entries(b@.subrange(p2 as int, b@.len() as int)) {
                                Some(rest) => {
                                    assert(done + (seq![e] + rest) =~= done.push(e) + rest);
                                },
                                None => {},
                            }
                        }
                        pos = p2;
                    },
                }
            },
        }
    }
    assert(b@.subrange(pos as int, b@.len() as int) =~= Seq::<u8>::empty());
    assert(entries_view(out@) + Seq::<Entry>::empty() =~= entries_view(out@));
    Some(out)
}

} // verus!
