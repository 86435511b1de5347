//! The binary pixel payload: a length-prefixed array of byte triples, as
//! bincode lays out a `Vec<(u8, u8, u8)>` (a little-endian `u64` element
//! count, then three bytes per element).
use vstd::prelude::*;

verus! {

/// The little-endian value of `s`.
pub open spec fn le_value(s: Seq<u8>) -> nat
    decreases s.len(),
{
    if s.len() == 0 {
        0
    } else {
        s[0] as nat + 256 * le_value(s.drop_first())
    }
}

/// The `k` low bytes of `n`, least significant first.
pub open spec fn le_bytes(n: nat, k: nat) -> Seq<u8>
    decreases k,
{
    if k == 0 {
        seq![]
    } else {
        seq![(n % 256) as u8] + le_bytes(n / 256, (k - 1) as nat)
    }
}

/// 256 to the power `k`.
pub open spec fn byte_bound(k: nat) -> nat
    decreases k,
{
    if k == 0 {
        1
    } else {
        256 * byte_bound((k - 1) as nat)
    }
}

/// Writing `n` in `k` little-endian bytes and reading them back gives `n`
/// when it fits.
pub proof fn lemma_le_round_trip(n: nat, k: nat)
    requires
        n < byte_bound(k),
    ensures
        le_bytes(n, k).len() == k,
        le_value(le_bytes(n, k)) == n,
    decreases k,
{
    if k > 0 {
        let b = byte_bound((k - 1) as nat);
        assert(n / 256 < b) by (nonlinear_arith)
            requires
                n < 256 * b,
        ;
        lemma_le_round_trip(n / 256, (k - 1) as nat);
        assert(le_bytes(n, k).drop_first() =~= le_bytes(n / 256, (k - 1) as nat));
    }
}

/// The bytes of the triples, one after another.
pub open spec fn flat_triples(t: Seq<(u8, u8, u8)>) -> Seq<u8> {
    Seq::new(
        3 * t.len(),
        |i: int|
            if i % 3 == 0 {
                t[i / 3].0
            } else if i % 3 == 1 {
                t[i / 3].1
            } else {
                t[i / 3].2
            },
    )
}

/// The serialized form of an array of triples.
pub open spec fn triples_payload(t: Seq<(u8, u8, u8)>) -> Seq<u8> {
    le_bytes(t.len(), 8) + flat_triples(t)
}

/// The element count that a payload announces.
pub open spec fn payload_count(b: Seq<u8>) -> nat {
    le_value(b.subrange(0, 8))
}

/// A payload is readable when it holds the count and that many triples;
/// bytes after them are ignored.
pub open spec fn payload_readable(b: Seq<u8>) -> bool {
    b.len() >= 8 && 3 * payload_count(b) <= b.len() - 8
}

/// The triples that a readable payload holds.
pub open spec fn payload_triples(b: Seq<u8>) -> Seq<(u8, u8, u8)> {
    Seq::new(payload_count(b), |k: int| (b[8 + 3 * k], b[9 + 3 * k], b[10 + 3 * k]))
}

/// Relies on `bincode::serialize` (default configuration: fixed-width
/// little-endian integers): a sequence is its length as a `u64` followed by
/// its elements, a tuple is its fields in order, a `u8` is one byte. Writing
/// into a `Vec` with no size limit does not fail.
#[verifier::external_body]
pub(crate) fn encode_triples(t: &Vec<(u8, u8, u8)>) -> (r: Vec<u8>)
    ensures
        r@ == triples_payload(t@),
{
    bincode::serialize(t).unwrap_or_default()
}

/// Relies on `bincode::deserialize` (default configuration, trailing bytes
/// allowed): it reads a `u64` little-endian count, then that many triples, and
/// fails when the bytes run out first.
#[verifier::external_body]
pub(crate) fn decode_triples(b: &[u8]) -> (r: Option<Vec<(u8, u8, u8)>>)
    ensures
        r is Some <==> payload_readable(b@),
        r matches Some(t) ==> t@ == payload_triples(b@),
{
    bincode::deserialize::<Vec<(u8, u8, u8)>>(b).ok()
}

} // verus!
