//! Fingerprints of bytes.
use vstd::prelude::*;

verus! {

/// The fingerprint of bytes that follow others.
pub open spec fn fingerprint_of(before: u64, bytes: Seq<u8>) -> u64
    decreases bytes.len(),
{
    if bytes.len() == 0 {
        before
    } else {
        (fingerprint_of(before, bytes.drop_last()) ^ bytes.last() as u64).wrapping_mul(
            0x1000_0000_01b3,
        )
    }
}

/// The fingerprint of nothing.
pub const EMPTY_FINGERPRINT: u64 = 0xcbf2_9ce4_8422_2325;

/// The fingerprint of bytes that follow others.
pub fn fingerprint(before: u64, bytes: &[u8]) -> (r: u64)
    ensures
        r == fingerprint_of(before, bytes@),
{
    let mut hash: u64 = before;
    let mut i: usize = 0;
    assert(bytes@.take(0) =~= Seq::empty());
    while i < bytes.len()
        invariant
            i <= bytes@.len(),
            hash == fingerprint_of(before, bytes@.take(i as int)),
        decreases bytes@.len() - i,
    {
        proof {
            assert(bytes@.take(i + 1).drop_last() =~= bytes@.take(i as int));
        }
        hash = (hash ^ bytes[i] as u64).wrapping_mul(0x1000_0000_01b3);
        i = i + 1;
    }
    assert(bytes@.take(i as int) =~= bytes@);
    hash
}

/// Bytes in two parts have the fingerprint of the whole.
pub proof fn law_fingerprint_in_parts(before: u64, first: Seq<u8>, second: Seq<u8>)
    ensures
        fingerprint_of(fingerprint_of(before, first), second) == fingerprint_of(
            before,
            first + second,
        ),
    decreases second.len(),
{
    if second.len() == 0 {
        assert(first + second =~= first);
    } else {
        law_fingerprint_in_parts(before, first, second.drop_last());
        assert((first + second).drop_last() =~= first + second.drop_last());
    }
}

/// The bytes of the first `n` texts, one behind the other.
pub open spec fn all_bytes(texts: Seq<&[u8]>, n: int) -> Seq<u8>
    decreases n,
{
    if n <= 0 {
        Seq::empty()
    } else {
        all_bytes(texts, n - 1) + texts[n - 1]@
    }
}

/// The fingerprint of the texts of the rules, one behind the other.
pub fn primitive_rule_fingerprint(rules: &[&[u8]]) -> (r: u64)
    ensures
        r == fingerprint_of(EMPTY_FINGERPRINT, all_bytes(rules@, rules@.len() as int)),
{
    let mut hash: u64 = EMPTY_FINGERPRINT;
    let mut i: usize = 0;
    while i < rules.len()
        invariant
            i <= rules@.len(),
            hash == fingerprint_of(EMPTY_FINGERPRINT, all_bytes(rules@, i as int)),
        decreases rules@.len() - i,
    {
        proof {
            law_fingerprint_in_parts(
                EMPTY_FINGERPRINT,
                all_bytes(rules@, i as int),
                rules@[i as int]@,
            );
        }
        hash = fingerprint(hash, rules[i]);
        i = i + 1;
    }
    hash
}

} // verus!
