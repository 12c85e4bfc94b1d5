//! Damage to a header does not go unnoticed.
#[allow(unused_imports)]
use super::bytes::{u32_at, u64_at};
#[allow(unused_imports)]
use super::format::{
    descriptor_checksum_of, header_of, parsed_page, stated_in, CHECKSUM_AT, VERSION,
};
use vstd::prelude::*;

verus! {

/// One step of the hash loses nothing: the multiplier has an inverse.
proof fn lemma_step_keeps(one: u64, other: u64)
    requires
        one.wrapping_mul(0x1000_0000_01b3u64) == other.wrapping_mul(0x1000_0000_01b3u64),
    ensures
        one == other,
{
    let x = one as int;
    let y = other as int;
    let p = 0x1000_0000_01b3int;
    let m = 0x1_0000_0000_0000_0000int;
    let inverse = 0xb46d_d957_aff6_957bint;
    let times = 0xb46_dd95_7c32int;
    let a = (x * p) / m;
    let b = (y * p) / m;
    assert(p * inverse == 1 + times * m);
    assert(x * p == a * m + (x * p) % m);
    assert(y * p == b * m + (y * p) % m);
    assert((x - y) * p == (a - b) * m);
    let t = (a - b) * inverse - (x - y) * times;
    assert((x - y) * p * inverse == (a - b) * m * inverse);
    assert(x - y == t * m);
}

proof fn lemma_mixed_keeps(one: u64, other: u64, byte: u64)
    requires
        one ^ byte == other ^ byte,
    ensures
        one == other,
{
    assert(one ^ byte == other ^ byte ==> one == other) by (bit_vector);
}

proof fn lemma_byte_mixed(hash: u64, one: u64, other: u64)
    requires
        hash ^ one == hash ^ other,
    ensures
        one == other,
{
    assert(hash ^ one == hash ^ other ==> one == other) by (bit_vector);
}

/// Two headers of one length that differ in one byte, other than those of the
/// checksum, have different hashes.
pub proof fn lemma_checksum_differs(header: Seq<u8>, i: int, byte: u8)
    requires
        0 <= i < header.len(),
        !(CHECKSUM_AT <= i < CHECKSUM_AT + 8),
        byte != header[i],
    ensures
        descriptor_checksum_of(header.update(i, byte)) != descriptor_checksum_of(header),
    decreases header.len(),
{
    let changed = header.update(i, byte);
    let at = header.len() - 1;
    let front = descriptor_checksum_of(header.drop_last());
    let changed_front = descriptor_checksum_of(changed.drop_last());
    if i == at {
        assert(changed.drop_last() =~= header.drop_last());
        if descriptor_checksum_of(changed) == descriptor_checksum_of(header) {
            lemma_step_keeps(front ^ byte as u64, front ^ header[i] as u64);
            lemma_byte_mixed(front, byte as u64, header[i] as u64);
        }
    } else {
        lemma_checksum_differs(header.drop_last(), i, byte);
        assert(changed.drop_last() =~= header.drop_last().update(i, byte));
        let last = if CHECKSUM_AT <= at < CHECKSUM_AT + 8 {
            0u64
        } else {
            header[at] as u64
        };
        if descriptor_checksum_of(changed) == descriptor_checksum_of(header) {
            lemma_step_keeps(changed_front ^ last, front ^ last);
            lemma_mixed_keeps(changed_front, front, last);
        }
    }
}

proof fn lemma_checksum_same(header: Seq<u8>, i: int, byte: u8)
    requires
        CHECKSUM_AT <= i < CHECKSUM_AT + 8,
        i < header.len(),
    ensures
        descriptor_checksum_of(header.update(i, byte)) == descriptor_checksum_of(header),
    decreases header.len(),
{
    let changed = header.update(i, byte);
    if i == header.len() - 1 {
        assert(changed.drop_last() =~= header.drop_last());
    } else {
        lemma_checksum_same(header.drop_last(), i, byte);
        assert(changed.drop_last() =~= header.drop_last().update(i, byte));
    }
}

/// A page that states a checksum is refused once one byte of its header is another:
/// one of those that every page starts with, of its length, or behind that. The
/// version and the counts between these say how much of the page the checksum covers.
pub proof fn law_damaged_headers_are_refused(bytes: Seq<u8>, i: int, byte: u8)
    requires
        u32_at(bytes, 8) == VERSION,
        parsed_page(bytes) is Ok,
        header_of(bytes) matches Ok((header, _)) && i < header,
        0 <= i < 8 || 24 <= i,
        byte != bytes[i],
    ensures
        parsed_page(bytes.update(i, byte)) is Err,
{
    let changed = bytes.update(i, byte);
    let header = header_of(bytes)->Ok_0.0;
    if i < 8 {
        assert(bytes.subrange(0, 8)[i] == bytes[i]);
        assert(changed.subrange(0, 8)[i] == byte);
    } else if i < 32 {
        assert(u64_at(changed, 24) != u64_at(bytes, 24));
    } else {
        assert(changed.subrange(0, 8) =~= bytes.subrange(0, 8));
        assert(header_of(changed) == header_of(bytes));
        assert(changed.take(header) =~= bytes.take(header).update(i, byte));
        if CHECKSUM_AT <= i < CHECKSUM_AT + 8 {
            lemma_checksum_same(bytes.take(header), i, byte);
            assert(u64_at(changed, CHECKSUM_AT as int) != u64_at(bytes, CHECKSUM_AT as int));
        } else {
            lemma_checksum_differs(bytes.take(header), i, byte);
        }
        assert(stated_in(changed, header) is Err);
    }
}

} // verus!
