//! Packed values that are read together are those that are read one by one.
#[allow(unused_imports)]
use super::bytes::{bits_at, lemma_bits_bound, lemma_bits_same};
#[allow(unused_imports)]
use super::error::Error;
#[allow(unused_imports)]
use super::ids::FieldId;
#[allow(unused_imports)]
use super::layout::lemma_valid_field;
#[allow(unused_imports)]
use super::runtime::{
    bit_values_outcome, bits_outcome, lemma_read_len, packed_bit, packed_byte, packed_end,
    packed_error, packed_in_order, read_bytes, unpacked, ReadSession,
};
#[allow(unused_imports)]
use super::span::Span;
#[allow(unused_imports)]
use vstd::arithmetic::power2::pow2;
use vstd::prelude::*;

verus! {

/// Where a packed value starts.
pub proof fn lemma_place(row: int, width: int, rows: int, bytes: int)
    requires
        0 <= row,
        0 <= width,
        0 < rows,
        0 <= bytes,
    ensures
        0 <= packed_byte(row, width, rows, bytes),
        0 <= packed_bit(row, width, rows) < 8,
        row % rows * width <= rows * width,
{
    reveal(packed_byte);
    reveal(packed_bit);
    let block = row / rows;
    let within = row % rows;
    vstd::arithmetic::div_mod::lemma_div_pos_is_pos(row, rows);
    vstd::arithmetic::div_mod::lemma_mod_bound(row, rows);
    vstd::arithmetic::mul::lemma_mul_nonnegative(block, bytes);
    vstd::arithmetic::mul::lemma_mul_nonnegative(within, width);
    vstd::arithmetic::mul::lemma_mul_inequality(within, rows, width);
}

/// The bytes of a part of a range are that part of the bytes of the range.
proof fn lemma_part(session: ReadSession<'_>, field: FieldId, start: int, end: int, from: int, to: int)
    requires
        session.wf(),
        0 <= start <= from <= to <= end,
        read_bytes(session.context(), field, start, end) is Ok,
    ensures
        read_bytes(session.context(), field, from, to) == Ok::<Seq<u8>, Error>(
            read_bytes(session.context(), field, start, end)->Ok_0.subrange(
                from - start,
                to - start,
            ),
        ),
        read_bytes(session.context(), field, start, end)->Ok_0.len() == end - start,
        end <= usize::MAX,
{
    let context = session.context();
    session.lemma_context();
    lemma_read_len(context, field, start, end);
    lemma_read_len(context, field, from, to);
    lemma_valid_field(context.layout, field.0 as int);
    let whole = read_bytes(context, field, start, end)->Ok_0;
    let part = read_bytes(context, field, from, to)->Ok_0;
    assert(part =~= whole.subrange(from - start, to - start));
}

/// One of the packed values that are read together.
proof fn lemma_value(
    session: ReadSession<'_>,
    field: FieldId,
    span: Span,
    width: u8,
    rows: usize,
    bytes: usize,
    i: int,
)
    requires
        session.wf(),
        span.wf(),
        0 <= i < span.end - span.start,
        0 < width <= 64,
        rows > 0,
        bytes > 0,
        bit_values_outcome(
            session.context(),
            field,
            span.start as int,
            span.end as int,
            width as int,
            rows as int,
            bytes as int,
        ).result is Ok,
    ensures
        bits_outcome(
            session.context(),
            field,
            span.start + i,
            width as int,
            rows as int,
            bytes as int,
        ).result == Ok::<u64, Error>(
            bit_values_outcome(
                session.context(),
                field,
                span.start as int,
                span.end as int,
                width as int,
                rows as int,
                bytes as int,
            ).result->Ok_0[i],
        ),
{
    let context = session.context();
    let (start, end) = (span.start as int, span.end as int);
    let (w, r, b) = (width as int, rows as int, bytes as int);
    let row = start + i;
    let first = packed_byte(start, w, r, b);
    let last = packed_end(end - 1, w, r, b);
    let from = packed_byte(row, w, r, b);
    let to = packed_end(row, w, r, b);
    let bit = packed_bit(row, w, r);
    lemma_place(start, w, r, b);
    lemma_place(row, w, r, b);
    lemma_place(end - 1, w, r, b);
    assert(first <= from && to <= last);
    lemma_part(session, field, first, last, from, to);
    let whole = read_bytes(context, field, first, last)->Ok_0;
    let part = read_bytes(context, field, from, to)->Ok_0;
    let place = 8 * (from - first) + bit;
    assert forall|k: int| bit / 8 <= k && 8 * k < bit + width implies #[trigger] part[k] == whole[k
        - bit / 8 + place / 8] by {}
    lemma_bits_same(part, whole, bit, place, width as nat);
    assert(unpacked(whole, start, end, w, r, b)[i] == bits_at(whole, place, width as nat) as u64);
    assert(packed_error(row, w, r, b) is None);
}

/// The bits before a packed value, of those of all miniblocks.
spec fn bits_before(row: int, width: int, rows: int, bytes: int) -> int {
    8 * (row / rows * bytes) + row % rows * width
}

proof fn lemma_bits_before(a: int, b: int, width: int, rows: int, bytes: int)
    requires
        0 <= a <= b,
        0 < width,
        0 < rows,
        0 < bytes,
        rows * width <= 8 * bytes,
    ensures
        0 <= bits_before(a, width, rows, bytes) <= bits_before(b, width, rows, bytes),
        packed_byte(a, width, rows, bytes) == bits_before(a, width, rows, bytes) / 8,
        packed_end(a, width, rows, bytes) == (bits_before(a, width, rows, bytes) + width + 7) / 8,
{
    reveal(packed_byte);
    reveal(packed_bit);
    lemma_place(a, width, rows, bytes);
    lemma_place(b, width, rows, bytes);
    let (p, q) = (a / rows, b / rows);
    let (i, j) = (a % rows, b % rows);
    vstd::arithmetic::div_mod::lemma_div_is_ordered(a, b, rows);
    vstd::arithmetic::div_mod::lemma_div_pos_is_pos(a, rows);
    vstd::arithmetic::div_mod::lemma_mod_bound(a, rows);
    vstd::arithmetic::div_mod::lemma_mod_bound(b, rows);
    vstd::arithmetic::div_mod::lemma_fundamental_div_mod(a, rows);
    vstd::arithmetic::div_mod::lemma_fundamental_div_mod(b, rows);
    vstd::arithmetic::mul::lemma_mul_nonnegative(p, bytes);
    vstd::arithmetic::mul::lemma_mul_nonnegative(i, width);
    vstd::arithmetic::mul::lemma_mul_nonnegative(j, width);
    if p == q {
        vstd::arithmetic::mul::lemma_mul_inequality(i, j, width);
    } else {
        vstd::arithmetic::mul::lemma_mul_inequality(p + 1, q, bytes);
        vstd::arithmetic::mul::lemma_mul_is_distributive_add_other_way(bytes, p, 1);
    }
}

/// Where a miniblock has room for the values of its rows, packed values lie in the order of
/// their rows, so that reading a range of them together is never refused for its
/// parameters.
pub proof fn law_packed_values_lie_in_order(start: int, end: int, width: int, rows: int, bytes: int)
    requires
        0 <= start <= end,
        0 < width,
        0 < rows,
        0 < bytes,
        rows * width <= 8 * bytes,
    ensures
        packed_in_order(start, end, width, rows, bytes),
{
    assert forall|row: int| start <= row < end implies packed_byte(start, width, rows, bytes)
        <= #[trigger] packed_byte(row, width, rows, bytes) && packed_end(row, width, rows, bytes)
        <= packed_end(end - 1, width, rows, bytes) by {
        lemma_bits_before(start, row, width, rows, bytes);
        lemma_bits_before(row, end - 1, width, rows, bytes);
        lemma_bits_before(end - 1, end - 1, width, rows, bytes);
    }
}

/// The packed values of a range of rows, where they are read together, are one for each
/// row, each the one that is read for its row alone, and each within its width; of width
/// zero all are zero, and of a width beyond 64 bits none is read.
pub proof fn law_bit_values_are_the_bits_of_each_row(
    session: ReadSession<'_>,
    field: FieldId,
    span: Span,
    width: u8,
    rows: usize,
    bytes: usize,
)
    requires
        session.wf(),
        span.wf(),
    ensures
        ({
            let context = session.context();
            let read = bit_values_outcome(
                context,
                field,
                span.start as int,
                span.end as int,
                width as int,
                rows as int,
                bytes as int,
            ).result;
            &&& width > 64 ==> read is Err
            &&& read matches Ok(values) ==> {
                &&& values.len() == span.end - span.start
                &&& forall|i: int|
                    0 <= i < values.len() ==> bits_outcome(
                        context,
                        field,
                        span.start + i,
                        width as int,
                        rows as int,
                        bytes as int,
                    ).result == Ok::<u64, Error>(#[trigger] values[i])
                &&& forall|i: int|
                    0 <= i < values.len() ==> (#[trigger] values[i]) < pow2(width as nat)
                &&& width == 0 ==> forall|i: int|
                    0 <= i < values.len() ==> (#[trigger] values[i]) == 0
            }
        }),
{
    let context = session.context();
    let read = bit_values_outcome(
        context,
        field,
        span.start as int,
        span.end as int,
        width as int,
        rows as int,
        bytes as int,
    ).result;
    if let Ok(values) = read {
        vstd::arithmetic::power2::lemma2_to64();
        vstd::arithmetic::power2::lemma2_to64_rest();
        if width > 0 && span.start < span.end {
            assert forall|i: int| 0 <= i < values.len() implies bits_outcome(
                context,
                field,
                span.start + i,
                width as int,
                rows as int,
                bytes as int,
            ).result == Ok::<u64, Error>(#[trigger] values[i]) by {
                lemma_value(session, field, span, width, rows, bytes, i);
            }
            assert forall|i: int| 0 <= i < values.len() implies (#[trigger] values[i]) < pow2(
                width as nat,
            ) by {
                let whole = read_bytes(
                    context,
                    field,
                    packed_byte(span.start as int, width as int, rows as int, bytes as int),
                    packed_end(span.end - 1, width as int, rows as int, bytes as int),
                )->Ok_0;
                let place = 8 * (packed_byte(
                    span.start + i,
                    width as int,
                    rows as int,
                    bytes as int,
                ) - packed_byte(span.start as int, width as int, rows as int, bytes as int))
                    + packed_bit(span.start + i, width as int, rows as int);
                lemma_bits_bound(whole, place, width as nat);
                if width < 64 {
                    vstd::arithmetic::power2::lemma_pow2_strictly_increases(width as nat, 64);
                }
                assert(values[i] == bits_at(whole, place, width as nat) as u64);
            }
        }
    }
}

} // verus!
