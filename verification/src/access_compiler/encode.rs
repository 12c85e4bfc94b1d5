//! Encoding a column by a recipe.
use super::builder::PageBuilder;
#[allow(unused_imports)]
use super::builder::{
    empty_plan, finish_error, frames_restore, plan_wf, planned_bytes, planned_header, planned_layout,
};
use super::bytes::{push_u32, push_u64, to_unsigned};
#[allow(unused_imports)]
use super::bytes::{byte_of, i64s_bytes, lemma_i64s_push, lemma_u32s_push, u32s_bytes, weight};
use super::coding::{Recipe, MINIBLOCK_ROWS};
#[allow(unused_imports)]
use super::coding::{
    all_positions, all_runs, ascending, coded, coded_bits, coded_dense, compact, compact_marks,
    delta_code, delta_codes, delta_fault, delta_fields, delta_node, dense_values, dictionary_fields,
    dictionary_ids, dictionary_of, difference_code, exception_values, fits_i128, fits_i64, fits_u64,
    for_fields, greatest, is_dictionary, least, bit_width, miniblock_size, narrowed, nearest,
    nullable_fields, offsets, patch_fields, patch_positions, place_in, position_index,
    position_values, rank_values, regular_values, restart_values, rle_fields, rows_before,
    run_index, run_lengths, run_values, runs, stream_bit, stream_byte, stream_bytes, stream_len,
    unpatched, validity_bytes, Build,
};
use super::decoder::{DecoderIr, DecoderNode, DeltaCoding};
#[allow(unused_imports)]
use super::decoder::decoder_error;
use super::error::Error;
#[allow(unused_imports)]
use super::format::parsed_page;
use super::format::SerializedPage;
use super::ids::{FieldId, NodeId};
use super::invariants::{CheckedInvariants, NullPlacement};
use super::layout::DependencyRule;
#[allow(unused_imports)]
use super::layout::{lemma_floor, lemma_quotient, lemma_scale, lemma_scale_next};
#[allow(unused_imports)]
use super::runtime::{ceil_div, lemma_ceil, lemma_ceil_floor};
use super::support::zigzag;
use std::collections::BTreeSet;
use vstd::prelude::*;
#[allow(unused_imports)]
use vstd::std_specs::iter::IteratorSpec;

verus! {

/// The numbers as integers.
pub open spec fn ints(values: Seq<i128>) -> Seq<int> {
    Seq::new(values.len(), |i: int| values[i] as int)
}

spec fn building(builder: PageBuilder, nodes: Seq<DecoderNode>) -> Build {
    Build { plan: builder@, nodes }
}

/// The outcome of an encoding step is as specified.
spec fn step_done(
    wanted: Result<(Build, NodeId), Error>,
    r: Result<NodeId, Error>,
    builder: PageBuilder,
    nodes: Seq<DecoderNode>,
) -> bool {
    match wanted {
        Ok((build, id)) => {
            &&& r == Ok::<NodeId, Error>(id)
            &&& builder@ == build.plan
            &&& nodes == build.nodes
            &&& plan_wf(builder@)
            &&& id.0 < nodes.len()
        },
        Err(e) => r == Err::<NodeId, Error>(e),
    }
}

fn push_node(nodes: &mut Vec<DecoderNode>, node: DecoderNode) -> (r: NodeId)
    ensures
        r == NodeId(old(nodes)@.len() as usize),
        r.0 == old(nodes)@.len(),
        final(nodes)@ == old(nodes)@.push(node),
{
    let id = NodeId(nodes.len());
    nodes.push(node);
    id
}

// ----- bit packing -----

/// The number of bits that a number needs.
fn width_of(value: u64) -> (r: u8)
    ensures
        r == bit_width(value as nat),
        r <= 64,
{
    let mut left: u64 = value;
    let mut width: u8 = 0;
    proof {
        vstd::arithmetic::power2::lemma2_to64_rest();
        lemma_width_bound(value as nat, 64);
    }
    while left > 0
        invariant
            width + bit_width(left as nat) == bit_width(value as nat),
            bit_width(value as nat) <= 64,
        decreases left,
    {
        left = left / 2;
        width = width + 1;
    }
    width
}

/// A number below a power of two needs no more bits than the exponent.
pub proof fn lemma_width_bound(n: nat, w: nat)
    requires
        n < vstd::arithmetic::power2::pow2(w),
    ensures
        bit_width(n) <= w,
    decreases w,
{
    vstd::arithmetic::power2::lemma2_to64();
    if n > 0 {
        if w == 0 {
        } else {
            vstd::arithmetic::power2::lemma_pow2_unfold(w);
            lemma_width_bound(n / 2, (w - 1) as nat);
        }
    }
}

/// A number is below the power of two of its width.
pub proof fn lemma_width_holds(n: nat)
    ensures
        n < vstd::arithmetic::power2::pow2(bit_width(n)),
    decreases n,
{
    vstd::arithmetic::power2::lemma2_to64();
    if n > 0 {
        lemma_width_holds(n / 2);
        vstd::arithmetic::power2::lemma_pow2_unfold(bit_width(n));
    }
}

/// The numbers as unsigned ones with the largest of them.
fn unsigned_values(values: &Vec<i128>) -> (r: Result<(Vec<u64>, u64), Error>)
    ensures
        match r {
            Ok((list, top)) => {
                &&& list@.len() == values@.len()
                &&& forall|i: int| 0 <= i < list@.len() ==> #[trigger] list@[i] == values@[i]
                &&& top == greatest(ints(values@), values@.len() as int)
                &&& forall|i: int| 0 <= i < values@.len() ==> fits_u64(#[trigger] ints(values@)[i])
            },
            Err(e) => e == Error::BitPackTooLarge && exists|i: int|
                0 <= i < values@.len() && !fits_u64(#[trigger] ints(values@)[i]),
        },
{
    let mut list: Vec<u64> = Vec::new();
    let mut top: u64 = 0;
    let mut i: usize = 0;
    while i < values.len()
        invariant
            i <= values@.len(),
            list@.len() == i,
            forall|k: int| 0 <= k < i ==> #[trigger] list@[k] == values@[k],
            top == greatest(ints(values@), i as int),
        decreases values@.len() - i,
    {
        let value: i128 = values[i];
        if value < 0 || value > u64::MAX as i128 {
            assert(!fits_u64(ints(values@)[i as int]));
            return Err(Error::BitPackTooLarge);
        }
        let narrow: u64 = value as u64;
        list.push(narrow);
        if narrow > top {
            top = narrow;
        }
        i = i + 1;
    }
    assert forall|k: int| 0 <= k < values@.len() implies fits_u64(
        #[trigger] ints(values@)[k],
    ) by {
        assert(list@[k] == values@[k]);
    }
    Ok((list, top))
}

/// Byte `i` of the packed stream.
fn packed_byte_at(values: &Vec<u64>, width: u8, size: usize, i: usize) -> (r: u8)
    requires
        0 < width <= 64,
        size == miniblock_size(width as nat),
        i as int / size as int * MINIBLOCK_ROWS < values@.len(),
    ensures
        r == stream_byte(
            Seq::new(values@.len(), |k: int| values@[k] as int),
            width as int,
            i as int,
        ),
{
    let ghost list = Seq::new(values@.len(), |k: int| values@[k] as int);
    let ghost bits = |k: int| stream_bit(list, width as int, 8 * i + k);
    let rows: usize = values.len();
    let block: usize = i / size;
    let base: usize = block * MINIBLOCK_ROWS;
    let start: usize = i % size * 8;
    let mut byte: u8 = 0;
    let mut k: u8 = 8;
    while k > 0
        invariant
            k <= 8,
            0 < width <= 64,
            size == miniblock_size(width as nat),
            block == i / size,
            base == block * MINIBLOCK_ROWS,
            base < values@.len(),
            start == i % size * 8,
            list == Seq::new(values@.len(), |k: int| values@[k] as int),
            bits == (|k: int| stream_bit(list, width as int, 8 * i + k)),
            byte == high_bits(bits, k as int),
        decreases k,
    {
        k = k - 1;
        let q: usize = start + k as usize;
        let in_block: usize = q / width as usize;
        let mut set: bool = false;
        proof {
            lemma_stream_split(i as int, size as int, k as int);
        }
        if in_block < MINIBLOCK_ROWS && in_block < values.len() - base {
            let value: u64 = values[base + in_block];
            let bit: u64 = (q % width as usize) as u64;
            proof {
                vstd::bits::lemma_u64_shr_is_div(value, bit);
                assert(bit < 64);
            }
            set = (value >> bit) % 2 == 1;
        }
        assert(set == bits(k as int));
        proof {
            lemma_high_bits(bits, k as int);
        }
        byte = 2 * byte + if set { 1u8 } else { 0u8 };
    }
    proof {
        lemma_high_bits(bits, 0);
    }
    byte
}

/// The bits from `k` on as a number.
spec fn high_bits(bits: spec_fn(int) -> bool, k: int) -> int
    decreases 8 - k,
{
    if k >= 8 {
        0
    } else {
        weight(bits(k), 1) + 2 * high_bits(bits, k + 1)
    }
}

proof fn lemma_high_bits(bits: spec_fn(int) -> bool, k: int)
    requires
        0 <= k < 8,
    ensures
        high_bits(bits, k) == weight(bits(k), 1) + 2 * high_bits(bits, k + 1),
        0 <= high_bits(bits, k) <= 255,
        high_bits(bits, k + 1) <= 127,
        high_bits(bits, 0) == byte_of(bits),
{
    reveal_with_fuel(high_bits, 9);
}

proof fn lemma_stream_split(i: int, size: int, k: int)
    requires
        size > 0,
        i >= 0,
        0 <= k < 8,
    ensures
        (8 * i + k) / (8 * size) == i / size,
        (8 * i + k) % (8 * size) == i % size * 8 + k,
{
    vstd::arithmetic::div_mod::lemma_fundamental_div_mod(i, size);
    let q = i / size;
    let r = i % size;
    assert(8 * i + k == q * (8 * size) + (r * 8 + k)) by (nonlinear_arith)
        requires
            i == size * q + r,
    ;
    vstd::arithmetic::div_mod::lemma_fundamental_div_mod_converse(
        8 * i + k,
        8 * size,
        q,
        r * 8 + k,
    );
}

/// The length of the packed stream, if it is addressable.
fn packed_len(rows: usize, width: u8, size: usize) -> (r: Option<usize>)
    requires
        width <= 64,
        size == miniblock_size(width as nat),
    ensures
        match r {
            Some(len) => len == stream_len(rows as int, width as nat),
            None => stream_len(rows as int, width as nat) > usize::MAX,
        },
{
    if width == 0 || rows == 0 {
        proof {
            assert(ceil_div(0, MINIBLOCK_ROWS as int) == 0);
        }
        return Some(0);
    }
    proof {
        lemma_ceil_floor(rows as int, MINIBLOCK_ROWS as int);
    }
    let blocks: usize = (rows - 1) / MINIBLOCK_ROWS + 1;
    blocks.checked_mul(size)
}

fn encode_bitpack(
    values: &Vec<i128>,
    builder: &mut PageBuilder,
    nodes: &mut Vec<DecoderNode>,
) -> (r: Result<NodeId, Error>)
    requires
        plan_wf(old(builder)@),
    ensures
        step_done(
            coded_bits(ints(values@), building(*old(builder), old(nodes)@)),
            r,
            *final(builder),
            final(nodes)@,
        ),
{
    let ghost list = ints(values@);
    let (narrow, top) = match unsigned_values(values) {
        Ok(found) => found,
        Err(e) => {
            return Err(e);
        },
    };
    let width: u8 = width_of(top);
    let size: usize = if width == 0 {
        8
    } else {
        16 * width as usize
    };
    let total: usize = match packed_len(values.len(), width, size) {
        Some(total) => total,
        None => {
            return Err(Error::PackedByteOverflow);
        },
    };
    let mut packed: Vec<u8> = Vec::new();
    let ghost same = Seq::new(narrow@.len(), |k: int| narrow@[k] as int);
    assert(same =~= list);
    let mut i: usize = 0;
    while i < total
        invariant
            i <= total,
            width <= 64,
            size == miniblock_size(width as nat),
            total == stream_len(values@.len() as int, width as nat),
            values@.len() <= usize::MAX,
            list == ints(values@),
            narrow@.len() == values@.len(),
            list == Seq::new(narrow@.len(), |k: int| narrow@[k] as int),
            packed@.len() == i,
            forall|k: int| 0 <= k < i ==> #[trigger] packed@[k] == stream_byte(list, width as int, k),
        decreases total - i,
    {
        proof {
            lemma_block_bound(values@.len() as int, width as nat, i as int);
        }
        packed.push(packed_byte_at(&narrow, width, size, i));
        i = i + 1;
    }
    assert(packed@ =~= stream_bytes(list, width as nat));
    let stream = match builder.add_field("bitpack.miniblocks", packed, 64, size) {
        Ok(stream) => stream,
        Err(e) => {
            return Err(e);
        },
    };
    Ok(
        push_node(
            nodes,
            DecoderNode::BitUnpack {
                stream,
                width,
                len: values.len(),
                miniblock_rows: MINIBLOCK_ROWS,
                miniblock_bytes: size,
            },
        ),
    )
}

proof fn lemma_block_bound(rows: int, width: nat, i: int)
    requires
        0 <= rows <= usize::MAX,
        0 <= i < stream_len(rows, width),
    ensures
        width > 0,
        rows > 0,
        i / miniblock_size(width) * MINIBLOCK_ROWS <= rows - 1,
{
    let size = miniblock_size(width);
    let blocks = ceil_div(rows, MINIBLOCK_ROWS as int);
    lemma_ceil(rows, MINIBLOCK_ROWS as int);
    lemma_floor(i, size);
    if i / size >= blocks {
        lemma_scale(blocks, i / size, size);
    }
}

// ----- frame of reference -----

fn encode_for_base(values: &Vec<i128>, builder: &mut PageBuilder) -> (r: Result<
    (FieldId, Vec<i128>),
    Error,
>)
    requires
        plan_wf(old(builder)@),
    ensures
        forall|nodes: Seq<DecoderNode>|
            match #[trigger] for_fields(ints(values@), building(*old(builder), nodes)) {
                Ok((build, base)) => r matches Ok(found) && found.0 == base && final(builder)@
                    == build.plan && build.nodes == nodes && plan_wf(final(builder)@)
                    && ints(found.1@) == offsets(ints(values@)),
                Err(e) => r matches Err(found) && found == e,
            },
{
    let ghost list = ints(values@);
    if values.len() == 0 {
        return Err(Error::EmptyFor);
    }
    let mut base: i128 = values[0];
    let mut i: usize = 1;
    while i < values.len()
        invariant
            1 <= i <= values@.len(),
            list == ints(values@),
            base == least(list, i as int),
        decreases values@.len() - i,
    {
        if values[i] < base {
            base = values[i];
        }
        i = i + 1;
    }
    if base < i64::MIN as i128 || base > i64::MAX as i128 {
        return Err(Error::ForBaseTooLarge);
    }
    let narrow: i64 = base as i64;
    let mut bytes: Vec<u8> = Vec::new();
    push_u64(&mut bytes, to_unsigned(narrow));
    proof {
        let none = Seq::<i64>::empty();
        lemma_i64s_push(none, narrow);
        assert(none.push(narrow) =~= seq![narrow]);
        assert(i64s_bytes(none) =~= Seq::<u8>::empty());
        assert(bytes@ =~= i64s_bytes(seq![narrow]));
    }
    let field = match builder.add_field("for.base", bytes, 8, 8) {
        Ok(field) => field,
        Err(e) => {
            return Err(e);
        },
    };
    let mut shifted: Vec<i128> = Vec::new();
    let mut i: usize = 0;
    while i < values.len()
        invariant
            i <= values@.len(),
            list == ints(values@),
            base == least(list, values@.len() as int),
            shifted@.len() == i,
            forall|k: int| 0 <= k < i ==> #[trigger] shifted@[k] == list[k] - base,
            forall|k: int| 0 <= k < i ==> fits_i128(#[trigger] list[k] - base),
            values@.len() > 0,
            fits_i64(base as int),
            old(builder)@.fields.len() != usize::MAX,
        decreases values@.len() - i,
    {
        match values[i].checked_sub(base) {
            Some(offset) => {
                shifted.push(offset);
            },
            None => {
                assert(!fits_i128(list[i as int] - base));
                return Err(Error::ForSubtraction);
            },
        }
        i = i + 1;
    }
    assert(ints(shifted@) =~= offsets(list));
    Ok((field, shifted))
}

// ----- differences -----

fn encode_difference(previous: i128, value: i128, coding: DeltaCoding) -> (r: Result<i128, Error>)
    ensures
        match difference_code(value - previous, coding) {
            Ok(code) => r matches Ok(found) && found == code,
            Err(e) => r matches Err(found) && found == e,
        },
{
    let difference: i128 = match value.checked_sub(previous) {
        Some(difference) => difference,
        None => {
            return Err(Error::DeltaSubtraction);
        },
    };
    match coding {
        DeltaCoding::ZigZag => {
            if difference < i64::MIN as i128 || difference > i64::MAX as i128 {
                return Err(Error::DeltaTooWide);
            }
            Ok(zigzag(difference as i64) as i128)
        },
        DeltaCoding::Unsigned => {
            if difference < 0 || difference > u64::MAX as i128 {
                return Err(Error::UnsignedDeltaDecreases);
            }
            Ok(difference)
        },
    }
}

proof fn lemma_delta_stop(values: Seq<int>, interval: int, coding: DeltaCoding, i: int, n: int)
    requires
        i <= n,
        delta_fault(values, interval, coding, i) is Some,
    ensures
        delta_fault(values, interval, coding, n) == delta_fault(values, interval, coding, i),
    decreases n,
{
    if i < n {
        lemma_delta_stop(values, interval, coding, i, n - 1);
    }
}

/// The groups of `interval` up to row `n` grow by one at each multiple.
proof fn lemma_group_step(n: int, interval: int)
    requires
        interval > 0,
        n >= 0,
    ensures
        n % interval == 0 ==> ceil_div(n + 1, interval) == ceil_div(n, interval) + 1 && ceil_div(
            n,
            interval,
        ) * interval == n,
        n % interval != 0 ==> ceil_div(n + 1, interval) == ceil_div(n, interval),
{
    lemma_floor(n, interval);
    vstd::arithmetic::div_mod::lemma_fundamental_div_mod(n, interval);
    vstd::arithmetic::mul::lemma_mul_is_commutative(interval, n / interval);
    lemma_ceil_floor(n + 1, interval);
    let q = n / interval;
    if n % interval == 0 {
        lemma_quotient(n + (interval - 1), q, interval);
    } else {
        lemma_scale_next(q, interval);
        lemma_scale_next(q + 1, interval);
        lemma_quotient(n + (interval - 1), q + 1, interval);
    }
}

fn encode_delta_restarts(
    interval: usize,
    values: &Vec<i128>,
    builder: &mut PageBuilder,
    coding: DeltaCoding,
) -> (r: Result<(FieldId, Vec<i128>), Error>)
    requires
        plan_wf(old(builder)@),
    ensures
        forall|nodes: Seq<DecoderNode>|
            match #[trigger] delta_fields(
                ints(values@),
                interval,
                coding,
                building(*old(builder), nodes),
            ) {
                Ok((build, restarts)) => r matches Ok(found) && found.0 == restarts
                    && final(builder)@ == build.plan && build.nodes == nodes && plan_wf(
                    final(builder)@,
                ) && ints(found.1@) == delta_codes(ints(values@), interval as int, coding),
                Err(e) => r matches Err(found) && found == e,
            },
{
    let ghost list = ints(values@);
    if interval == 0 || interval % MINIBLOCK_ROWS != 0 {
        return Err(Error::DeltaInterval);
    }
    let mut bytes: Vec<u8> = Vec::new();
    let mut codes: Vec<i128> = Vec::new();
    let ghost mut anchors: Seq<i64> = Seq::empty();
    assert(bytes@ =~= i64s_bytes(anchors));
    proof {
        assert(ceil_div(0, interval as int) == 0) by {
            vstd::arithmetic::div_mod::lemma_basic_div(interval - 1, interval as int);
        }
    }
    let mut row: usize = 0;
    while row < values.len()
        invariant
            row <= values@.len(),
            interval > 0,
            interval % MINIBLOCK_ROWS == 0,
            list == ints(values@),
            delta_fault(list, interval as int, coding, row as int) is None,
            codes@.len() == row,
            forall|k: int|
                0 <= k < row ==> #[trigger] codes@[k] == delta_code(list, interval as int, coding, k),
            bytes@ == i64s_bytes(anchors),
            anchors.len() == ceil_div(row as int, interval as int),
            forall|k: int| 0 <= k < anchors.len() ==> #[trigger] anchors[k] == list[k * interval] as i64,
        decreases values@.len() - row,
    {
        proof {
            lemma_group_step(row as int, interval as int);
            if row == 0 {
                vstd::arithmetic::div_mod::lemma_small_mod(0, interval as nat);
            }
        }
        if row % interval == 0 {
            let value: i128 = values[row];
            if value < i64::MIN as i128 || value > i64::MAX as i128 {
                proof {
                    lemma_delta_stop(
                        list,
                        interval as int,
                        coding,
                        row + 1,
                        values@.len() as int,
                    );
                }
                return Err(Error::DeltaRestartTooLarge);
            }
            let anchor: i64 = value as i64;
            push_u64(&mut bytes, to_unsigned(anchor));
            proof {
                lemma_i64s_push(anchors, anchor);
                anchors = anchors.push(anchor);
            }
            codes.push(0);
        } else {
            match encode_difference(values[row - 1], values[row], coding) {
                Ok(code) => {
                    codes.push(code);
                },
                Err(e) => {
                    proof {
                        lemma_delta_stop(
                            list,
                            interval as int,
                            coding,
                            row + 1,
                            values@.len() as int,
                        );
                    }
                    return Err(e);
                },
            }
        }
        row = row + 1;
    }
    assert(anchors =~= restart_values(list, interval as int));
    assert(ints(codes@) =~= delta_codes(list, interval as int, coding));
    match builder.add_field("delta.restarts", bytes, 8, 64) {
        Ok(field) => Ok((field, codes)),
        Err(e) => Err(e),
    }
}

fn finish_delta(
    rows: usize,
    interval: usize,
    coding: DeltaCoding,
    restarts: FieldId,
    deltas: NodeId,
    builder: &mut PageBuilder,
    nodes: &mut Vec<DecoderNode>,
) -> (r: Result<NodeId, Error>)
    requires
        plan_wf(old(builder)@),
        deltas.0 < old(nodes)@.len(),
    ensures
        step_done(
            delta_node(
                rows,
                interval,
                coding,
                restarts,
                deltas,
                building(*old(builder), old(nodes)@),
            ),
            r,
            *final(builder),
            final(nodes)@,
        ),
{
    if let DecoderNode::BitUnpack { stream, miniblock_bytes, .. } = nodes[deltas.0] {
        match (interval / MINIBLOCK_ROWS).checked_mul(miniblock_bytes) {
            Some(span) => {
                builder.add_dependency(
                    DependencyRule::Restart {
                        data: stream,
                        restarts,
                        data_bytes_per_restart: span,
                        bytes_per_restart: 8,
                    },
                );
            },
            None => {
                return Err(Error::IndexBlockOverflow);
            },
        }
    }
    Ok(
        push_node(
            nodes,
            DecoderNode::Delta { deltas, restarts, restart_interval: interval, len: rows, coding },
        ),
    )
}

// ----- dictionaries -----

/// The number of values in an ascending list below a value.
fn lower_bound(list: &Vec<i128>, value: i128) -> (r: usize)
    requires
        ascending(ints(list@)),
    ensures
        r <= list@.len(),
        forall|k: int| 0 <= k < r ==> #[trigger] list@[k] < value,
        forall|k: int| r <= k < list@.len() ==> #[trigger] list@[k] >= value,
{
    let ghost all = ints(list@);
    let mut low: usize = 0;
    let mut high: usize = list.len();
    while low < high
        invariant
            low <= high <= list@.len(),
            all == ints(list@),
            ascending(all),
            forall|k: int| 0 <= k < low ==> #[trigger] list@[k] < value,
            forall|k: int| high <= k < list@.len() ==> #[trigger] list@[k] >= value,
        decreases high - low,
    {
        let mid: usize = low + (high - low) / 2;
        if list[mid] < value {
            proof {
                assert forall|k: int| 0 <= k < mid + 1 implies #[trigger] list@[k] < value by {
                    assert(all[k] == list@[k] && all[mid as int] == list@[mid as int]);
                }
            }
            low = mid + 1;
        } else {
            proof {
                assert forall|k: int| mid <= k < list@.len() implies #[trigger] list@[k] >= value by {
                    assert(all[k] == list@[k] && all[mid as int] == list@[mid as int]);
                }
            }
            high = mid;
        }
    }
    low
}

/// An ascending list is known by its values.
pub proof fn lemma_ascending_unique(a: Seq<int>, b: Seq<int>)
    requires
        ascending(a),
        ascending(b),
        forall|v: int| #[trigger] a.contains(v) == b.contains(v),
    ensures
        a == b,
    decreases a.len(),
{
    if a.len() == 0 {
        if b.len() > 0 {
            assert(b.contains(b[0]));
            assert(a.contains(b[0]));
        }
        assert(a =~= b);
    } else {
        assert(a.contains(a.last()));
        assert(b.contains(a.last()));
        assert(b.len() > 0);
        assert(b.contains(b.last()));
        assert(a.contains(b.last()));
        let i = choose|i: int| 0 <= i < b.len() && b[i] == a.last();
        let j = choose|j: int| 0 <= j < a.len() && a[j] == b.last();
        if i < b.len() - 1 {
            assert(b[i] < b[b.len() - 1]);
            if j < a.len() - 1 {
                assert(a[j] < a[a.len() - 1]);
            }
        }
        assert(a.last() == b.last());
        let da = a.drop_last();
        let db = b.drop_last();
        assert forall|v: int| #[trigger] da.contains(v) == db.contains(v) by {
            if da.contains(v) {
                let k = choose|k: int| 0 <= k < da.len() && da[k] == v;
                assert(a[k] == v && a[k] < a[a.len() - 1]);
                assert(a.contains(v));
                assert(b.contains(v));
                let m = choose|m: int| 0 <= m < b.len() && b[m] == v;
                assert(db[m] == v);
            }
            if db.contains(v) {
                let k = choose|k: int| 0 <= k < db.len() && db[k] == v;
                assert(b[k] == v && b[k] < b[b.len() - 1]);
                assert(b.contains(v));
                assert(a.contains(v));
                let m = choose|m: int| 0 <= m < a.len() && a[m] == v;
                assert(da[m] == v);
            }
        }
        lemma_ascending_unique(da, db);
        assert(a =~= da.push(a.last()));
        assert(b =~= db.push(b.last()));
    }
}

pub proof fn lemma_dictionary(d: Seq<int>, values: Seq<int>)
    requires
        is_dictionary(d, values),
    ensures
        dictionary_of(values) == d,
{
    let e = dictionary_of(values);
    assert(is_dictionary(e, values));
    assert forall|v: int| #[trigger] d.contains(v) == e.contains(v) by {
        assert(e.contains(v) == values.contains(v));
    }
    lemma_ascending_unique(d, e);
}

/// The values that occur, each once, in ascending order.
fn distinct(values: &Vec<i128>) -> (r: Vec<i128>)
    ensures
        is_dictionary(ints(r@), ints(values@)),
        ints(r@) == dictionary_of(ints(values@)),
{
    let ghost list = ints(values@);
    let mut found: Vec<i128> = Vec::new();
    let mut i: usize = 0;
    assert(is_dictionary(ints(found@), list.take(0)));
    while i < values.len()
        invariant
            i <= values@.len(),
            list == ints(values@),
            is_dictionary(ints(found@), list.take(i as int)),
        decreases values@.len() - i,
    {
        let value: i128 = values[i];
        let at: usize = lower_bound(&found, value);
        let ghost before = found@;
        let ghost d = ints(before);
        let ghost seen = list.take(i as int);
        let ghost next = list.take(i + 1);
        proof {
            assert(next =~= seen.push(value as int));
            assert forall|v: int| #[trigger] next.contains(v) == (seen.contains(v) || v == value) by {
                if seen.contains(v) {
                    let k = choose|k: int| 0 <= k < seen.len() && seen[k] == v;
                    assert(next[k] == v);
                }
                if v == value {
                    assert(next[i as int] == v);
                }
            }
        }
        if at == found.len() || found[at] != value {
            found.insert(at, value);
            proof {
                let e = ints(found@);
                assert(e =~= d.insert(at as int, value as int));
                assert forall|x: int, y: int| 0 <= x < y < e.len() implies #[trigger] e[x]
                    < #[trigger] e[y] by {
                    let p = if x < at { x } else { x - 1 };
                    let q = if y < at { y } else { y - 1 };
                    if x != at {
                        assert(e[x] == d[p] && d[p] == before[p]);
                    }
                    if y != at {
                        assert(e[y] == d[q] && d[q] == before[q]);
                    }
                    if x != at && y != at {
                        assert(d[p] < d[q]);
                    }
                    if x == at {
                        assert(d[at as int] == before[at as int]);
                        if q > at {
                            assert(d[at as int] < d[q]);
                        }
                    }
                }
                assert forall|v: int| #[trigger] e.contains(v) == next.contains(v) by {
                    assert(d.contains(v) == seen.contains(v));
                    assert(next.contains(v) == (seen.contains(v) || v == value));
                    if e.contains(v) {
                        let k = choose|k: int| 0 <= k < e.len() && e[k] == v;
                        if k != at {
                            let p = if k < at { k } else { k - 1 };
                            assert(d[p] == v);
                        }
                    }
                    if d.contains(v) {
                        let k = choose|k: int| 0 <= k < d.len() && d[k] == v;
                        let p = if k < at { k } else { k + 1 };
                        assert(e[p] == v);
                    }
                    if v == value {
                        assert(e[at as int] == v);
                    }
                }
            }
        } else {
            proof {
                assert(d[at as int] == value);
                assert forall|v: int| #[trigger] d.contains(v) == next.contains(v) by {
                    assert(d.contains(v) == seen.contains(v));
                    assert(next.contains(v) == (seen.contains(v) || v == value));
                }
            }
        }
        i = i + 1;
    }
    proof {
        assert(list.take(i as int) =~= list);
        lemma_dictionary(ints(found@), list);
    }
    found
}

fn encode_dictionary_values(values: &Vec<i128>, builder: &mut PageBuilder) -> (r: Result<
    (FieldId, Vec<i128>, usize),
    Error,
>)
    requires
        plan_wf(old(builder)@),
    ensures
        forall|nodes: Seq<DecoderNode>|
            match #[trigger] dictionary_fields(ints(values@), building(*old(builder), nodes)) {
                Ok((build, dictionary)) => r matches Ok(found) && found.0 == dictionary
                    && final(builder)@ == build.plan && build.nodes == nodes && plan_wf(
                    final(builder)@,
                ) && ints(found.1@) == dictionary_ids(ints(values@)) && found.2 == dictionary_of(
                    ints(values@),
                ).len(),
                Err(e) => r matches Err(found) && found == e,
            },
{
    let ghost list = ints(values@);
    let dictionary = distinct(values);
    let ghost d = ints(dictionary@);
    let mut bytes: Vec<u8> = Vec::new();
    let mut i: usize = 0;
    assert(bytes@ =~= i64s_bytes(narrowed(d.take(0))));
    while i < dictionary.len()
        invariant
            i <= dictionary@.len(),
            d == ints(dictionary@),
            d == dictionary_of(ints(values@)),
            bytes@ == i64s_bytes(narrowed(d.take(i as int))),
            forall|k: int| 0 <= k < i ==> fits_i64(#[trigger] d[k]),
        decreases dictionary@.len() - i,
    {
        let value: i128 = dictionary[i];
        if value < i64::MIN as i128 || value > i64::MAX as i128 {
            assert(!fits_i64(d[i as int]));
            return Err(Error::DictionaryValueTooLarge);
        }
        let narrow: i64 = value as i64;
        push_u64(&mut bytes, to_unsigned(narrow));
        proof {
            lemma_i64s_push(narrowed(d.take(i as int)), narrow);
            assert(narrowed(d.take(i + 1)) =~= narrowed(d.take(i as int)).push(narrow));
        }
        i = i + 1;
    }
    assert(d.take(i as int) =~= d);
    let field = match builder.add_field("dictionary.values", bytes, 8, 64) {
        Ok(field) => field,
        Err(e) => {
            return Err(e);
        },
    };
    let mut ids: Vec<i128> = Vec::new();
    let mut i: usize = 0;
    while i < values.len()
        invariant
            i <= values@.len(),
            list == ints(values@),
            d == ints(dictionary@),
            is_dictionary(d, list),
            d == dictionary_of(list),
            ids@.len() == i,
            forall|k: int| 0 <= k < i ==> #[trigger] ids@[k] == place_in(d, list[k]),
        decreases values@.len() - i,
    {
        let value: i128 = values[i];
        let at: usize = lower_bound(&dictionary, value);
        proof {
            assert(list[i as int] == value);
            assert(list.contains(value as int));
            assert(d.contains(value as int));
            let k = choose|k: int| 0 <= k < d.len() && d[k] == value;
            assert(dictionary@[k] == value);
            if k > at {
                assert(d[at as int] < d[k]);
                assert(dictionary@[at as int] >= value);
            }
            assert(k == at);
            lemma_place(d, at as int);
        }
        ids.push(at as i128);
        i = i + 1;
    }
    assert(ints(ids@) =~= dictionary_ids(list));
    Ok((field, ids, dictionary.len()))
}

/// Each value has one place.
pub proof fn lemma_place(d: Seq<int>, i: int)
    requires
        ascending(d),
        0 <= i < d.len(),
    ensures
        place_in(d, d[i]) == i,
{
    let k = place_in(d, d[i]);
    assert(0 <= k < d.len() && d[k] == d[i]);
    if k < i {
        assert(d[k] < d[i]);
    } else if i < k {
        assert(d[i] < d[k]);
    }
}

// ----- lists of numbers -----

fn u32_list(values: &Vec<u32>) -> (r: Vec<u8>)
    ensures
        r@ == u32s_bytes(values@),
{
    let mut bytes: Vec<u8> = Vec::new();
    let mut i: usize = 0;
    assert(bytes@ =~= u32s_bytes(values@.take(0)));
    while i < values.len()
        invariant
            i <= values@.len(),
            bytes@ == u32s_bytes(values@.take(i as int)),
        decreases values@.len() - i,
    {
        push_u32(&mut bytes, values[i]);
        proof {
            lemma_u32s_push(values@.take(i as int), values@[i as int]);
            assert(values@.take(i + 1) =~= values@.take(i as int).push(values@[i as int]));
        }
        i = i + 1;
    }
    assert(values@.take(i as int) =~= values@);
    bytes
}

fn i64_list(values: &Vec<i64>) -> (r: Vec<u8>)
    ensures
        r@ == i64s_bytes(values@),
{
    let mut bytes: Vec<u8> = Vec::new();
    let mut i: usize = 0;
    assert(bytes@ =~= i64s_bytes(values@.take(0)));
    while i < values.len()
        invariant
            i <= values@.len(),
            bytes@ == i64s_bytes(values@.take(i as int)),
        decreases values@.len() - i,
    {
        push_u64(&mut bytes, to_unsigned(values[i]));
        proof {
            lemma_i64s_push(values@.take(i as int), values@[i as int]);
            assert(values@.take(i + 1) =~= values@.take(i as int).push(values@[i as int]));
        }
        i = i + 1;
    }
    assert(values@.take(i as int) =~= values@);
    bytes
}

// ----- runs -----

proof fn lemma_rows_same(a: Seq<(int, nat)>, b: Seq<(int, nat)>, k: int)
    requires
        k <= a.len(),
        k <= b.len(),
        forall|i: int| 0 <= i < k ==> (#[trigger] a[i]).1 == b[i].1,
    ensures
        rows_before(a, k) == rows_before(b, k),
    decreases k,
{
    if k > 0 {
        lemma_rows_same(a, b, k - 1);
        assert(a[k - 1].1 == b[k - 1].1);
    }
}

/// The runs hold all rows.
pub proof fn lemma_runs_total(values: Seq<int>, n: int)
    requires
        0 <= n,
    ensures
        rows_before(runs(values, n), runs(values, n).len() as int) == n,
        runs(values, n).len() <= n,
        n > 0 ==> runs(values, n).len() > 0,
    decreases n,
{
    if n > 0 {
        lemma_runs_total(values, n - 1);
        let before = runs(values, n - 1);
        let all = runs(values, n);
        if before.len() > 0 && before.last().0 == values[n - 1] {
            lemma_rows_same(before, all, before.len() - 1);
        } else {
            lemma_rows_same(before, all, before.len() as int);
        }
    }
}

pub proof fn lemma_rows_before(list: Seq<(int, nat)>, j: int, k: int)
    requires
        0 <= j <= k,
    ensures
        rows_before(list, j) <= rows_before(list, k),
    decreases k,
{
    if j < k {
        lemma_rows_before(list, j, k - 1);
    }
}

/// The values and the lengths of the runs.
fn split_runs(values: &Vec<i128>) -> (r: (Vec<i128>, Vec<u32>))
    requires
        values@.len() <= u32::MAX,
    ensures
        ints(r.0@) == run_values(ints(values@)),
        r.1@ == run_lengths(ints(values@)),
        r.1@.len() == all_runs(ints(values@)).len(),
        forall|k: int|
            0 <= k < r.1@.len() ==> #[trigger] r.1@[k] == all_runs(ints(values@))[k].1,
{
    let ghost list = ints(values@);
    let mut found: Vec<i128> = Vec::new();
    let mut lengths: Vec<u32> = Vec::new();
    let mut i: usize = 0;
    while i < values.len()
        invariant
            i <= values@.len() <= u32::MAX,
            list == ints(values@),
            found@.len() == runs(list, i as int).len(),
            lengths@.len() == runs(list, i as int).len(),
            forall|k: int| 0 <= k < found@.len() ==> #[trigger] found@[k] == runs(list, i as int)[k].0,
            forall|k: int|
                0 <= k < lengths@.len() ==> #[trigger] lengths@[k] == runs(list, i as int)[k].1,
            forall|k: int| 0 <= k < lengths@.len() ==> #[trigger] lengths@[k] <= i,
        decreases values@.len() - i,
    {
        let value: i128 = values[i];
        let count: usize = found.len();
        let ghost before = runs(list, i as int);
        let ghost all = runs(list, i + 1);
        if count > 0 && found[count - 1] == value {
            assert(before.last().0 == list[i as int]);
            let length: u32 = lengths[count - 1];
            lengths.set(count - 1, length + 1);
        } else {
            assert(!(before.len() > 0 && before.last().0 == list[i as int]));
            found.push(value);
            lengths.push(1);
        }
        i = i + 1;
    }
    assert(ints(found@) =~= run_values(list));
    assert(lengths@ =~= run_lengths(list));
    (found, lengths)
}

fn index_runs(lengths: &Vec<u32>, interval: usize, Ghost(values): Ghost<Seq<int>>) -> (r: Vec<u32>)
    requires
        interval > 0,
        values.len() <= u32::MAX,
        lengths@.len() == all_runs(values).len(),
        forall|k: int| 0 <= k < lengths@.len() ==> #[trigger] lengths@[k] == all_runs(values)[k].1,
    ensures
        r@ == run_index(values, interval as int),
{
    let ghost list = all_runs(values);
    let ghost step = interval as int;
    let mut index: Vec<u32> = Vec::new();
    let mut row: u32 = 0;
    let mut run: usize = 0;
    proof {
        lemma_runs_total(values, values.len() as int);
        assert(ceil_div(0, step) == 0) by {
            vstd::arithmetic::div_mod::lemma_basic_div(interval - 1, step);
        }
    }
    while run < lengths.len()
        invariant
            interval > 0,
            step == interval,
            run <= lengths@.len(),
            list == all_runs(values),
            values.len() <= u32::MAX,
            lengths@.len() == list.len(),
            list.len() <= values.len(),
            rows_before(list, list.len() as int) == values.len(),
            forall|k: int| 0 <= k < lengths@.len() ==> #[trigger] lengths@[k] == list[k].1,
            row == rows_before(list, run as int),
            index@.len() == 2 * ceil_div(run as int, step),
            forall|i: int|
                0 <= i < index@.len() ==> #[trigger] index@[i] == if i % 2 == 0 {
                    rows_before(list, i / 2 * step) as u32
                } else {
                    (i / 2 * step) as u32
                },
        decreases lengths@.len() - run,
    {
        proof {
            lemma_group_step(run as int, step);
            lemma_rows_before(list, run + 1, list.len() as int);
        }
        if run % interval == 0 {
            index.push(row);
            index.push(run as u32);
        }
        row = row + lengths[run];
        run = run + 1;
    }
    index.push(row);
    index.push(run as u32);
    proof {
        let groups = ceil_div(list.len() as int, step);
        let wanted = run_index(values, step);
        assert(index@.len() == wanted.len());
        assert forall|i: int| 0 <= i < wanted.len() implies index@[i] == wanted[i] by {
            if i < 2 * groups {
                assert(i / 2 < groups);
            } else {
                assert(i / 2 == groups);
            }
        }
        assert(index@ =~= wanted);
    }
    index
}

fn encode_runs(interval: usize, values: &Vec<i128>, builder: &mut PageBuilder) -> (r: Result<
    (FieldId, FieldId, Vec<i128>),
    Error,
>)
    requires
        plan_wf(old(builder)@),
    ensures
        forall|nodes: Seq<DecoderNode>|
            match #[trigger] rle_fields(ints(values@), interval, building(*old(builder), nodes)) {
                Ok((build, lengths, index)) => r matches Ok(found) && found.0 == lengths && found.1
                    == index && final(builder)@ == build.plan && build.nodes == nodes && plan_wf(
                    final(builder)@,
                ) && ints(found.2@) == run_values(ints(values@)) && found.2@.len() == all_runs(
                    ints(values@),
                ).len(),
                Err(e) => r matches Err(found) && found == e,
            },
{
    if interval == 0 {
        return Err(Error::RleInterval);
    }
    if values.len() > u32::MAX as usize {
        return Err(Error::RleRowIndexOverflow);
    }
    let (found, lengths) = split_runs(values);
    let pairs = index_runs(&lengths, interval, Ghost(ints(values@)));
    let length_bytes = u32_list(&lengths);
    let lengths_field = match builder.add_field("rle.lengths", length_bytes, 4, 128) {
        Ok(field) => field,
        Err(e) => {
            return Err(e);
        },
    };
    let index_bytes = u32_list(&pairs);
    let index_field = match builder.add_field("rle.index", index_bytes, 8, 64) {
        Ok(field) => field,
        Err(e) => {
            return Err(e);
        },
    };
    let block: usize = match interval.checked_mul(4) {
        Some(block) => block,
        None => {
            return Err(Error::IndexBlockOverflow);
        },
    };
    builder.add_dependency(
        DependencyRule::IndexedStream {
            data: lengths_field,
            index: index_field,
            data_block_bytes: block,
            index_entry_bytes: 8,
        },
    );
    assert(found@.len() == ints(found@).len());
    Ok((lengths_field, index_field, found))
}

// ----- patches -----

/// The positions ascend, are rows, and are the rows that are marked.
pub proof fn lemma_positions(patched: Seq<bool>, n: int)
    requires
        0 <= n <= patched.len(),
    ensures
        patch_positions(patched, n).len() <= n,
        forall|k: int|
            0 <= k < patch_positions(patched, n).len() ==> 0 <= #[trigger] patch_positions(
                patched,
                n,
            )[k] < n && patched[patch_positions(patched, n)[k]],
        forall|j: int, k: int|
            0 <= j < k < patch_positions(patched, n).len() ==> #[trigger] patch_positions(
                patched,
                n,
            )[j] < #[trigger] patch_positions(patched, n)[k],
        forall|row: int|
            0 <= row < n && #[trigger] patched[row] ==> patch_positions(patched, n).contains(row),
    decreases n,
{
    if n > 0 {
        lemma_positions(patched, n - 1);
        let before = patch_positions(patched, n - 1);
        let all = patch_positions(patched, n);
        assert forall|row: int| 0 <= row < n && #[trigger] patched[row] implies all.contains(
            row,
        ) by {
            if row < n - 1 {
                assert(before.contains(row));
                let k = choose|k: int| 0 <= k < before.len() && before[k] == row;
                assert(all[k] == row);
            } else {
                assert(all[all.len() - 1] == row);
            }
        }
    }
}

/// The value of the nearest row that is not patched, the earlier of two, or zero.
fn nearest_regular(values: &Vec<i128>, patched: &Vec<bool>, row: usize) -> (r: i128)
    requires
        values@.len() == patched@.len(),
        row < values@.len(),
    ensures
        r == nearest(ints(values@), patched@, row as int, 1),
{
    let ghost list = ints(values@);
    let mut distance: usize = 1;
    while distance < values.len()
        invariant
            values@.len() == patched@.len(),
            row < values@.len(),
            1 <= distance,
            list == ints(values@),
            nearest(list, patched@, row as int, 1) == nearest(
                list,
                patched@,
                row as int,
                distance as int,
            ),
        decreases values@.len() - distance,
    {
        if row >= distance && !patched[row - distance] {
            return values[row - distance];
        }
        if distance < values.len() - row && !patched[row + distance] {
            return values[row + distance];
        }
        distance = distance + 1;
    }
    0
}

fn patched_rows(patched: &Vec<bool>) -> (r: Vec<usize>)
    ensures
        r@.len() == all_positions(patched@).len(),
        forall|k: int| 0 <= k < r@.len() ==> #[trigger] r@[k] == all_positions(patched@)[k],
{
    let mut rows: Vec<usize> = Vec::new();
    let mut row: usize = 0;
    while row < patched.len()
        invariant
            row <= patched@.len(),
            rows@.len() == patch_positions(patched@, row as int).len(),
            forall|k: int|
                0 <= k < rows@.len() ==> #[trigger] rows@[k] == patch_positions(
                    patched@,
                    row as int,
                )[k],
        decreases patched@.len() - row,
    {
        if patched[row] {
            rows.push(row);
        }
        row = row + 1;
    }
    rows
}

fn without_exceptions(values: &Vec<i128>, patched: &Vec<bool>) -> (r: Vec<i128>)
    requires
        values@.len() == patched@.len(),
    ensures
        ints(r@) == regular_values(ints(values@), patched@),
        r@.len() == values@.len(),
{
    let ghost list = ints(values@);
    let mut regular: Vec<i128> = Vec::new();
    let mut row: usize = 0;
    while row < values.len()
        invariant
            values@.len() == patched@.len(),
            row <= values@.len(),
            list == ints(values@),
            regular@.len() == row,
            forall|k: int|
                0 <= k < row ==> #[trigger] regular@[k] == regular_values(list, patched@)[k],
        decreases values@.len() - row,
    {
        if patched[row] {
            regular.push(nearest_regular(values, patched, row));
        } else {
            regular.push(values[row]);
        }
        row = row + 1;
    }
    assert(ints(regular@) =~= regular_values(list, patched@));
    regular
}

fn index_positions(rows: &Vec<usize>, interval: usize, len: usize, Ghost(patched): Ghost<Seq<bool>>) -> (r:
    Vec<u32>)
    requires
        interval > 0,
        len == patched.len(),
        rows@.len() == all_positions(patched).len(),
        forall|k: int| 0 <= k < rows@.len() ==> #[trigger] rows@[k] == all_positions(patched)[k],
    ensures
        r@ == position_index(patched, interval as int),
{
    let ghost list = all_positions(patched);
    let ghost step = interval as int;
    let mut index: Vec<u32> = Vec::new();
    let mut exception: usize = 0;
    proof {
        assert(ceil_div(0, step) == 0) by {
            vstd::arithmetic::div_mod::lemma_basic_div(interval - 1, step);
        }
    }
    while exception < rows.len()
        invariant
            interval > 0,
            step == interval,
            exception <= rows@.len(),
            list == all_positions(patched),
            rows@.len() == list.len(),
            forall|k: int| 0 <= k < rows@.len() ==> #[trigger] rows@[k] == list[k],
            index@.len() == 2 * ceil_div(exception as int, step),
            forall|i: int|
                0 <= i < index@.len() ==> #[trigger] index@[i] == if i % 2 == 0 {
                    list[i / 2 * step] as usize as u32
                } else {
                    (i / 2 * step) as usize as u32
                },
        decreases rows@.len() - exception,
    {
        proof {
            lemma_group_step(exception as int, step);
        }
        if exception % interval == 0 {
            index.push(#[verifier::truncate] (rows[exception] as u32));
            index.push(#[verifier::truncate] (exception as u32));
        }
        exception = exception + 1;
    }
    index.push(#[verifier::truncate] (len as u32));
    index.push(#[verifier::truncate] (exception as u32));
    proof {
        let groups = ceil_div(list.len() as int, step);
        let wanted = position_index(patched, step);
        assert(index@.len() == wanted.len());
        assert forall|i: int| 0 <= i < wanted.len() implies index@[i] == wanted[i] by {
            if i < 2 * groups {
                assert(i / 2 < groups);
            } else {
                assert(i / 2 == groups);
            }
        }
        assert(index@ =~= wanted);
    }
    index
}

fn encode_exceptions(
    interval: usize,
    values: &Vec<i128>,
    patched: &Vec<bool>,
    builder: &mut PageBuilder,
) -> (r: Result<(FieldId, FieldId, FieldId, Vec<i128>, usize), Error>)
    requires
        plan_wf(old(builder)@),
        values@.len() == patched@.len(),
    ensures
        forall|nodes: Seq<DecoderNode>|
            match #[trigger] patch_fields(
                ints(values@),
                patched@,
                interval,
                building(*old(builder), nodes),
            ) {
                Ok((build, positions, index, exceptions)) => r matches Ok(found) && found.0
                    == positions && found.1 == index && found.2 == exceptions && final(builder)@
                    == build.plan && build.nodes == nodes && plan_wf(final(builder)@) && ints(
                    found.3@,
                ) == regular_values(ints(values@), patched@) && found.3@.len() == values@.len()
                    && found.4 == all_positions(patched@).len(),
                Err(e) => r matches Err(found) && found == e,
            },
{
    let ghost list = ints(values@);
    if interval == 0 {
        return Err(Error::PatchInterval);
    }
    let rows = patched_rows(patched);
    let ghost places = all_positions(patched@);
    proof {
        lemma_positions(patched@, patched@.len() as int);
    }
    let mut positions: Vec<u32> = Vec::new();
    let mut exceptions: Vec<i64> = Vec::new();
    let mut k: usize = 0;
    while k < rows.len()
        invariant
            values@.len() == patched@.len(),
            list == ints(values@),
            places == all_positions(patched@),
            rows@.len() == places.len(),
            interval > 0,
            forall|k: int| 0 <= k < rows@.len() ==> #[trigger] rows@[k] == places[k],
            forall|k: int| 0 <= k < places.len() ==> 0 <= #[trigger] places[k] < patched@.len(),
            k <= rows@.len(),
            positions@.len() == k,
            exceptions@.len() == k,
            forall|j: int|
                0 <= j < k ==> #[trigger] positions@[j] == position_values(patched@)[j],
            forall|j: int|
                0 <= j < k ==> #[trigger] exceptions@[j] == exception_values(list, patched@)[j],
            forall|j: int| 0 <= j < k ==> fits_i64(list[#[trigger] places[j]]),
        decreases rows@.len() - k,
    {
        let row: usize = rows[k];
        assert(places[k as int] == row);
        let value: i128 = values[row];
        if value < i64::MIN as i128 || value > i64::MAX as i128 {
            assert(!fits_i64(list[places[k as int]]));
            return Err(Error::PatchExceptionTooLarge);
        }
        positions.push(#[verifier::truncate] (row as u32));
        exceptions.push(value as i64);
        k = k + 1;
    }
    assert(positions@ =~= position_values(patched@));
    assert(exceptions@ =~= exception_values(list, patched@));
    let pairs = index_positions(&rows, interval, values.len(), Ghost(patched@));
    let regular = without_exceptions(values, patched);
    let position_bytes = u32_list(&positions);
    let position_field = match builder.add_field("patch.positions", position_bytes, 4, 128) {
        Ok(field) => field,
        Err(e) => {
            return Err(e);
        },
    };
    let index_bytes = u32_list(&pairs);
    let index_field = match builder.add_field("patch.index", index_bytes, 8, 64) {
        Ok(field) => field,
        Err(e) => {
            return Err(e);
        },
    };
    let exception_bytes = i64_list(&exceptions);
    let exception_field = match builder.add_field("patch.exceptions", exception_bytes, 8, 64) {
        Ok(field) => field,
        Err(e) => {
            return Err(e);
        },
    };
    let block: usize = match interval.checked_mul(4) {
        Some(block) => block,
        None => {
            return Err(Error::IndexBlockOverflow);
        },
    };
    builder.add_dependency(
        DependencyRule::IndexedStream {
            data: position_field,
            index: index_field,
            data_block_bytes: block,
            index_entry_bytes: 8,
        },
    );
    Ok((position_field, index_field, exception_field, regular, rows.len()))
}

// ----- nulls -----

/// The numbers as integers.
pub open spec fn optional_ints(values: Seq<Option<i128>>) -> Seq<Option<int>> {
    Seq::new(
        values.len(),
        |i: int|
            match values[i] {
                Some(value) => Some(value as int),
                None => None,
            },
    )
}

/// Byte `i` of the validity bits.
fn validity_byte(values: &Vec<Option<i128>>, i: usize) -> (r: u8)
    requires
        8 * i < values@.len(),
    ensures
        r == validity_bytes(optional_ints(values@))[i as int],
{
    let ghost list = optional_ints(values@);
    let ghost bits = |k: int| 8 * i + k < list.len() && list[8 * i + k] is Some;
    let rows: usize = values.len();
    let first: usize = 8 * i;
    let mut byte: u8 = 0;
    let mut k: usize = 8;
    while k > 0
        invariant
            k <= 8,
            rows == values@.len(),
            first == 8 * i,
            first < rows,
            list == optional_ints(values@),
            bits == (|k: int| 8 * i + k < list.len() && list[8 * i + k] is Some),
            byte == high_bits(bits, k as int),
        decreases k,
    {
        k = k - 1;
        let set = k < rows - first && values[first + k].is_some();
        assert(set == bits(k as int));
        proof {
            lemma_high_bits(bits, k as int);
        }
        byte = 2 * byte + if set {
            1u8
        } else {
            0u8
        };
    }
    proof {
        lemma_high_bits(bits, 0);
        lemma_ceil(rows as int, 8);
    }
    byte
}

pub proof fn lemma_compact_len(values: Seq<Option<int>>, patched: Seq<bool>, n: int)
    requires
        0 <= n,
    ensures
        compact(values, n).len() <= n,
        compact_marks(values, patched, n).len() == compact(values, n).len(),
    decreases n,
{
    if n > 0 {
        lemma_compact_len(values, patched, n - 1);
    }
}

proof fn lemma_compact_grows(values: Seq<Option<int>>, m: int, n: int)
    requires
        0 <= m <= n,
    ensures
        compact(values, m).len() <= compact(values, n).len(),
    decreases n,
{
    if m < n {
        lemma_compact_grows(values, m, n - 1);
    }
}

fn compacted(values: &Vec<Option<i128>>, patched: &Vec<bool>) -> (r: (Vec<i128>, Vec<bool>))
    requires
        values@.len() == patched@.len(),
    ensures
        ints(r.0@) == compact(optional_ints(values@), values@.len() as int),
        r.1@ == compact_marks(optional_ints(values@), patched@, values@.len() as int),
        r.0@.len() == r.1@.len(),
{
    let ghost list = optional_ints(values@);
    let mut dense: Vec<i128> = Vec::new();
    let mut marks: Vec<bool> = Vec::new();
    let mut row: usize = 0;
    assert(ints(dense@) =~= compact(list, 0));
    while row < values.len()
        invariant
            values@.len() == patched@.len(),
            row <= values@.len(),
            list == optional_ints(values@),
            ints(dense@) == compact(list, row as int),
            marks@ == compact_marks(list, patched@, row as int),
            dense@.len() == marks@.len(),
        decreases values@.len() - row,
    {
        let ghost before = dense@;
        if let Some(value) = values[row] {
            dense.push(value);
            marks.push(patched[row]);
            assert(ints(dense@) =~= ints(before).push(value as int));
        }
        row = row + 1;
    }
    (dense, marks)
}

fn block_ranks(values: &Vec<Option<i128>>, interval: usize) -> (r: Vec<u32>)
    requires
        interval > 0,
        compact(optional_ints(values@), values@.len() as int).len() <= u32::MAX,
    ensures
        r@ == rank_values(optional_ints(values@), interval as int),
{
    let ghost list = optional_ints(values@);
    let ghost step = interval as int;
    let mut ranks: Vec<u32> = Vec::new();
    let mut rank: u32 = 0;
    let mut row: usize = 0;
    proof {
        assert(ceil_div(0, step) == 0) by {
            vstd::arithmetic::div_mod::lemma_basic_div(interval - 1, step);
        }
    }
    while row < values.len()
        invariant
            interval > 0,
            step == interval,
            row <= values@.len(),
            list == optional_ints(values@),
            compact(list, list.len() as int).len() <= u32::MAX,
            rank == compact(list, row as int).len(),
            ranks@.len() == ceil_div(row as int, step),
            forall|b: int|
                0 <= b < ranks@.len() ==> #[trigger] ranks@[b] == compact(list, b * step).len() as u32,
        decreases values@.len() - row,
    {
        proof {
            lemma_group_step(row as int, step);
            lemma_compact_grows(list, row + 1, list.len() as int);
        }
        if row % interval == 0 {
            ranks.push(rank);
        }
        if values[row].is_some() {
            rank = rank + 1;
        }
        row = row + 1;
    }
    ranks.push(rank);
    proof {
        let wanted = rank_values(list, step);
        let groups = ceil_div(list.len() as int, step);
        lemma_ceil(list.len() as int, step);
        assert forall|b: int| 0 <= b < wanted.len() implies ranks@[b] == wanted[b] by {
            if b < groups {
                lemma_scale(b, groups - 1, step);
                lemma_scale_next(groups - 1, step);
            }
        }
        assert(ranks@ =~= wanted);
    }
    ranks
}

fn encode_validity(interval: usize, values: &Vec<Option<i128>>, present: usize, builder: &mut PageBuilder) -> (r:
    Result<(FieldId, FieldId), Error>)
    requires
        plan_wf(old(builder)@),
        present == compact(optional_ints(values@), values@.len() as int).len(),
    ensures
        forall|nodes: Seq<DecoderNode>|
            match #[trigger] nullable_fields(
                optional_ints(values@),
                interval,
                building(*old(builder), nodes),
            ) {
                Ok((build, validity, ranks)) => r matches Ok(found) && found.0 == validity
                    && found.1 == ranks && final(builder)@ == build.plan && build.nodes == nodes
                    && plan_wf(final(builder)@),
                Err(e) => r matches Err(found) && found == e,
            },
{
    let ghost list = optional_ints(values@);
    if interval == 0 || interval % 8 != 0 {
        return Err(Error::NullableInterval);
    }
    if present == 0 {
        return Err(Error::AllNull);
    }
    if present > u32::MAX as usize {
        return Err(Error::RankOverflow);
    }
    let rows: usize = values.len();
    let mut validity: Vec<u8> = Vec::new();
    let mut i: usize = 0;
    proof {
        lemma_compact_len(list, Seq::new(list.len(), |i: int| false), list.len() as int);
        lemma_ceil_floor(rows as int, 8);
    }
    let count: usize = (rows - 1) / 8 + 1;
    while i < count
        invariant
            rows == values@.len(),
            rows > 0,
            count == (rows - 1) as int / 8 + 1,
            i <= count,
            list == optional_ints(values@),
            validity@.len() == i,
            forall|k: int| 0 <= k < i ==> #[trigger] validity@[k] == validity_bytes(list)[k],
        decreases count - i,
    {
        validity.push(validity_byte(values, i));
        i = i + 1;
    }
    assert(validity@ =~= validity_bytes(list));
    let ranks = block_ranks(values, interval);
    let validity_field = match builder.add_field("nullable.validity", validity, 8, interval / 8) {
        Ok(field) => field,
        Err(e) => {
            return Err(e);
        },
    };
    let rank_bytes = u32_list(&ranks);
    let rank_field = match builder.add_field("nullable.rank", rank_bytes, 4, 64) {
        Ok(field) => field,
        Err(e) => {
            return Err(e);
        },
    };
    builder.add_dependency(
        DependencyRule::IndexedStream {
            data: validity_field,
            index: rank_field,
            data_block_bytes: interval / 8,
            index_entry_bytes: 4,
        },
    );
    Ok((validity_field, rank_field))
}

// ----- recipes -----

/// Encodes values none of which is null.
fn encode_dense_node(
    recipe: &Recipe,
    values: &Vec<i128>,
    patched: &Vec<bool>,
    builder: &mut PageBuilder,
    nodes: &mut Vec<DecoderNode>,
) -> (r: Result<NodeId, Error>)
    requires
        plan_wf(old(builder)@),
        values@.len() == patched@.len(),
    ensures
        step_done(
            coded_dense(
                *recipe,
                ints(values@),
                patched@,
                building(*old(builder), old(nodes)@),
            ),
            r,
            *final(builder),
            final(nodes)@,
        ),
    decreases recipe, 1int,
{
    match recipe {
        Recipe::BitPack => encode_bitpack(values, builder, nodes),
        Recipe::Rle { index_interval, values: child } => encode_rle(
            *index_interval,
            &**child,
            values,
            patched,
            builder,
            nodes,
        ),
        Recipe::Dictionary(child) => encode_dictionary(&**child, values, patched, builder, nodes),
        Recipe::Delta { restart_interval, deltas } => encode_delta(
            *restart_interval,
            &**deltas,
            DeltaCoding::ZigZag,
            values,
            patched,
            builder,
            nodes,
        ),
        Recipe::UnsignedDelta { restart_interval, deltas } => encode_delta(
            *restart_interval,
            &**deltas,
            DeltaCoding::Unsigned,
            values,
            patched,
            builder,
            nodes,
        ),
        Recipe::For(child) => encode_for(&**child, values, patched, builder, nodes),
        Recipe::Patch { index_interval, values: child } => encode_patch(
            *index_interval,
            &**child,
            values,
            patched,
            builder,
            nodes,
        ),
        Recipe::Nullable { .. } => Err(Error::NestedNullable),
        Recipe::Frame(child) => {
            let start: usize = builder.field_count();
            let id = match encode_dense_node(&**child, values, patched, builder, nodes) {
                Ok(id) => id,
                Err(e) => {
                    return Err(e);
                },
            };
            let end: usize = builder.field_count();
            match builder.frame_fields(start, end) {
                Ok(()) => Ok(id),
                Err(e) => Err(e),
            }
        },
    }
}

fn encode_rle(
    interval: usize,
    child: &Recipe,
    values: &Vec<i128>,
    patched: &Vec<bool>,
    builder: &mut PageBuilder,
    nodes: &mut Vec<DecoderNode>,
) -> (r: Result<NodeId, Error>)
    requires
        plan_wf(old(builder)@),
        values@.len() == patched@.len(),
    ensures
        step_done(
            coded_dense(
                Recipe::Rle { index_interval: interval, values: Box::new(*child) },
                ints(values@),
                patched@,
                building(*old(builder), old(nodes)@),
            ),
            r,
            *final(builder),
            final(nodes)@,
        ),
    decreases child, 2int,
{
    let (lengths, index, found) = match encode_runs(interval, values, builder) {
        Ok(found) => found,
        Err(e) => {
            return Err(e);
        },
    };
    let count: usize = found.len();
    let marks: Vec<bool> = vec![false;count];
    assert(marks@ =~= unpatched(count as nat));
    let id = match encode_dense_node(child, &found, &marks, builder, nodes) {
        Ok(id) => id,
        Err(e) => {
            return Err(e);
        },
    };
    Ok(
        push_node(
            nodes,
            DecoderNode::Rle {
                values: id,
                run_lengths: lengths,
                run_index: index,
                len: values.len(),
                runs: count,
                index_interval: interval,
            },
        ),
    )
}

fn encode_dictionary(
    child: &Recipe,
    values: &Vec<i128>,
    patched: &Vec<bool>,
    builder: &mut PageBuilder,
    nodes: &mut Vec<DecoderNode>,
) -> (r: Result<NodeId, Error>)
    requires
        plan_wf(old(builder)@),
        values@.len() == patched@.len(),
    ensures
        step_done(
            coded_dense(
                Recipe::Dictionary(Box::new(*child)),
                ints(values@),
                patched@,
                building(*old(builder), old(nodes)@),
            ),
            r,
            *final(builder),
            final(nodes)@,
        ),
    decreases child, 2int,
{
    let (dictionary, ids, entries) = match encode_dictionary_values(values, builder) {
        Ok(found) => found,
        Err(e) => {
            return Err(e);
        },
    };
    assert(ids@.len() == ints(ids@).len());
    let id = match encode_dense_node(child, &ids, patched, builder, nodes) {
        Ok(id) => id,
        Err(e) => {
            return Err(e);
        },
    };
    Ok(
        push_node(
            nodes,
            DecoderNode::Dictionary { ids: id, dictionary, entries, sorted_unique: true },
        ),
    )
}

spec fn delta_recipe(interval: usize, child: Recipe, coding: DeltaCoding) -> Recipe {
    match coding {
        DeltaCoding::ZigZag => Recipe::Delta {
            restart_interval: interval,
            deltas: Box::new(child),
        },
        DeltaCoding::Unsigned => Recipe::UnsignedDelta {
            restart_interval: interval,
            deltas: Box::new(child),
        },
    }
}

fn encode_delta(
    interval: usize,
    child: &Recipe,
    coding: DeltaCoding,
    values: &Vec<i128>,
    patched: &Vec<bool>,
    builder: &mut PageBuilder,
    nodes: &mut Vec<DecoderNode>,
) -> (r: Result<NodeId, Error>)
    requires
        plan_wf(old(builder)@),
        values@.len() == patched@.len(),
    ensures
        step_done(
            coded_dense(
                delta_recipe(interval, *child, coding),
                ints(values@),
                patched@,
                building(*old(builder), old(nodes)@),
            ),
            r,
            *final(builder),
            final(nodes)@,
        ),
    decreases child, 2int,
{
    let (restarts, codes) = match encode_delta_restarts(interval, values, builder, coding) {
        Ok(found) => found,
        Err(e) => {
            return Err(e);
        },
    };
    assert(codes@.len() == ints(codes@).len());
    let id = match encode_dense_node(child, &codes, patched, builder, nodes) {
        Ok(id) => id,
        Err(e) => {
            return Err(e);
        },
    };
    finish_delta(values.len(), interval, coding, restarts, id, builder, nodes)
}

fn encode_for(
    child: &Recipe,
    values: &Vec<i128>,
    patched: &Vec<bool>,
    builder: &mut PageBuilder,
    nodes: &mut Vec<DecoderNode>,
) -> (r: Result<NodeId, Error>)
    requires
        plan_wf(old(builder)@),
        values@.len() == patched@.len(),
    ensures
        step_done(
            coded_dense(
                Recipe::For(Box::new(*child)),
                ints(values@),
                patched@,
                building(*old(builder), old(nodes)@),
            ),
            r,
            *final(builder),
            final(nodes)@,
        ),
    decreases child, 2int,
{
    let (base, shifted) = match encode_for_base(values, builder) {
        Ok(found) => found,
        Err(e) => {
            return Err(e);
        },
    };
    assert(shifted@.len() == ints(shifted@).len());
    let id = match encode_dense_node(child, &shifted, patched, builder, nodes) {
        Ok(id) => id,
        Err(e) => {
            return Err(e);
        },
    };
    Ok(push_node(nodes, DecoderNode::For { base, values: id }))
}

fn encode_patch(
    interval: usize,
    child: &Recipe,
    values: &Vec<i128>,
    patched: &Vec<bool>,
    builder: &mut PageBuilder,
    nodes: &mut Vec<DecoderNode>,
) -> (r: Result<NodeId, Error>)
    requires
        plan_wf(old(builder)@),
        values@.len() == patched@.len(),
    ensures
        step_done(
            coded_dense(
                Recipe::Patch { index_interval: interval, values: Box::new(*child) },
                ints(values@),
                patched@,
                building(*old(builder), old(nodes)@),
            ),
            r,
            *final(builder),
            final(nodes)@,
        ),
    decreases child, 2int,
{
    let (positions, index, exceptions, regular, count) = match encode_exceptions(
        interval,
        values,
        patched,
        builder,
    ) {
        Ok(found) => found,
        Err(e) => {
            return Err(e);
        },
    };
    let rows: usize = values.len();
    let marks: Vec<bool> = vec![false;rows];
    assert(marks@ =~= unpatched(rows as nat));
    let id = match encode_dense_node(child, &regular, &marks, builder, nodes) {
        Ok(id) => id,
        Err(e) => {
            return Err(e);
        },
    };
    Ok(
        push_node(
            nodes,
            DecoderNode::Patch {
                values: id,
                positions,
                position_index: index,
                exceptions,
                count,
                index_interval: interval,
            },
        ),
    )
}

/// Encodes values some of which may be null.
fn encode_node(
    recipe: &Recipe,
    values: &Vec<Option<i128>>,
    patched: &Vec<bool>,
    builder: &mut PageBuilder,
    nodes: &mut Vec<DecoderNode>,
) -> (r: Result<NodeId, Error>)
    requires
        plan_wf(old(builder)@),
        values@.len() == patched@.len(),
    ensures
        step_done(
            coded(
                *recipe,
                optional_ints(values@),
                patched@,
                building(*old(builder), old(nodes)@),
            ),
            r,
            *final(builder),
            final(nodes)@,
        ),
    decreases recipe,
{
    let ghost list = optional_ints(values@);
    match recipe {
        Recipe::Frame(child) => {
            let start: usize = builder.field_count();
            let id = match encode_node(&**child, values, patched, builder, nodes) {
                Ok(id) => id,
                Err(e) => {
                    return Err(e);
                },
            };
            let end: usize = builder.field_count();
            match builder.frame_fields(start, end) {
                Ok(()) => Ok(id),
                Err(e) => Err(e),
            }
        },
        Recipe::Nullable { rank_interval, values: child } => {
            let (dense, marks) = compacted(values, patched);
            assert(dense@.len() == ints(dense@).len());
            let (validity, ranks) = match encode_validity(
                *rank_interval,
                values,
                dense.len(),
                builder,
            ) {
                Ok(found) => found,
                Err(e) => {
                    return Err(e);
                },
            };
            let id = match encode_dense_node(&**child, &dense, &marks, builder, nodes) {
                Ok(id) => id,
                Err(e) => {
                    return Err(e);
                },
            };
            Ok(
                push_node(
                    nodes,
                    DecoderNode::Nullable {
                        validity,
                        rank_index: ranks,
                        values: id,
                        logical_len: values.len(),
                        nonnull_len: dense.len(),
                        rank_interval: *rank_interval,
                    },
                ),
            )
        },
        _ => {
            let dense = match all_of(values) {
                Ok(dense) => dense,
                Err(e) => {
                    return Err(e);
                },
            };
            assert(dense@.len() == ints(dense@).len());
            encode_dense_node(recipe, &dense, patched, builder, nodes)
        },
    }
}

/// The values, if none is null.
fn all_of(values: &Vec<Option<i128>>) -> (r: Result<Vec<i128>, Error>)
    ensures
        match dense_values(optional_ints(values@)) {
            Ok(dense) => r matches Ok(found) && ints(found@) == dense,
            Err(e) => r matches Err(found) && found == e,
        },
{
    let ghost list = optional_ints(values@);
    let mut dense: Vec<i128> = Vec::new();
    let mut row: usize = 0;
    while row < values.len()
        invariant
            row <= values@.len(),
            list == optional_ints(values@),
            dense@.len() == row,
            forall|k: int| 0 <= k < row ==> list[k] == Some(#[trigger] dense@[k] as int),
        decreases values@.len() - row,
    {
        match values[row] {
            Some(value) => {
                dense.push(value);
            },
            None => {
                assert(list[row as int] is None);
                return Err(Error::NullInDense);
            },
        }
        row = row + 1;
    }
    assert forall|k: int| 0 <= k < list.len() implies !((#[trigger] list[k]) is None) by {
        assert(list[k] == Some(dense@[k] as int));
    }
    assert(ints(dense@) =~= Seq::new(list.len(), |i: int| list[i]->0));
    Ok(dense)
}

// ----- columns -----

/// Values to be encoded, with the rows that are to be kept as exceptions.
#[derive(Clone, Debug)]
pub struct InputColumn {
    pub values: Vec<Option<i64>>,
    pub patch_rows: BTreeSet<usize>,
}

impl InputColumn {
    pub fn dense(values: Vec<i64>) -> (r: InputColumn)
        ensures
            r.values@ == Seq::new(values@.len(), |i: int| Some(values@[i])),
            r.patch_rows@ == Set::<usize>::empty(),
    {
        let mut present: Vec<Option<i64>> = Vec::new();
        let mut row: usize = 0;
        while row < values.len()
            invariant
                row <= values@.len(),
                present@.len() == row,
                forall|k: int| 0 <= k < row ==> #[trigger] present@[k] == Some(values@[k]),
            decreases values@.len() - row,
        {
            present.push(Some(values[row]));
            row = row + 1;
        }
        assert(present@ =~= Seq::new(values@.len(), |i: int| Some(values@[i])));
        InputColumn { values: present, patch_rows: BTreeSet::new() }
    }

    pub fn nullable(values: Vec<Option<i64>>) -> (r: InputColumn)
        ensures
            r.values@ == values@,
            r.patch_rows@ == Set::<usize>::empty(),
    {
        InputColumn { values, patch_rows: BTreeSet::new() }
    }

    /// The column with more rows to be kept as exceptions.
    pub fn with_patch_rows(self, rows: Vec<usize>) -> (r: InputColumn)
        ensures
            r.values@ == self.values@,
            r.patch_rows@ == self.patch_rows@.union(rows@.to_set()),
    {
        broadcast use vstd::std_specs::btree::group_btree_axioms;

        let mut patch_rows = self.patch_rows;
        let ghost before = patch_rows@;
        let mut i: usize = 0;
        assert(before.union(rows@.take(0).to_set()) =~= before);
        while i < rows.len()
            invariant
                i <= rows@.len(),
                patch_rows@ == before.union(rows@.take(i as int).to_set()),
            decreases rows@.len() - i,
        {
            broadcast use vstd::std_specs::btree::group_btree_axioms;

            patch_rows.insert(rows[i]);
            proof {
                let seen = rows@.take(i as int);
                let next = rows@.take(i + 1);
                assert(next =~= seen.push(rows@[i as int]));
                assert forall|row: usize| next.contains(row) == (seen.contains(row) || row
                    == rows@[i as int]) by {
                    vstd::seq_lib::lemma_seq_contains_after_push(seen, rows@[i as int], row);
                }
                assert(next.to_set() =~= seen.to_set().insert(rows@[i as int]));
                assert(patch_rows@ =~= before.union(next.to_set()));
            }
            i = i + 1;
        }
        assert(rows@.take(i as int) =~= rows@);
        InputColumn { values: self.values, patch_rows }
    }
}

/// The rows as integers.
pub open spec fn widened(values: Seq<Option<i64>>) -> Seq<Option<int>> {
    Seq::new(
        values.len(),
        |i: int|
            match values[i] {
                Some(value) => Some(value as int),
                None => None,
            },
    )
}

/// Which rows are to be kept as exceptions.
pub open spec fn marked(rows: nat, patch_rows: Set<usize>) -> Seq<bool> {
    Seq::new(rows, |i: int| patch_rows.contains(i as usize))
}

/// Rows `from..to` all have a value.
pub open spec fn present_in(values: Seq<Option<i64>>, from: int, to: int) -> bool {
    forall|i: int| from <= i < to ==> (#[trigger] values[i]) is Some
}

/// Rows `from..to` are all null.
pub open spec fn null_in(values: Seq<Option<i64>>, from: int, to: int) -> bool {
    forall|i: int| from <= i < to ==> (#[trigger] values[i]) is None
}

/// The values from row `k` on follow nulls.
pub open spec fn nulls_first(values: Seq<Option<i64>>, k: int) -> bool {
    0 < k < values.len() && null_in(values, 0, k) && present_in(values, k, values.len() as int)
}

/// The nulls from row `k` on follow values.
pub open spec fn nulls_last(values: Seq<Option<i64>>, k: int) -> bool {
    0 < k < values.len() && present_in(values, 0, k) && null_in(values, k, values.len() as int)
}

/// Where the nulls of a column stand.
pub open spec fn placement_of(values: Seq<Option<i64>>) -> NullPlacement {
    if values.len() > 0 && present_in(values, 0, values.len() as int) {
        NullPlacement::NoNulls
    } else if exists|k: int| nulls_first(values, k) {
        NullPlacement::First
    } else if exists|k: int| nulls_last(values, k) {
        NullPlacement::Last
    } else {
        NullPlacement::Arbitrary
    }
}

/// No value is less than one before it; nulls are passed over.
pub open spec fn values_rise(values: Seq<Option<i64>>) -> bool {
    forall|i: int, j: int|
        0 <= i <= j < values.len() && (#[trigger] values[i]) is Some && (#[trigger] values[j]) is Some
            ==> values[i]->0 <= values[j]->0
}

/// What is stated about a column.
pub open spec fn statements_of(values: Seq<Option<i64>>) -> CheckedInvariants {
    CheckedInvariants {
        non_decreasing: values_rise(values) && placement_of(values) == NullPlacement::NoNulls,
        non_decreasing_non_null: values_rise(values),
        null_placement: placement_of(values),
    }
}

/// The page and the decoder that a recipe makes of a column.
pub open spec fn encoding(recipe: Recipe, values: Seq<Option<i64>>, patch_rows: Set<usize>) -> Result<
    (Build, NodeId),
    Error,
> {
    if values.len() == 0 {
        Err(Error::EmptyColumn)
    } else if exists|row: usize| patch_rows.contains(row) && row >= values.len() {
        Err(Error::PatchRowOutside)
    } else {
        coded(
            recipe,
            widened(values),
            marked(values.len(), patch_rows),
            Build { plan: empty_plan(statements_of(values)), nodes: Seq::empty() },
        )
    }
}

/// A column as it is stored, with its decoder and its values.
#[derive(Clone, Debug)]
pub struct EncodedColumn {
    pub recipe: Recipe,
    pub decoder: DecoderIr,
    pub page: SerializedPage,
    pub truth: Vec<Option<i64>>,
}

impl EncodedColumn {
    /// The decoder and the page are valid.
    pub open spec fn wf(self) -> bool {
        self.decoder.wf() && self.page.wf()
    }

    /// The column is what the recipe makes of the values.
    pub open spec fn encodes(
        self,
        recipe: Recipe,
        values: Seq<Option<i64>>,
        patch_rows: Set<usize>,
    ) -> bool {
        &&& self.wf()
        &&& self.recipe == recipe
        &&& self.truth@ == values
        &&& encoding(recipe, values, patch_rows) matches Ok((build, root)) && {
            let header = planned_header(build.plan)->Ok_0;
            &&& decoder_error(build.nodes, root) is None
            &&& finish_error(build.plan) is None
            &&& plan_wf(build.plan)
            &&& self.decoder.arena() == build.nodes
            &&& self.decoder.top() == root
            &&& self.page.image() == planned_bytes(build.plan, header)
            &&& self.page.plan() == planned_layout(build.plan, header)
            &&& parsed_page(self.page.image()) matches Ok(parsed) && self.page.stated() == parsed.1
            &&& frames_restore(build.plan)
        }
    }
}

/// Encodes a column.
pub fn encode(recipe: &Recipe, input: InputColumn) -> (r: Result<EncodedColumn, Error>)
    ensures
        match r {
            Ok(column) => column.encodes(*recipe, input.values@, input.patch_rows@),
            Err(e) => match encoding(*recipe, input.values@, input.patch_rows@) {
                Err(found) => e == found,
                Ok((build, root)) => match decoder_error(build.nodes, root) {
                    Some(found) => e == found,
                    None => finish_error(build.plan) == Some(e),
                },
            },
        },
{
    broadcast use vstd::std_specs::btree::group_btree_axioms;

    let values = input.values;
    let rows: usize = values.len();
    if rows == 0 {
        return Err(Error::EmptyColumn);
    }
    if !rows_inside(&input.patch_rows, rows) {
        return Err(Error::PatchRowOutside);
    }
    let rising = rises(&values);
    let placement = null_placement(&values);
    let invariants = CheckedInvariants {
        non_decreasing: rising && placement == NullPlacement::NoNulls,
        non_decreasing_non_null: rising,
        null_placement: placement,
    };
    let mut wide: Vec<Option<i128>> = Vec::new();
    let mut patched: Vec<bool> = Vec::new();
    let ghost patch_rows = input.patch_rows@;
    let mut row: usize = 0;
    while row < rows
        invariant
            rows == values@.len(),
            row <= rows,
            wide@.len() == row,
            patched@.len() == row,
            patch_rows == input.patch_rows@,
            forall|k: int| 0 <= k < row ==> optional_ints(wide@)[k] == #[trigger] widened(values@)[k],
            forall|k: int| 0 <= k < row ==> #[trigger] patched@[k] == patch_rows.contains(k as usize),
        decreases rows - row,
    {
        broadcast use vstd::std_specs::btree::group_btree_axioms;

        let ghost before = wide@;
        match values[row] {
            Some(value) => {
                wide.push(Some(value as i128));
            },
            None => {
                wide.push(None);
            },
        }
        patched.push(input.patch_rows.contains(&row));
        assert forall|k: int| 0 <= k < row + 1 implies optional_ints(wide@)[k] == #[trigger] widened(
            values@,
        )[k] by {
            if k < row {
                assert(optional_ints(wide@)[k] == optional_ints(before)[k]);
            }
        }
        row = row + 1;
    }
    assert(optional_ints(wide@) =~= widened(values@));
    assert(patched@ =~= marked(values@.len(), patch_rows));
    let mut builder = PageBuilder::new(invariants);
    let mut nodes: Vec<DecoderNode> = Vec::new();
    let root = match encode_node(recipe, &wide, &patched, &mut builder, &mut nodes) {
        Ok(root) => root,
        Err(e) => {
            return Err(e);
        },
    };
    let decoder = match DecoderIr::new(nodes, root) {
        Ok(decoder) => decoder,
        Err(e) => {
            return Err(e);
        },
    };
    match builder.finish() {
        Ok(page) => Ok(EncodedColumn { recipe: recipe.clone(), decoder, page, truth: values }),
        Err(e) => Err(e),
    }
}

/// Whether every row of a set is below a bound.
fn rows_inside(set: &BTreeSet<usize>, rows: usize) -> (r: bool)
    ensures
        r == !(exists|row: usize| set@.contains(row) && row >= rows),
{
    broadcast use vstd::std_specs::btree::group_btree_axioms;

    let mut inside = true;
    let ghost keys = vstd::std_specs::btree::spec_btree_keys_iter(set).remaining();
    for row in it: set.iter()
        invariant
            it.seq() == keys,
            inside == forall|i: int| 0 <= i < it.index() ==> *(#[trigger] it.seq()[i]) < rows,
    {
        if *row >= rows {
            inside = false;
        }
    }
    proof {
        let list = keys.unref();
        assert(list.to_set() == set@);
        assert forall|row: usize| set@.contains(row) && row >= rows implies !inside by {
            assert(list.to_set().contains(row));
            assert(list.contains(row));
            let i = choose|i: int| 0 <= i < list.len() && list[i] == row;
            assert(*keys[i] == row);
        }
        if !inside {
            let i = choose|i: int| 0 <= i < keys.len() && !(*(#[trigger] keys[i]) < rows);
            assert(list[i] == *keys[i]);
            assert(list.to_set().contains(list[i]));
            assert(set@.contains(*keys[i]));
        }
    }
    inside
}

/// Whether no value is less than one before it; nulls are passed over.
fn rises(values: &Vec<Option<i64>>) -> (r: bool)
    ensures
        r == values_rise(values@),
{
    let mut previous: Option<i64> = None;
    let mut row: usize = 0;
    while row < values.len()
        invariant
            row <= values@.len(),
            forall|i: int, j: int|
                0 <= i <= j < row && (#[trigger] values@[i]) is Some && (#[trigger] values@[j]) is Some
                    ==> values@[i]->0 <= values@[j]->0,
            match previous {
                None => forall|i: int| 0 <= i < row ==> (#[trigger] values@[i]) is None,
                Some(last) => (exists|i: int| 0 <= i < row && #[trigger] values@[i] == Some(last))
                    && forall|i: int|
                    0 <= i < row && (#[trigger] values@[i]) is Some ==> values@[i]->0 <= last,
            },
        decreases values@.len() - row,
    {
        if let Some(value) = values[row] {
            if let Some(last) = previous {
                if last > value {
                    proof {
                        let i = choose|i: int| 0 <= i < row && #[trigger] values@[i] == Some(last);
                        assert(values@[i] is Some && values@[row as int] is Some);
                    }
                    return false;
                }
            }
            previous = Some(value);
            assert(values@[row as int] == Some(value));
        }
        row = row + 1;
    }
    true
}

/// The first row from `start` on that is null, or that is not.
fn run_end(values: &Vec<Option<i64>>, start: usize, null: bool) -> (r: usize)
    requires
        start <= values@.len(),
    ensures
        start <= r <= values@.len(),
        null ==> null_in(values@, start as int, r as int),
        !null ==> present_in(values@, start as int, r as int),
        r < values@.len() ==> (values@[r as int] is None) != null,
{
    let mut row: usize = start;
    while row < values.len() && values[row].is_none() == null
        invariant
            start <= row <= values@.len(),
            null ==> null_in(values@, start as int, row as int),
            !null ==> present_in(values@, start as int, row as int),
        decreases values@.len() - row,
    {
        row = row + 1;
    }
    row
}

fn null_placement(values: &Vec<Option<i64>>) -> (r: NullPlacement)
    ensures
        r == placement_of(values@),
{
    let rows: usize = values.len();
    if rows == 0 {
        return NullPlacement::Arbitrary;
    }
    let starts_null = values[0].is_none();
    let first: usize = run_end(values, 0, starts_null);
    let second: usize = run_end(values, first, !starts_null);
    proof {
        let all = values@;
        assert forall|k: int| nulls_first(all, k) implies k == first && starts_null by {
            assert(all[0] is None);
            if k < first {
                assert(all[k] is Some);
                assert(all[k] is None);
            }
            if first < k {
                assert(all[first as int] is None);
            }
        }
        assert forall|k: int| nulls_last(all, k) implies k == first && !starts_null by {
            assert(all[0] is Some);
            if k < first {
                assert(all[k] is None);
                assert(all[k] is Some);
            }
            if first < k {
                assert(all[first as int] is Some);
            }
        }
        if first < rows && second < rows {
            assert(!nulls_first(all, first as int)) by {
                if starts_null {
                    assert(all[second as int] is None);
                }
            }
            assert(!nulls_last(all, first as int)) by {
                if !starts_null {
                    assert(all[second as int] is Some);
                }
            }
        }
        if first < rows {
            assert(!present_in(all, 0, rows as int)) by {
                assert(all[0] is None || all[first as int] is None);
            }
            if second == rows {
                if starts_null {
                    assert(nulls_first(all, first as int));
                } else {
                    assert(nulls_last(all, first as int));
                }
            }
        } else {
            assert(!nulls_first(all, first as int));
            assert(!nulls_last(all, first as int));
            if starts_null {
                assert(all[0] is None);
            }
        }
    }
    if first == rows {
        if starts_null {
            NullPlacement::Arbitrary
        } else {
            NullPlacement::NoNulls
        }
    } else if second == rows {
        if starts_null {
            NullPlacement::First
        } else {
            NullPlacement::Last
        }
    } else {
        NullPlacement::Arbitrary
    }
}

} // verus!
