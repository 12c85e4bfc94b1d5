//! What each encoding primitive stores.
use super::builder::{with_field, with_frame, PagePlan};
use super::bytes::{byte_of, i64s_bytes, number_bit, u32s_bytes};
use super::decoder::{DecoderNode, DeltaCoding};
use super::error::Error;
use super::ids::{FieldId, NodeId};
use super::layout::DependencyRule;
use super::runtime::ceil_div;
use super::support::zigzagged;
use vstd::prelude::*;
use vstd::string::StringExecFns;

verus! {

/// Rows in one bit-packed miniblock.
pub const MINIBLOCK_ROWS: usize = 128;

#[derive(Debug, PartialEq, Eq)]
pub enum Recipe {
    BitPack,
    Rle { index_interval: usize, values: Box<Recipe> },
    Dictionary(Box<Recipe>),
    Delta { restart_interval: usize, deltas: Box<Recipe> },
    UnsignedDelta { restart_interval: usize, deltas: Box<Recipe> },
    For(Box<Recipe>),
    Patch { index_interval: usize, values: Box<Recipe> },
    Nullable { rank_interval: usize, values: Box<Recipe> },
    Frame(Box<Recipe>),
}

impl Clone for Recipe {
    fn clone(&self) -> (r: Recipe)
        ensures
            r == *self,
        decreases self,
    {
        match self {
            Recipe::BitPack => Recipe::BitPack,
            Recipe::Rle { index_interval, values } => Recipe::Rle {
                index_interval: *index_interval,
                values: Box::new((&**values).clone()),
            },
            Recipe::Dictionary(ids) => Recipe::Dictionary(Box::new((&**ids).clone())),
            Recipe::Delta { restart_interval, deltas } => Recipe::Delta {
                restart_interval: *restart_interval,
                deltas: Box::new((&**deltas).clone()),
            },
            Recipe::UnsignedDelta { restart_interval, deltas } => Recipe::UnsignedDelta {
                restart_interval: *restart_interval,
                deltas: Box::new((&**deltas).clone()),
            },
            Recipe::For(values) => Recipe::For(Box::new((&**values).clone())),
            Recipe::Patch { index_interval, values } => Recipe::Patch {
                index_interval: *index_interval,
                values: Box::new((&**values).clone()),
            },
            Recipe::Nullable { rank_interval, values } => Recipe::Nullable {
                rank_interval: *rank_interval,
                values: Box::new((&**values).clone()),
            },
            Recipe::Frame(values) => Recipe::Frame(Box::new((&**values).clone())),
        }
    }
}

/// What a recipe is called.
pub open spec fn recipe_name(recipe: Recipe) -> Seq<char>
    decreases recipe,
{
    match recipe {
        Recipe::BitPack => "BitPack"@,
        Recipe::Rle { values, .. } => "RLE("@ + recipe_name(*values) + ")"@,
        Recipe::Dictionary(ids) => "Dictionary("@ + recipe_name(*ids) + ")"@,
        Recipe::Delta { deltas, .. } => "Delta("@ + recipe_name(*deltas) + ")"@,
        Recipe::UnsignedDelta { deltas, .. } => "UnsignedDelta("@ + recipe_name(*deltas) + ")"@,
        Recipe::For(values) => "FOR("@ + recipe_name(*values) + ")"@,
        Recipe::Patch { values, .. } => "Patch("@ + recipe_name(*values) + ")"@,
        Recipe::Nullable { values, .. } => "Nullable("@ + recipe_name(*values) + ")"@,
        Recipe::Frame(values) => "Frame("@ + recipe_name(*values) + ")"@,
    }
}

/// A word, a name in round brackets.
fn named(word: &str, inner: String) -> (r: String)
    ensures
        r@ == word@ + inner@ + ")"@,
{
    let mut text = String::from_str(word);
    text.append(inner.as_str());
    text.append(")");
    text
}

impl Recipe {
    pub fn name(&self) -> (r: String)
        ensures
            r@ == recipe_name(*self),
        decreases self,
    {
        match self {
            Recipe::BitPack => String::from_str("BitPack"),
            Recipe::Rle { values, .. } => named("RLE(", (&**values).name()),
            Recipe::Dictionary(ids) => named("Dictionary(", (&**ids).name()),
            Recipe::Delta { deltas, .. } => named("Delta(", (&**deltas).name()),
            Recipe::UnsignedDelta { deltas, .. } => named("UnsignedDelta(", (&**deltas).name()),
            Recipe::For(values) => named("FOR(", (&**values).name()),
            Recipe::Patch { values, .. } => named("Patch(", (&**values).name()),
            Recipe::Nullable { values, .. } => named("Nullable(", (&**values).name()),
            Recipe::Frame(values) => named("Frame(", (&**values).name()),
        }
    }
}

/// A page and a decoder under construction.
pub struct Build {
    pub plan: PagePlan,
    pub nodes: Seq<DecoderNode>,
}

/// The build with one more node, and the node's number.
pub open spec fn with_node(build: Build, node: DecoderNode) -> (Build, NodeId) {
    (
        Build { plan: build.plan, nodes: build.nodes.push(node) },
        NodeId(build.nodes.len() as usize),
    )
}

/// The build with one more dependency.
pub open spec fn with_rule(build: Build, rule: DependencyRule) -> Build {
    Build {
        plan: PagePlan { dependencies: build.plan.dependencies.push(rule), ..build.plan },
        nodes: build.nodes,
    }
}

/// The build with one more field, and the field's number.
pub open spec fn added(
    build: Build,
    name: Seq<char>,
    bytes: Seq<u8>,
    alignment: usize,
    granularity: usize,
) -> Result<(Build, FieldId), Error> {
    if alignment == 0 || granularity == 0 {
        Err(Error::FieldParameters)
    } else if build.plan.fields.len() == usize::MAX {
        Err(Error::TooManyFields)
    } else {
        Ok(
            (
                Build {
                    plan: with_field(build.plan, name, bytes, alignment, granularity),
                    nodes: build.nodes,
                },
                FieldId(build.plan.fields.len() as usize),
            ),
        )
    }
}

/// The build with the fields from `start` on in a frame of their own.
pub open spec fn framed(build: Build, start: int) -> Result<Build, Error> {
    let end = build.plan.fields.len() as int;
    if start == 0 || start >= end || build.plan.groups == usize::MAX {
        Err(Error::InvalidFrameRange)
    } else if exists|i: int| start <= i < end && (#[trigger] build.plan.fields[i]).group is Some {
        Err(Error::FieldInTwoFrames)
    } else {
        Ok(Build { plan: with_frame(build.plan, start, end), nodes: build.nodes })
    }
}

pub open spec fn fits_i64(value: int) -> bool {
    i64::MIN <= value <= i64::MAX
}

pub open spec fn fits_u64(value: int) -> bool {
    0 <= value <= u64::MAX
}

pub open spec fn fits_i128(value: int) -> bool {
    i128::MIN <= value <= i128::MAX
}

/// No row is to be patched.
pub open spec fn unpatched(n: nat) -> Seq<bool> {
    Seq::new(n, |i: int| false)
}

// ----- bit packing -----

/// The number of bits that a number needs.
pub open spec fn bit_width(n: nat) -> nat
    decreases n,
{
    if n == 0 {
        0
    } else {
        1 + bit_width(n / 2)
    }
}

/// The largest of the first `n` numbers, or zero.
pub open spec fn greatest(values: Seq<int>, n: int) -> int
    decreases n,
{
    if n <= 0 {
        0
    } else {
        let before = greatest(values, n - 1);
        if values[n - 1] > before {
            values[n - 1]
        } else {
            before
        }
    }
}

/// The width at which numbers are packed.
pub open spec fn packed_width(values: Seq<int>) -> nat {
    bit_width(greatest(values, values.len() as int) as nat)
}

/// The bytes of one miniblock: as many as its rows need, but no fewer than eight.
pub open spec fn miniblock_size(width: nat) -> int {
    if 16 * width < 8 {
        8
    } else {
        16 * width as int
    }
}

/// Bit `p` of the packed stream.
pub open spec fn stream_bit(values: Seq<int>, width: int, p: int) -> bool {
    let size = 8 * miniblock_size(width as nat);
    let q = p % size;
    let row = p / size * MINIBLOCK_ROWS + q / width;
    q / width < MINIBLOCK_ROWS && row < values.len() && number_bit(
        values[row] as nat,
        (q % width) as nat,
    )
}

/// Byte `i` of the packed stream.
pub open spec fn stream_byte(values: Seq<int>, width: int, i: int) -> u8 {
    byte_of(|k: int| stream_bit(values, width, 8 * i + k))
}

/// The length of the packed stream.
pub open spec fn stream_len(rows: int, width: nat) -> int {
    if width == 0 {
        0
    } else {
        ceil_div(rows, MINIBLOCK_ROWS as int) * miniblock_size(width)
    }
}

/// The packed stream.
pub open spec fn stream_bytes(values: Seq<int>, width: nat) -> Seq<u8> {
    Seq::new(stream_len(values.len() as int, width) as nat, |i: int|
        stream_byte(values, width as int, i))
}

pub open spec fn coded_bits(values: Seq<int>, build: Build) -> Result<(Build, NodeId), Error> {
    let width = packed_width(values);
    let size = miniblock_size(width);
    if exists|i: int| 0 <= i < values.len() && !fits_u64(#[trigger] values[i]) {
        Err(Error::BitPackTooLarge)
    } else if stream_len(values.len() as int, width) > usize::MAX {
        Err(Error::PackedByteOverflow)
    } else {
        match added(
            build,
            "bitpack.miniblocks"@,
            stream_bytes(values, width),
            64,
            size as usize,
        ) {
            Err(e) => Err(e),
            Ok((build, stream)) => Ok(
                with_node(
                    build,
                    DecoderNode::BitUnpack {
                        stream,
                        width: width as u8,
                        len: values.len() as usize,
                        miniblock_rows: MINIBLOCK_ROWS,
                        miniblock_bytes: size as usize,
                    },
                ),
            ),
        }
    }
}

// ----- frame of reference -----

/// The smallest of the first `n` numbers, of which there is at least one.
pub open spec fn least(values: Seq<int>, n: int) -> int
    decreases n,
{
    if n <= 1 {
        values[0]
    } else {
        let before = least(values, n - 1);
        if values[n - 1] < before {
            values[n - 1]
        } else {
            before
        }
    }
}

pub open spec fn offsets(values: Seq<int>) -> Seq<int> {
    let base = least(values, values.len() as int);
    Seq::new(values.len(), |i: int| values[i] - base)
}

pub open spec fn for_fields(values: Seq<int>, build: Build) -> Result<(Build, FieldId), Error> {
    let base = least(values, values.len() as int);
    if values.len() == 0 {
        Err(Error::EmptyFor)
    } else if !fits_i64(base) {
        Err(Error::ForBaseTooLarge)
    } else {
        match added(build, "for.base"@, i64s_bytes(seq![base as i64]), 8, 8) {
            Err(e) => Err(e),
            Ok(next) => if exists|i: int|
                0 <= i < values.len() && !fits_i128(#[trigger] values[i] - base) {
                Err(Error::ForSubtraction)
            } else {
                Ok(next)
            },
        }
    }
}

// ----- differences -----

/// The code of a difference.
pub open spec fn difference_code(difference: int, coding: DeltaCoding) -> Result<int, Error> {
    if !fits_i128(difference) {
        Err(Error::DeltaSubtraction)
    } else {
        match coding {
            DeltaCoding::ZigZag => if fits_i64(difference) {
                Ok(zigzagged(difference as i64) as int)
            } else {
                Err(Error::DeltaTooWide)
            },
            DeltaCoding::Unsigned => if fits_u64(difference) {
                Ok(difference)
            } else {
                Err(Error::UnsignedDeltaDecreases)
            },
        }
    }
}

/// What is wrong with a row: at a restart its value, elsewhere the difference
/// from the row before.
pub open spec fn delta_row_fault(
    values: Seq<int>,
    interval: int,
    coding: DeltaCoding,
    row: int,
) -> Option<Error> {
    if row % interval == 0 {
        if fits_i64(values[row]) {
            None
        } else {
            Some(Error::DeltaRestartTooLarge)
        }
    } else {
        match difference_code(values[row] - values[row - 1], coding) {
            Ok(_) => None,
            Err(e) => Some(e),
        }
    }
}

/// The first fault in the first `n` rows.
pub open spec fn delta_fault(values: Seq<int>, interval: int, coding: DeltaCoding, n: int) -> Option<
    Error,
>
    decreases n,
{
    if n <= 0 {
        None
    } else {
        match delta_fault(values, interval, coding, n - 1) {
            Some(e) => Some(e),
            None => delta_row_fault(values, interval, coding, n - 1),
        }
    }
}

/// The code of a row, which is zero at a restart.
pub open spec fn delta_code(values: Seq<int>, interval: int, coding: DeltaCoding, row: int) -> int {
    if row % interval == 0 {
        0
    } else {
        difference_code(values[row] - values[row - 1], coding)->Ok_0
    }
}

pub open spec fn delta_codes(values: Seq<int>, interval: int, coding: DeltaCoding) -> Seq<int> {
    Seq::new(values.len(), |row: int| delta_code(values, interval, coding, row))
}

/// The values at the restarts.
pub open spec fn restart_values(values: Seq<int>, interval: int) -> Seq<i64> {
    Seq::new(ceil_div(values.len() as int, interval) as nat, |k: int| values[k * interval] as i64)
}

pub open spec fn delta_fields(
    values: Seq<int>,
    interval: usize,
    coding: DeltaCoding,
    build: Build,
) -> Result<(Build, FieldId), Error> {
    if interval == 0 || interval % MINIBLOCK_ROWS != 0 {
        Err(Error::DeltaInterval)
    } else {
        match delta_fault(values, interval as int, coding, values.len() as int) {
            Some(e) => Err(e),
            None => added(
                build,
                "delta.restarts"@,
                i64s_bytes(restart_values(values, interval as int)),
                8,
                64,
            ),
        }
    }
}

/// The node, and where the codes are bit-packed the dependency of their stream on
/// the restarts.
pub open spec fn delta_node(
    rows: usize,
    interval: usize,
    coding: DeltaCoding,
    restarts: FieldId,
    deltas: NodeId,
    build: Build,
) -> Result<(Build, NodeId), Error> {
    let node = DecoderNode::Delta {
        deltas,
        restarts,
        restart_interval: interval,
        len: rows,
        coding,
    };
    match build.nodes[deltas.0 as int] {
        DecoderNode::BitUnpack { stream, miniblock_bytes, .. } => {
            let span = interval as int / MINIBLOCK_ROWS as int * miniblock_bytes;
            if span > usize::MAX {
                Err(Error::IndexBlockOverflow)
            } else {
                Ok(
                    with_node(
                        with_rule(
                            build,
                            DependencyRule::Restart {
                                data: stream,
                                restarts,
                                data_bytes_per_restart: span as usize,
                                bytes_per_restart: 8,
                            },
                        ),
                        node,
                    ),
                )
            }
        },
        _ => Ok(with_node(build, node)),
    }
}

// ----- dictionaries -----

pub open spec fn ascending(values: Seq<int>) -> bool {
    forall|i: int, j: int| 0 <= i < j < values.len() ==> #[trigger] values[i] < #[trigger] values[j]
}

/// `d` lists the values that occur, each once, in ascending order.
pub open spec fn is_dictionary(d: Seq<int>, values: Seq<int>) -> bool {
    ascending(d) && forall|v: int| #[trigger] d.contains(v) == values.contains(v)
}

/// The values that occur, each once, in ascending order.
pub open spec fn dictionary_of(values: Seq<int>) -> Seq<int> {
    choose|d: Seq<int>| is_dictionary(d, values)
}

/// Where a value stands in a dictionary.
pub open spec fn place_in(d: Seq<int>, v: int) -> int {
    choose|i: int| 0 <= i < d.len() && d[i] == v
}

pub open spec fn dictionary_ids(values: Seq<int>) -> Seq<int> {
    Seq::new(values.len(), |i: int| place_in(dictionary_of(values), values[i]))
}

pub open spec fn narrowed(values: Seq<int>) -> Seq<i64> {
    Seq::new(values.len(), |i: int| values[i] as i64)
}

pub open spec fn dictionary_fields(values: Seq<int>, build: Build) -> Result<(Build, FieldId), Error> {
    let d = dictionary_of(values);
    if exists|i: int| 0 <= i < d.len() && !fits_i64(#[trigger] d[i]) {
        Err(Error::DictionaryValueTooLarge)
    } else {
        added(build, "dictionary.values"@, i64s_bytes(narrowed(d)), 8, 64)
    }
}

// ----- runs -----

/// The runs of the first `n` values, each with its value and its length.
pub open spec fn runs(values: Seq<int>, n: int) -> Seq<(int, nat)>
    decreases n,
{
    if n <= 0 {
        Seq::empty()
    } else {
        let before = runs(values, n - 1);
        let value = values[n - 1];
        if before.len() > 0 && before.last().0 == value {
            before.drop_last().push((value, before.last().1 + 1))
        } else {
            before.push((value, 1))
        }
    }
}

pub open spec fn all_runs(values: Seq<int>) -> Seq<(int, nat)> {
    runs(values, values.len() as int)
}

pub open spec fn run_values(values: Seq<int>) -> Seq<int> {
    Seq::new(all_runs(values).len(), |k: int| all_runs(values)[k].0)
}

pub open spec fn run_lengths(values: Seq<int>) -> Seq<u32> {
    Seq::new(all_runs(values).len(), |k: int| all_runs(values)[k].1 as u32)
}

/// The rows in the first `k` runs.
pub open spec fn rows_before(list: Seq<(int, nat)>, k: int) -> nat
    decreases k,
{
    if k <= 0 {
        0
    } else {
        rows_before(list, k - 1) + list[k - 1].1
    }
}

/// Pairs of a first row and a run: one for every `interval` runs, and one at the
/// end.
pub open spec fn run_index(values: Seq<int>, interval: int) -> Seq<u32> {
    let list = all_runs(values);
    let groups = ceil_div(list.len() as int, interval);
    Seq::new((2 * (groups + 1)) as nat, |i: int| index_half(
        i,
        groups,
        rows_before(list, i / 2 * interval) as int,
        i / 2 * interval,
        values.len() as int,
        list.len() as int,
    ))
}

/// Half `i` of an index: of a group's pair, or of the pair at the end.
pub open spec fn index_half(i: int, groups: int, first: int, second: int, end: int, count: int) -> u32 {
    if i / 2 < groups {
        if i % 2 == 0 {
            first as u32
        } else {
            second as u32
        }
    } else if i % 2 == 0 {
        end as u32
    } else {
        count as u32
    }
}

pub open spec fn rle_fields(values: Seq<int>, interval: usize, build: Build) -> Result<
    (Build, FieldId, FieldId),
    Error,
> {
    if interval == 0 {
        Err(Error::RleInterval)
    } else if values.len() > u32::MAX {
        Err(Error::RleRowIndexOverflow)
    } else {
        match added(build, "rle.lengths"@, u32s_bytes(run_lengths(values)), 4, 128) {
            Err(e) => Err(e),
            Ok((build, lengths)) => match added(
                build,
                "rle.index"@,
                u32s_bytes(run_index(values, interval as int)),
                8,
                64,
            ) {
                Err(e) => Err(e),
                Ok((build, index)) => if interval * 4 > usize::MAX {
                    Err(Error::IndexBlockOverflow)
                } else {
                    Ok(
                        (
                            with_rule(
                                build,
                                DependencyRule::IndexedStream {
                                    data: lengths,
                                    index,
                                    data_block_bytes: (interval * 4) as usize,
                                    index_entry_bytes: 8,
                                },
                            ),
                            lengths,
                            index,
                        ),
                    )
                },
            },
        }
    }
}

// ----- patches -----

/// The rows before `n` that are to be patched, in ascending order.
pub open spec fn patch_positions(patched: Seq<bool>, n: int) -> Seq<int>
    decreases n,
{
    if n <= 0 {
        Seq::empty()
    } else {
        let before = patch_positions(patched, n - 1);
        if patched[n - 1] {
            before.push(n - 1)
        } else {
            before
        }
    }
}

pub open spec fn all_positions(patched: Seq<bool>) -> Seq<int> {
    patch_positions(patched, patched.len() as int)
}

/// The value of the nearest row from `distance` on that is not patched, the
/// earlier of two, or zero.
pub open spec fn nearest(values: Seq<int>, patched: Seq<bool>, row: int, distance: int) -> int
    decreases values.len() - distance,
{
    if distance >= values.len() {
        0
    } else if row - distance >= 0 && !patched[row - distance] {
        values[row - distance]
    } else if row + distance < values.len() && !patched[row + distance] {
        values[row + distance]
    } else {
        nearest(values, patched, row, distance + 1)
    }
}

/// The values with each that is patched replaced by a regular one.
pub open spec fn regular_values(values: Seq<int>, patched: Seq<bool>) -> Seq<int> {
    Seq::new(values.len(), |i: int|
        if patched[i] {
            nearest(values, patched, i, 1)
        } else {
            values[i]
        })
}

pub open spec fn position_values(patched: Seq<bool>) -> Seq<u32> {
    Seq::new(all_positions(patched).len(), |k: int| all_positions(patched)[k] as usize as u32)
}

pub open spec fn exception_values(values: Seq<int>, patched: Seq<bool>) -> Seq<i64> {
    Seq::new(all_positions(patched).len(), |k: int| values[all_positions(patched)[k]] as i64)
}

/// Pairs of a row and an exception: one for every `interval` exceptions, and one
/// at the end.
pub open spec fn position_index(patched: Seq<bool>, interval: int) -> Seq<u32> {
    let list = all_positions(patched);
    let groups = ceil_div(list.len() as int, interval);
    Seq::new((2 * (groups + 1)) as nat, |i: int| index_half(
        i,
        groups,
        list[i / 2 * interval] as usize as int,
        (i / 2 * interval) as usize as int,
        patched.len() as usize as int,
        list.len() as usize as int,
    ))
}

pub open spec fn patch_fields(
    values: Seq<int>,
    patched: Seq<bool>,
    interval: usize,
    build: Build,
) -> Result<(Build, FieldId, FieldId, FieldId), Error> {
    let list = all_positions(patched);
    if interval == 0 {
        Err(Error::PatchInterval)
    } else if exists|k: int| 0 <= k < list.len() && !fits_i64(values[#[trigger] list[k]]) {
        Err(Error::PatchExceptionTooLarge)
    } else {
        match added(build, "patch.positions"@, u32s_bytes(position_values(patched)), 4, 128) {
            Err(e) => Err(e),
            Ok((build, positions)) => match added(
                build,
                "patch.index"@,
                u32s_bytes(position_index(patched, interval as int)),
                8,
                64,
            ) {
                Err(e) => Err(e),
                Ok((build, index)) => match added(
                    build,
                    "patch.exceptions"@,
                    i64s_bytes(exception_values(values, patched)),
                    8,
                    64,
                ) {
                    Err(e) => Err(e),
                    Ok((build, exceptions)) => if interval * 4 > usize::MAX {
                        Err(Error::IndexBlockOverflow)
                    } else {
                        Ok(
                            (
                                with_rule(
                                    build,
                                    DependencyRule::IndexedStream {
                                        data: positions,
                                        index,
                                        data_block_bytes: (interval * 4) as usize,
                                        index_entry_bytes: 8,
                                    },
                                ),
                                positions,
                                index,
                                exceptions,
                            ),
                        )
                    },
                },
            },
        }
    }
}

// ----- nulls -----

/// The values before row `n` that are not null.
pub open spec fn compact(values: Seq<Option<int>>, n: int) -> Seq<int>
    decreases n,
{
    if n <= 0 {
        Seq::empty()
    } else {
        let before = compact(values, n - 1);
        match values[n - 1] {
            Some(value) => before.push(value),
            None => before,
        }
    }
}

/// The marks of the rows before `n` that are not null.
pub open spec fn compact_marks(values: Seq<Option<int>>, patched: Seq<bool>, n: int) -> Seq<bool>
    decreases n,
{
    if n <= 0 {
        Seq::empty()
    } else {
        let before = compact_marks(values, patched, n - 1);
        match values[n - 1] {
            Some(_) => before.push(patched[n - 1]),
            None => before,
        }
    }
}

/// Whether each row is not null, one bit each.
pub open spec fn validity_bytes(values: Seq<Option<int>>) -> Seq<u8> {
    Seq::new(ceil_div(values.len() as int, 8) as nat, |i: int|
        byte_of(|k: int| 8 * i + k < values.len() && values[8 * i + k] is Some))
}

/// The number of rows before each block that are not null, and of all.
pub open spec fn rank_values(values: Seq<Option<int>>, interval: int) -> Seq<u32> {
    Seq::new((ceil_div(values.len() as int, interval) + 1) as nat, |b: int|
        compact(
            values,
            if b * interval < values.len() {
                b * interval
            } else {
                values.len() as int
            },
        ).len() as u32)
}

pub open spec fn nullable_fields(values: Seq<Option<int>>, interval: usize, build: Build) -> Result<
    (Build, FieldId, FieldId),
    Error,
> {
    let dense = compact(values, values.len() as int);
    if interval == 0 || interval % 8 != 0 {
        Err(Error::NullableInterval)
    } else if dense.len() == 0 {
        Err(Error::AllNull)
    } else if dense.len() > u32::MAX {
        Err(Error::RankOverflow)
    } else {
        match added(build, "nullable.validity"@, validity_bytes(values), 8, interval / 8) {
            Err(e) => Err(e),
            Ok((build, validity)) => match added(
                build,
                "nullable.rank"@,
                u32s_bytes(rank_values(values, interval as int)),
                4,
                64,
            ) {
                Err(e) => Err(e),
                Ok((build, ranks)) => Ok(
                    (
                        with_rule(
                            build,
                            DependencyRule::IndexedStream {
                                data: validity,
                                index: ranks,
                                data_block_bytes: interval / 8,
                                index_entry_bytes: 4,
                            },
                        ),
                        validity,
                        ranks,
                    ),
                ),
            },
        }
    }
}

// ----- recipes -----

/// What a recipe makes of values none of which is null.
pub open spec fn coded_dense(recipe: Recipe, values: Seq<int>, patched: Seq<bool>, build: Build) -> Result<
    (Build, NodeId),
    Error,
>
    decreases recipe,
{
    match recipe {
        Recipe::BitPack => coded_bits(values, build),
        Recipe::Rle { index_interval, values: child } => match rle_fields(
            values,
            index_interval,
            build,
        ) {
            Err(e) => Err(e),
            Ok((build, lengths, index)) => match coded_dense(
                *child,
                run_values(values),
                unpatched(all_runs(values).len()),
                build,
            ) {
                Err(e) => Err(e),
                Ok((build, id)) => Ok(
                    with_node(
                        build,
                        DecoderNode::Rle {
                            values: id,
                            run_lengths: lengths,
                            run_index: index,
                            len: values.len() as usize,
                            runs: all_runs(values).len() as usize,
                            index_interval,
                        },
                    ),
                ),
            },
        },
        Recipe::Dictionary(child) => match dictionary_fields(values, build) {
            Err(e) => Err(e),
            Ok((build, dictionary)) => match coded_dense(
                *child,
                dictionary_ids(values),
                patched,
                build,
            ) {
                Err(e) => Err(e),
                Ok((build, ids)) => Ok(
                    with_node(
                        build,
                        DecoderNode::Dictionary {
                            ids,
                            dictionary,
                            entries: dictionary_of(values).len() as usize,
                            sorted_unique: true,
                        },
                    ),
                ),
            },
        },
        Recipe::Delta { restart_interval, deltas } => match delta_fields(
            values,
            restart_interval,
            DeltaCoding::ZigZag,
            build,
        ) {
            Err(e) => Err(e),
            Ok((build, restarts)) => match coded_dense(
                *deltas,
                delta_codes(values, restart_interval as int, DeltaCoding::ZigZag),
                patched,
                build,
            ) {
                Err(e) => Err(e),
                Ok((build, id)) => delta_node(
                    values.len() as usize,
                    restart_interval,
                    DeltaCoding::ZigZag,
                    restarts,
                    id,
                    build,
                ),
            },
        },
        Recipe::UnsignedDelta { restart_interval, deltas } => match delta_fields(
            values,
            restart_interval,
            DeltaCoding::Unsigned,
            build,
        ) {
            Err(e) => Err(e),
            Ok((build, restarts)) => match coded_dense(
                *deltas,
                delta_codes(values, restart_interval as int, DeltaCoding::Unsigned),
                patched,
                build,
            ) {
                Err(e) => Err(e),
                Ok((build, id)) => delta_node(
                    values.len() as usize,
                    restart_interval,
                    DeltaCoding::Unsigned,
                    restarts,
                    id,
                    build,
                ),
            },
        },
        Recipe::For(child) => match for_fields(values, build) {
            Err(e) => Err(e),
            Ok((build, base)) => match coded_dense(*child, offsets(values), patched, build) {
                Err(e) => Err(e),
                Ok((build, id)) => Ok(with_node(build, DecoderNode::For { base, values: id })),
            },
        },
        Recipe::Patch { index_interval, values: child } => match patch_fields(
            values,
            patched,
            index_interval,
            build,
        ) {
            Err(e) => Err(e),
            Ok((build, positions, index, exceptions)) => match coded_dense(
                *child,
                regular_values(values, patched),
                unpatched(values.len()),
                build,
            ) {
                Err(e) => Err(e),
                Ok((build, id)) => Ok(
                    with_node(
                        build,
                        DecoderNode::Patch {
                            values: id,
                            positions,
                            position_index: index,
                            exceptions,
                            count: all_positions(patched).len() as usize,
                            index_interval,
                        },
                    ),
                ),
            },
        },
        Recipe::Nullable { .. } => Err(Error::NestedNullable),
        Recipe::Frame(child) => match coded_dense(*child, values, patched, build) {
            Err(e) => Err(e),
            Ok((next, id)) => match framed(next, build.plan.fields.len() as int) {
                Err(e) => Err(e),
                Ok(next) => Ok((next, id)),
            },
        },
    }
}

/// The values, if none is null.
pub open spec fn dense_values(values: Seq<Option<int>>) -> Result<Seq<int>, Error> {
    if exists|i: int| 0 <= i < values.len() && (#[trigger] values[i]) is None {
        Err(Error::NullInDense)
    } else {
        Ok(Seq::new(values.len(), |i: int| values[i]->0))
    }
}

/// What a recipe makes of values some of which may be null.
pub open spec fn coded(recipe: Recipe, values: Seq<Option<int>>, patched: Seq<bool>, build: Build) -> Result<
    (Build, NodeId),
    Error,
>
    decreases recipe,
{
    match recipe {
        Recipe::Frame(child) => match coded(*child, values, patched, build) {
            Err(e) => Err(e),
            Ok((next, id)) => match framed(next, build.plan.fields.len() as int) {
                Err(e) => Err(e),
                Ok(next) => Ok((next, id)),
            },
        },
        Recipe::Nullable { rank_interval, values: child } => match nullable_fields(
            values,
            rank_interval,
            build,
        ) {
            Err(e) => Err(e),
            Ok((build, validity, ranks)) => {
                let dense = compact(values, values.len() as int);
                match coded_dense(
                    *child,
                    dense,
                    compact_marks(values, patched, values.len() as int),
                    build,
                ) {
                    Err(e) => Err(e),
                    Ok((build, id)) => Ok(
                        with_node(
                            build,
                            DecoderNode::Nullable {
                                validity,
                                rank_index: ranks,
                                values: id,
                                logical_len: values.len() as usize,
                                nonnull_len: dense.len() as usize,
                                rank_interval,
                            },
                        ),
                    ),
                }
            },
        },
        _ => match dense_values(values) {
            Err(e) => Err(e),
            Ok(dense) => coded_dense(recipe, dense, patched, build),
        },
    }
}

} // verus!
