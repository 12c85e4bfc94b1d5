//! A decoder whose shape is a type decodes as the decoder that it describes.
#[allow(unused_imports)]
use super::coding::Recipe;
#[allow(unused_imports)]
use super::decoder::{DecoderNode, DeltaCoding};
#[allow(unused_imports)]
use super::encode::{marked, widened, EncodedColumn};
#[allow(unused_imports)]
use super::error::Error;
#[allow(unused_imports)]
use super::ids::FieldId;
#[allow(unused_imports)]
use super::interpreter::{delta_outcome, delta_step, get_outcome};
#[allow(unused_imports)]
use super::roundtrip::{law_decodes_what_was_encoded, narrow_column};
#[allow(unused_imports)]
use super::runtime::{page_context, ClosureMode, Context};
#[allow(unused_imports)]
use super::searches::{decodes, wide};
#[allow(unused_imports)]
use super::static_baseline::{
    codes_outcome, StaticBitPack, StaticDecoder, StaticDelta, StaticDictionary, StaticFor,
    StaticNullable, StaticPatch, StaticRle,
};
#[allow(unused_imports)]
use super::walks::{node_orderly, present_before, readable, Ordered};
use vstd::prelude::*;

verus! {

/// A type that describes nodes of decoders.
pub trait Described: StaticDecoder {
    /// The type describes a node.
    spec fn shapes(nodes: Seq<DecoderNode>, id: int) -> bool;

    /// A row that a described node decodes, the type decodes to the same value
    /// and in the same steps.
    proof fn agrees(context: Context, nodes: Seq<DecoderNode>, id: int, row: int)
        requires
            Self::shapes(nodes, id),
            usize::BITS == 64,
            get_outcome(context, nodes, id, row).result is Ok,
        ensures
            Self::value(context, row).result == Ok::<Option<int>, Error>(
                wide(get_outcome(context, nodes, id, row).result->Ok_0),
            ),
            Self::value(context, row).trace == get_outcome(context, nodes, id, row).trace,
        decreases id,
    ;
}

impl<
    const FIELD: usize,
    const WIDTH: u8,
    const MINIBLOCK_ROWS: usize,
    const MINIBLOCK_BYTES: usize,
> Described for StaticBitPack<FIELD, WIDTH, MINIBLOCK_ROWS, MINIBLOCK_BYTES> {
    open spec fn shapes(nodes: Seq<DecoderNode>, id: int) -> bool {
        &&& 0 <= id < nodes.len()
        &&& nodes[id] matches DecoderNode::BitUnpack {
            stream,
            width,
            miniblock_rows,
            miniblock_bytes,
            ..
        }
        &&& stream == FieldId(FIELD)
        &&& width == WIDTH
        &&& miniblock_rows == MINIBLOCK_ROWS
        &&& miniblock_bytes == MINIBLOCK_BYTES
    }

    proof fn agrees(context: Context, nodes: Seq<DecoderNode>, id: int, row: int) {
    }
}

impl<const BASE: usize, Child: Described> Described for StaticFor<BASE, Child> {
    open spec fn shapes(nodes: Seq<DecoderNode>, id: int) -> bool {
        &&& 0 <= id < nodes.len()
        &&& nodes[id] matches DecoderNode::For { base, values }
        &&& base == FieldId(BASE)
        &&& Child::shapes(nodes, values.0 as int)
    }

    proof fn agrees(context: Context, nodes: Seq<DecoderNode>, id: int, row: int) {
        if let DecoderNode::For { values, .. } = nodes[id] {
            Child::agrees(context, nodes, values.0 as int, row);
        }
    }
}

proof fn lemma_codes<C: Described>(
    context: Context,
    nodes: Seq<DecoderNode>,
    codes: int,
    coding: DeltaCoding,
    from: int,
    row: int,
    value: int,
)
    requires
        C::shapes(nodes, codes),
        usize::BITS == 64,
        delta_outcome(context, nodes, codes, coding, from, row, value).result is Ok,
    ensures
        codes_outcome::<C>(context, coding == DeltaCoding::Unsigned, from, row, value)
            == delta_outcome(context, nodes, codes, coding, from, row, value),
    decreases row - from + 1,
{
    if from <= row {
        let read = get_outcome(context, nodes, codes, from);
        C::agrees(context, nodes, codes, from);
        let code = read.result->Ok_0;
        let next = delta_step(value, code, coding)->Ok_0;
        lemma_codes::<C>(context, nodes, codes, coding, from + 1, row, next);
    }
}

impl<
    const RESTARTS: usize,
    const RESTART_INTERVAL: usize,
    const UNSIGNED: bool,
    Child: Described,
> Described for StaticDelta<RESTARTS, RESTART_INTERVAL, UNSIGNED, Child> {
    open spec fn shapes(nodes: Seq<DecoderNode>, id: int) -> bool {
        &&& 0 <= id < nodes.len()
        &&& nodes[id] matches DecoderNode::Delta {
            deltas,
            restarts,
            restart_interval,
            coding,
            ..
        }
        &&& restarts == FieldId(RESTARTS)
        &&& restart_interval == RESTART_INTERVAL
        &&& (coding == DeltaCoding::Unsigned) == UNSIGNED
        &&& Child::shapes(nodes, deltas.0 as int)
    }

    proof fn agrees(context: Context, nodes: Seq<DecoderNode>, id: int, row: int) {
        if let DecoderNode::Delta { deltas, restarts, restart_interval, coding, .. } = nodes[id] {
            let block = row / restart_interval as int;
            let anchor = super::runtime::i64_outcome(context, restarts, block).result->Ok_0;
            lemma_codes::<Child>(
                context,
                nodes,
                deltas.0 as int,
                coding,
                block * restart_interval + 1,
                row,
                anchor as int,
            );
        }
    }
}

impl<
    const LENGTHS: usize,
    const INDEX: usize,
    const RUNS: usize,
    const INDEX_INTERVAL: usize,
    Child: Described,
> Described for StaticRle<LENGTHS, INDEX, RUNS, INDEX_INTERVAL, Child> {
    open spec fn shapes(nodes: Seq<DecoderNode>, id: int) -> bool {
        &&& 0 <= id < nodes.len()
        &&& nodes[id] matches DecoderNode::Rle {
            values,
            run_lengths,
            run_index,
            runs,
            index_interval,
            ..
        }
        &&& run_lengths == FieldId(LENGTHS)
        &&& run_index == FieldId(INDEX)
        &&& runs == RUNS
        &&& index_interval == INDEX_INTERVAL
        &&& Child::shapes(nodes, values.0 as int)
    }

    proof fn agrees(context: Context, nodes: Seq<DecoderNode>, id: int, row: int) {
        if let DecoderNode::Rle { values, run_lengths, run_index, runs, index_interval, .. } =
            nodes[id] {
            let found = super::support::locate_outcome(
                context,
                run_index,
                run_lengths,
                runs as int,
                index_interval as int,
                row,
            );
            let place = found.result->Ok_0;
            Child::agrees(context, nodes, values.0 as int, place.0);
        }
    }
}

impl<const FIELD: usize, const ENTRIES: usize, Child: Described> Described for StaticDictionary<
    FIELD,
    ENTRIES,
    Child,
> {
    open spec fn shapes(nodes: Seq<DecoderNode>, id: int) -> bool {
        &&& 0 <= id < nodes.len()
        &&& nodes[id] matches DecoderNode::Dictionary {
            ids,
            dictionary,
            entries,
            ..
        }
        &&& dictionary == FieldId(FIELD)
        &&& entries == ENTRIES
        &&& entries <= i64::MAX
        &&& Child::shapes(nodes, ids.0 as int)
    }

    proof fn agrees(context: Context, nodes: Seq<DecoderNode>, id: int, row: int) {
        if let DecoderNode::Dictionary { ids, .. } = nodes[id] {
            Child::agrees(context, nodes, ids.0 as int, row);
            if let Some(code) = get_outcome(context, nodes, ids.0 as int, row).result->Ok_0 {
                if code < 0 {
                    assert(usize::BITS == 64 && code < 0 ==> (code as usize)
                        > 0x7fff_ffff_ffff_ffff) by (bit_vector);
                }
            }
        }
    }
}

impl<
    const POSITIONS: usize,
    const INDEX: usize,
    const EXCEPTIONS: usize,
    const COUNT: usize,
    const INDEX_INTERVAL: usize,
    Child: Described,
> Described for StaticPatch<POSITIONS, INDEX, EXCEPTIONS, COUNT, INDEX_INTERVAL, Child> {
    open spec fn shapes(nodes: Seq<DecoderNode>, id: int) -> bool {
        &&& 0 <= id < nodes.len()
        &&& nodes[id] matches DecoderNode::Patch {
            values,
            positions,
            position_index,
            exceptions,
            count,
            index_interval,
        }
        &&& positions == FieldId(POSITIONS)
        &&& position_index == FieldId(INDEX)
        &&& exceptions == FieldId(EXCEPTIONS)
        &&& count == COUNT
        &&& index_interval == INDEX_INTERVAL
        &&& Child::shapes(nodes, values.0 as int)
    }

    proof fn agrees(context: Context, nodes: Seq<DecoderNode>, id: int, row: int) {
        if let DecoderNode::Patch { values, positions, position_index, count, index_interval, .. } =
            nodes[id] {
            let found = super::support::find_outcome(
                context,
                position_index,
                positions,
                count as int,
                index_interval as int,
                row,
            );
            if found.result->Ok_0 is None {
                Child::agrees(context, nodes, values.0 as int, row);
            }
        }
    }
}

impl<
    const VALIDITY: usize,
    const RANK_INDEX: usize,
    const RANK_INTERVAL: usize,
    Child: Described,
> Described for StaticNullable<VALIDITY, RANK_INDEX, RANK_INTERVAL, Child> {
    open spec fn shapes(nodes: Seq<DecoderNode>, id: int) -> bool {
        &&& 0 <= id < nodes.len()
        &&& nodes[id] matches DecoderNode::Nullable {
            validity,
            rank_index,
            values,
            rank_interval,
            ..
        }
        &&& validity == FieldId(VALIDITY)
        &&& rank_index == FieldId(RANK_INDEX)
        &&& rank_interval == RANK_INTERVAL
        &&& Child::shapes(nodes, values.0 as int)
    }

    proof fn agrees(context: Context, nodes: Seq<DecoderNode>, id: int, row: int) {
        if let DecoderNode::Nullable { validity, rank_index, values, rank_interval, .. } =
            nodes[id] {
            let found = super::support::rank_outcome(
                context,
                validity,
                rank_index,
                row,
                rank_interval as int,
            );
            if let Some(rank) = found.result->Ok_0 {
                Child::agrees(context, nodes, values.0 as int, rank);
            }
        }
    }
}

/// A type that describes the decoder of an encoded column decodes every row of the
/// column to the value that was encoded.
pub proof fn law_described_columns_decode<D: Described>(
    column: EncodedColumn,
    recipe: Recipe,
    values: Seq<Option<i64>>,
    patch_rows: Set<usize>,
    mode: ClosureMode,
)
    requires
        column.encodes(recipe, values, patch_rows),
        narrow_column(recipe, widened(values), marked(values.len(), patch_rows)),
        values.len() <= usize::MAX,
        usize::BITS == 64,
        D::shapes(column.decoder.arena(), column.decoder.top().0 as int),
    ensures
        decodes::<D>(page_context(&column.page, mode, true), values),
{
    let context = page_context(&column.page, mode, true);
    let nodes = column.decoder.arena();
    let id = column.decoder.top().0 as int;
    assert forall|row: int| 0 <= row < values.len() implies (#[trigger] D::value(
        context,
        row,
    )).result == Ok::<Option<int>, Error>(wide(values[row])) by {
        law_decodes_what_was_encoded(column, recipe, values, patch_rows, mode, true, row);
        D::agrees(context, nodes, id, row);
    }
}

// ----- walks -----

/// A described decoder that can be walked over wherever the node can.
pub trait Carried: Described + Ordered {
    proof fn carries(context: Context, nodes: Seq<DecoderNode>, id: int, rows: int)
        requires
            Self::shapes(nodes, id),
            usize::BITS == 64,
            node_orderly(context, nodes, id, rows),
        ensures
            Self::orderly(context, rows),
        decreases id,
    ;
}

proof fn lemma_readable<D: Described>(context: Context, nodes: Seq<DecoderNode>, id: int, rows: int)
    requires
        D::shapes(nodes, id),
        usize::BITS == 64,
        node_orderly(context, nodes, id, rows),
    ensures
        readable::<D>(context, rows),
{
    assert forall|row: int| 0 <= row < rows implies (#[trigger] D::value(
        context,
        row,
    )).result is Ok by {
        assert(get_outcome(context, nodes, id, row).result is Ok);
        D::agrees(context, nodes, id, row);
    }
}

impl<
    const FIELD: usize,
    const WIDTH: u8,
    const MINIBLOCK_ROWS: usize,
    const MINIBLOCK_BYTES: usize,
> Carried for StaticBitPack<FIELD, WIDTH, MINIBLOCK_ROWS, MINIBLOCK_BYTES> {
    proof fn carries(context: Context, nodes: Seq<DecoderNode>, id: int, rows: int) {
        lemma_readable::<Self>(context, nodes, id, rows);
    }
}

impl<const BASE: usize, Child: Carried> Carried for StaticFor<BASE, Child> {
    proof fn carries(context: Context, nodes: Seq<DecoderNode>, id: int, rows: int) {
        lemma_readable::<Self>(context, nodes, id, rows);
        if let DecoderNode::For { values, .. } = nodes[id] {
            Child::carries(context, nodes, values.0 as int, rows);
        }
    }
}

impl<
    const RESTARTS: usize,
    const RESTART_INTERVAL: usize,
    const UNSIGNED: bool,
    Child: Described,
> Carried for StaticDelta<RESTARTS, RESTART_INTERVAL, UNSIGNED, Child> {
    proof fn carries(context: Context, nodes: Seq<DecoderNode>, id: int, rows: int) {
        lemma_readable::<Self>(context, nodes, id, rows);
    }
}

impl<
    const LENGTHS: usize,
    const INDEX: usize,
    const RUNS: usize,
    const INDEX_INTERVAL: usize,
    Child: Described,
> Carried for StaticRle<LENGTHS, INDEX, RUNS, INDEX_INTERVAL, Child> {
    proof fn carries(context: Context, nodes: Seq<DecoderNode>, id: int, rows: int) {
        lemma_readable::<Self>(context, nodes, id, rows);
    }
}

impl<const FIELD: usize, const ENTRIES: usize, Child: Carried> Carried for StaticDictionary<
    FIELD,
    ENTRIES,
    Child,
> {
    proof fn carries(context: Context, nodes: Seq<DecoderNode>, id: int, rows: int) {
        lemma_readable::<Self>(context, nodes, id, rows);
        if let DecoderNode::Dictionary { ids, .. } = nodes[id] {
            Child::carries(context, nodes, ids.0 as int, rows);
        }
    }
}

impl<
    const POSITIONS: usize,
    const INDEX: usize,
    const EXCEPTIONS: usize,
    const COUNT: usize,
    const INDEX_INTERVAL: usize,
    Child: Carried,
> Carried for StaticPatch<POSITIONS, INDEX, EXCEPTIONS, COUNT, INDEX_INTERVAL, Child> {
    proof fn carries(context: Context, nodes: Seq<DecoderNode>, id: int, rows: int) {
        lemma_readable::<Self>(context, nodes, id, rows);
        if let DecoderNode::Patch { values, .. } = nodes[id] {
            Child::carries(context, nodes, values.0 as int, rows);
        }
    }
}

impl<
    const VALIDITY: usize,
    const RANK_INDEX: usize,
    const RANK_INTERVAL: usize,
    Child: Carried,
> Carried for StaticNullable<VALIDITY, RANK_INDEX, RANK_INTERVAL, Child> {
    proof fn carries(context: Context, nodes: Seq<DecoderNode>, id: int, rows: int) {
        lemma_readable::<Self>(context, nodes, id, rows);
        if let DecoderNode::Nullable { values, .. } = nodes[id] {
            Child::carries(
                context,
                nodes,
                values.0 as int,
                present_before(context, FieldId(VALIDITY), rows),
            );
        }
    }
}

} // verus!
