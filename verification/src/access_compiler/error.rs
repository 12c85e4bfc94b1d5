//! What can go wrong while a page is written, read, planned or queried.
use vstd::prelude::*;

verus! {

#[derive(Clone, Copy, Debug, PartialEq, Eq, Structural)]
pub enum Error {
    /// A span ends before it starts.
    InvalidSpan { start: usize, end: usize },
    /// The layout's metadata field is not among its fields.
    MetadataAbsent,
    /// A field's number, alignment or read granularity is unusable.
    InvalidField(usize),
    /// A direct field is misaligned or runs past the end of the file.
    FieldOutsideLayout(usize),
    /// A field names a frame that the layout does not have.
    FieldFrameAbsent(usize),
    /// A field runs past the end of its decoded frame.
    FieldExceedsFrame(usize),
    /// A frame's number, alignment or extent is unusable.
    InvalidFrame(usize),
    /// A dependency names an absent field or has a zero parameter.
    InvalidDependency,
    /// An access names a field that the layout does not have.
    AccessFieldAbsent(usize),
    /// An access reaches past the end of a field.
    AccessExceedsField(usize),
    /// An access to a field reaches past every addressable byte.
    AccessUnaddressable(usize),
    /// An access has more bytes than can be counted.
    AccessUncountable,
    /// The decoder's root is not one of its nodes.
    RootOutsideArena,
    /// A decoder node's child does not precede it.
    ChildOutOfOrder { node: usize, child: usize },
    /// A decoder names a child that it does not have.
    ChildAbsent(usize),
    /// A chain of decoder nodes comes back to itself.
    ChildCycle(usize),
    /// The decoder does not have the node.
    NodeAbsent(usize),
    InvalidBitUnpack(usize),
    InvalidRle(usize),
    InvalidDictionary(usize),
    InvalidDelta(usize),
    InvalidFor(usize),
    InvalidPatch(usize),
    InvalidNullable(usize),
    /// The page does not start with the magic bytes, or is too short to.
    InvalidMagic,
    UnsupportedVersion,
    /// The page is shorter than the fixed part of its header.
    HeaderTruncated,
    /// The page has another length than it states, or no field.
    InvalidLength,
    /// The field descriptors do not fit an address.
    FieldHeaderOverflow,
    /// The header does not fit an address.
    HeaderOverflow,
    AlignmentOverflow,
    /// The page is shorter than its directory.
    DirectoryTruncated,
    UnknownInvariantFlags,
    ChecksumMismatch,
    InconsistentNullFlags,
    /// Full monotonicity is stated of values that may be null.
    MonotonicityNeedsDense,
    /// A header value does not fit an address.
    HeaderValueTooLarge,
    FieldIdsNotCanonical,
    InvalidLocationKind(u8),
    InvalidFrameDescriptor,
    InvalidDependencyKind(u8),
    MetadataNotHeader,
    /// A field was added with no alignment or no read granularity.
    FieldParameters,
    /// A frame was asked for over fields that are not there.
    InvalidFrameRange,
    FieldInTwoFrames,
    DirectFieldOverflow,
    FrameOverflow,
    FrameCompression,
    FrameDecompression,
    /// A frame holds less than it states.
    FrameTooShort(usize),
    /// A page's place in the backing bytes is not addressable.
    MappedOffsetOverflow,
    /// A page does not lie inside the backing bytes.
    MappedOutside,
    /// A read names a field that the page does not have.
    ReadFieldAbsent(usize),
    /// A read reaches past the end of a field.
    ReadExceedsField(usize),
    /// A value's place in its field is not addressable.
    FieldOffsetOverflow,
    /// A range of values ends before it starts.
    InvalidFieldRange,
    InvalidBitParameters,
    PackedBitOverflow,
    PackedByteOverflow,
    RleRowOverflow,
    RleNotCovered,
    RankOverflow,
    /// A plan step skips scan work and cites no fact.
    SkipsWithoutFact(usize),
    /// A plan step cites a fact that it does not need.
    UnneededFact(usize),
    /// A plan step cites a fact that the column does not prove.
    FactNotProven(usize),
    /// A plan step cites a fact that does not entail it.
    FactNotLicensing(usize),
    PlanEmpty,
    PlanIdNotCanonical(usize),
    FallbackWithoutReason,
    GetRowOutside,
    QueryRowsInvalid,
    BetweenBoundsInvalid,
    /// A count of a range has no authorized plan.
    CountBetweenUnplanned,
    RowOutside { row: usize, node: usize },
    BitUnpackTooLarge,
    ForOverflow,
    DeltaCodeNull,
    DeltaCodeNegative,
    DeltaOverflow,
    DeltaTooLarge,
    DictionaryIdNull,
    DictionaryIdOutside,
    SumOverflow,
    CountOverflow,
    CountNeedsRuns,
    /// A page has no room for another field.
    TooManyFields,
    /// A column has no row.
    EmptyColumn,
    /// A row to be patched is not in the column.
    PatchRowOutside,
    /// A null reached a primitive that has no place for it.
    NullInDense,
    NestedNullable,
    BitPackTooLarge,
    ForBaseTooLarge,
    ForSubtraction,
    EmptyFor,
    DeltaInterval,
    DeltaRestartTooLarge,
    DeltaSubtraction,
    DeltaTooWide,
    UnsignedDeltaDecreases,
    DictionaryValueTooLarge,
    RleInterval,
    RleRowIndexOverflow,
    PatchInterval,
    PatchExceptionTooLarge,
    NullableInterval,
    AllNull,
    /// The block of an index is not addressable.
    IndexBlockOverflow,
    /// The end of a range and the gap after it are not addressable.
    CoalescingGapOverflow,
    BloomArguments,
    /// A filter of this size is not addressable.
    BloomTooLarge,
    MinMaxArguments,
    /// Bounds of this size are not addressable.
    MinMaxTooLarge,
    FenceArguments,
    FenceDecreases,
    /// An equality is refined over blocks that are not stated to be candidates.
    EqNotCandidates,
    /// A membership is refined over blocks that are not stated to be candidates.
    InNotCandidates,
    CandidateOverflow,
    CandidateOutside,
    StaticForOverflow,
    StaticForSpanOverflow,
    StaticDeltaCodeNull,
    StaticDeltaCodeTooLarge,
    StaticDeltaOverflow,
    StaticDeltaSpanOverflow,
    StaticRleRowOverflow,
    StaticIdNull,
    StaticIdTooLarge,
    StaticIdOutside,
    StaticPatchesNotOrdered,
    /// A run of rows that are not null is not addressable among the compact rows.
    StaticSpanOverflow,
    StaticGetOutside,
    StaticGetTooLarge,
    StaticRowsInvalid,
    StaticProductOverflow,
    StaticSumOverflow,
    StaticBoundsInvalid,
    StaticMonotoneInvalid,
    StaticPiecewiseInvalid,
    StaticDictionaryInvalid,
    /// Values that are stated to be dense and in order include a null.
    MonotoneNull,
    MonotoneArbitrary,
    PiecewiseNull,
    /// More rows were decoded than can be counted.
    DecodedRowsOverflow,
}

} // verus!
