//! Reading fields of a page, and the account of what was read.
use super::access::AccessSet;
#[allow(unused_imports)]
use super::access::field_bytes;
use super::bytes::{get_bits, get_u32, get_u64, to_signed};
#[allow(unused_imports)]
use super::bytes::{bits_at, i64_at, lemma_bits_same, u32_at};
use super::codec::decode_frame;
#[allow(unused_imports)]
use super::codec::frame_content;
use super::error::Error;
use super::format::SerializedPage;
use super::ids::{FieldId, FrameId};
use super::layout::{sum_below, FieldLocation};
#[allow(unused_imports)]
use super::layout::{
    all_below, layout_error, lemma_floor, lemma_scale, lemma_scale_next, lemma_valid_field,
    lemma_valid_frame, Layout,
};
use super::span::{contains, merge_spans, uncovered, Span};
#[allow(unused_imports)]
use super::span::{
    all_wf, covers, holds_span, is_merged, lemma_covers_concat, lemma_touch_cover, lemma_uncovered,
    merged, separated, total, touches, uncovered_parts,
};
use vstd::prelude::*;

verus! {

#[derive(Clone, Copy, Debug, PartialEq, Eq, Structural)]
pub enum ClosureMode {
    Selective,
    FullPage,
}

#[derive(Clone, Copy, Debug, PartialEq, Eq, Structural)]
pub struct AccessMetrics {
    pub logical_bytes: usize,
    pub delivered_bytes: usize,
    pub transferred_bytes: usize,
    pub transfer_operations: usize,
    pub frames_decoded: usize,
}

enum ReadSource<'a> {
    Memory,
    Bytes { bytes: &'a [u8], base_offset: usize },
}

// ----- what a read gives and what it does to the account -----

/// What reads depend on: the layout, the stored bytes, and how the session was
/// opened.
pub struct Context {
    pub layout: Layout,
    pub content: Seq<u8>,
    pub mode: ClosureMode,
    pub accounted: bool,
    pub memory: bool,
}

/// The account of a session: the field bytes asked for, the file ranges
/// delivered, those transferred and in how many operations, the frames decoded,
/// and the number of values read.
#[verifier::ext_equal]
pub struct Ledger {
    pub logical: Set<(FieldId, int)>,
    pub delivered: Seq<Span>,
    pub transferred: Seq<Span>,
    pub operations: nat,
    pub frames: Set<int>,
    pub values: nat,
}

/// One step of reading: values are counted, or a range of a field is read.
pub enum Event {
    Values(int),
    Read { field: FieldId, start: int, end: int },
}

/// The largest count there is, at most.
pub open spec fn capped(n: int) -> nat {
    if n > usize::MAX {
        usize::MAX as nat
    } else {
        n as nat
    }
}

/// What frame `k` decompresses to.
pub open spec fn decoded(context: Context, k: int) -> Option<Seq<u8>> {
    let frame = context.layout.frames[k];
    frame_content(
        context.content.subrange(frame.offset as int, frame.offset + frame.compressed_length),
        frame.decoded_length,
    )
}

/// What bytes `start..end` of a field are.
pub open spec fn read_bytes(context: Context, field: FieldId, start: int, end: int) -> Result<
    Seq<u8>,
    Error,
> {
    if field.0 >= context.layout.fields.len() {
        Err(Error::ReadFieldAbsent(field.0))
    } else if end > context.layout.fields[field.0 as int].length {
        Err(Error::ReadExceedsField(field.0))
    } else {
        match context.layout.fields[field.0 as int].location {
            FieldLocation::Direct { offset } => Ok(
                context.content.subrange(offset + start, offset + end),
            ),
            FieldLocation::Framed { frame, decoded_offset } => match decoded(
                context,
                frame.0 as int,
            ) {
                None => Err(Error::FrameDecompression),
                Some(content) => if decoded_offset + end > content.len() {
                    Err(Error::FrameTooShort(frame.0))
                } else {
                    Ok(content.subrange(decoded_offset + start, decoded_offset + end))
                },
            },
        }
    }
}

pub open spec fn ceil_div(a: int, d: int) -> int {
    (a + (d - 1)) / d
}

/// The file range that is delivered for a range of a direct field.
pub open spec fn direct_delivery(context: Context, field: int, start: int, end: int) -> Span {
    let layout = context.layout.fields[field];
    let granule = layout.read_granularity as int;
    let reached = ceil_div(end, granule) * granule;
    match (context.mode, layout.location) {
        (ClosureMode::Selective, FieldLocation::Direct { offset }) => Span {
            start: (offset + start / granule * granule) as usize,
            end: (offset + if reached < layout.length {
                reached
            } else {
                layout.length as int
            }) as usize,
        },
        _ => Span { start: 0, end: context.content.len() as usize },
    }
}

/// The file range that is delivered for a frame.
pub open spec fn frame_delivery(context: Context, k: int) -> Span {
    let frame = context.layout.frames[k];
    match context.mode {
        ClosureMode::Selective => Span {
            start: frame.offset,
            end: (frame.offset + frame.compressed_length) as usize,
        },
        ClosureMode::FullPage => Span { start: 0, end: context.content.len() as usize },
    }
}

/// The account after a file range was delivered: what was not transferred yet is.
pub open spec fn after_delivery(ledger: Ledger, span: Span) -> Ledger {
    if holds_span(ledger.delivered, span) {
        ledger
    } else {
        let new = uncovered_parts(ledger.transferred, span);
        Ledger {
            delivered: merged(ledger.delivered.push(span)),
            transferred: merged(ledger.transferred + new),
            operations: capped((ledger.operations + new.len()) as int),
            ..ledger
        }
    }
}

/// Deliveries are accounted for where something is accounted or moved.
pub open spec fn after_transfer(context: Context, ledger: Ledger, span: Span) -> Ledger {
    if context.accounted || !context.memory {
        after_delivery(ledger, span)
    } else {
        ledger
    }
}

/// The account after one step.
pub open spec fn after_event(context: Context, ledger: Ledger, event: Event) -> Ledger {
    match event {
        Event::Values(count) => if context.accounted {
            Ledger { values: capped(ledger.values + count), ..ledger }
        } else {
            ledger
        },
        Event::Read { field, start, end } => if field.0 >= context.layout.fields.len() || end
            > context.layout.fields[field.0 as int].length {
            ledger
        } else {
            let asked = if context.accounted {
                Ledger { logical: ledger.logical.union(field_bytes(field, start, end)), ..ledger }
            } else {
                ledger
            };
            match context.layout.fields[field.0 as int].location {
                FieldLocation::Direct { .. } => after_transfer(
                    context,
                    asked,
                    direct_delivery(context, field.0 as int, start, end),
                ),
                FieldLocation::Framed { frame, .. } => after_frame(context, asked, frame.0 as int),
            }
        },
    }
}

/// The account after a frame was needed.
pub open spec fn after_frame(context: Context, ledger: Ledger, k: int) -> Ledger {
    if ledger.frames.contains(k) {
        ledger
    } else {
        let moved = after_transfer(context, ledger, frame_delivery(context, k));
        match decoded(context, k) {
            Some(_) => Ledger { frames: moved.frames.insert(k), ..moved },
            None => moved,
        }
    }
}

/// The account after some steps.
#[verifier::opaque]
pub open spec fn replay(context: Context, ledger: Ledger, trace: Seq<Event>) -> Ledger
    decreases trace.len(),
{
    if trace.len() == 0 {
        ledger
    } else {
        after_event(context, replay(context, ledger, trace.drop_last()), trace.last())
    }
}

pub open spec fn empty_ledger() -> Ledger {
    Ledger {
        logical: Set::empty(),
        delivered: Seq::empty(),
        transferred: Seq::empty(),
        operations: 0,
        frames: Set::empty(),
        values: 0,
    }
}

/// Replaying in two parts is replaying all.
pub proof fn lemma_replay(context: Context, ledger: Ledger, a: Seq<Event>, b: Seq<Event>)
    ensures
        replay(context, replay(context, ledger, a), b) == replay(context, ledger, a + b),
    decreases b.len(),
{
    reveal_with_fuel(replay, 1);
    if b.len() == 0 {
        assert(a + b =~= a);
    } else {
        lemma_replay(context, ledger, a, b.drop_last());
        assert((a + b).drop_last() =~= a + b.drop_last());
    }
}

pub proof fn lemma_replay_one(context: Context, ledger: Ledger, event: Event)
    ensures
        replay(context, ledger, seq![event]) == after_event(context, ledger, event),
{
    reveal_with_fuel(replay, 2);
    let one = seq![event];
    assert(one.drop_last() =~= Seq::<Event>::empty());
    assert(replay(context, ledger, one.drop_last()) == ledger);
}

/// Nothing happens in no steps.
pub proof fn lemma_replay_none(context: Context, ledger: Ledger)
    ensures
        replay(context, ledger, Seq::empty()) == ledger,
{
    reveal_with_fuel(replay, 1);
}

/// A result, and the steps that were taken to get it.
pub struct Outcome<T> {
    pub result: Result<T, Error>,
    pub trace: Seq<Event>,
}

pub open spec fn counted<T>(count: int, rest: Outcome<T>) -> Outcome<T> {
    Outcome { result: rest.result, trace: seq![Event::Values(count)] + rest.trace }
}

/// Reading a range of a field.
pub open spec fn range_outcome(context: Context, field: FieldId, start: int, end: int) -> Outcome<
    Seq<u8>,
> {
    Outcome {
        result: read_bytes(context, field, start, end),
        trace: seq![Event::Read { field, start, end }],
    }
}

/// The number read from the bytes of an outcome.
pub open spec fn decode_with<T>(read: Outcome<Seq<u8>>, decode: spec_fn(Seq<u8>) -> T) -> Outcome<T> {
    Outcome {
        result: match read.result {
            Ok(bytes) => Ok(decode(bytes)),
            Err(e) => Err(e),
        },
        trace: read.trace,
    }
}

pub open spec fn failed<T>(e: Error) -> Outcome<T> {
    Outcome { result: Err(e), trace: Seq::empty() }
}

/// What comes of one step followed by others that depend on its result.
pub open spec fn chain<A, B>(first: Outcome<A>, rest: spec_fn(A) -> Outcome<B>) -> Outcome<B> {
    match first.result {
        Err(e) => Outcome { result: Err(e), trace: first.trace },
        Ok(value) => {
            let second = rest(value);
            Outcome { result: second.result, trace: first.trace + second.trace }
        },
    }
}

/// A result that takes no step.
pub open spec fn given<T>(value: T) -> Outcome<T> {
    Outcome { result: Ok(value), trace: Seq::empty() }
}

pub open spec fn u8_outcome(context: Context, field: FieldId, offset: int) -> Outcome<u8> {
    counted(
        1,
        decode_with(range_outcome(context, field, offset, offset + 1), |bytes: Seq<u8>| bytes[0]),
    )
}

pub open spec fn u32_outcome(context: Context, field: FieldId, index: int) -> Outcome<u32> {
    counted(
        1,
        if index * 4 > usize::MAX {
            failed(Error::FieldOffsetOverflow)
        } else {
            decode_with(
                range_outcome(context, field, index * 4, index * 4 + 4),
                |bytes: Seq<u8>| u32_at(bytes, 0),
            )
        },
    )
}

pub open spec fn i64_outcome(context: Context, field: FieldId, index: int) -> Outcome<i64> {
    counted(
        1,
        if index * 8 > usize::MAX {
            failed(Error::FieldOffsetOverflow)
        } else {
            decode_with(
                range_outcome(context, field, index * 8, index * 8 + 8),
                |bytes: Seq<u8>| i64_at(bytes, 0),
            )
        },
    )
}

pub open spec fn i64_values_outcome(context: Context, field: FieldId, start: int, end: int) -> Outcome<
    Seq<i64>,
> {
    if start > end {
        failed(Error::InvalidFieldRange)
    } else {
        counted(
            end - start,
            if end * 8 > usize::MAX {
                failed(Error::FieldOffsetOverflow)
            } else {
                decode_with(
                    range_outcome(context, field, start * 8, end * 8),
                    |bytes: Seq<u8>|
                        Seq::new((end - start) as nat, |i: int| i64_at(bytes, 8 * i)),
                )
            },
        )
    }
}

/// The byte in which a packed value starts.
#[verifier::opaque]
pub open spec fn packed_byte(row: int, width: int, rows: int, bytes: int) -> int {
    row / rows * bytes + row % rows * width / 8
}

/// The bit of that byte in which the value starts.
#[verifier::opaque]
pub open spec fn packed_bit(row: int, width: int, rows: int) -> int {
    row % rows * width % 8
}

/// The byte after those that hold a packed value.
pub open spec fn packed_end(row: int, width: int, rows: int, bytes: int) -> int {
    packed_byte(row, width, rows, bytes) + ceil_div(packed_bit(row, width, rows) + width, 8)
}

/// Why a packed value's place is not addressable.
pub open spec fn packed_error(row: int, width: int, rows: int, bytes: int) -> Option<Error> {
    if row % rows * width > usize::MAX {
        Some(Error::PackedBitOverflow)
    } else if packed_byte(row, width, rows, bytes) > usize::MAX {
        Some(Error::PackedByteOverflow)
    } else {
        None
    }
}

/// Reading one packed value.
pub open spec fn bits_outcome(
    context: Context,
    field: FieldId,
    row: int,
    width: int,
    rows: int,
    bytes: int,
) -> Outcome<u64> {
    counted(
        1,
        if width == 0 {
            Outcome { result: Ok(0u64), trace: Seq::empty() }
        } else if width > 64 || rows == 0 || bytes == 0 {
            failed(Error::InvalidBitParameters)
        } else {
            match packed_error(row, width, rows, bytes) {
                Some(e) => failed(e),
                None => decode_with(
                    range_outcome(
                        context,
                        field,
                        packed_byte(row, width, rows, bytes),
                        packed_end(row, width, rows, bytes),
                    ),
                    |read: Seq<u8>|
                        bits_at(read, packed_bit(row, width, rows), width as nat) as u64,
                ),
            }
        },
    )
}

/// The packed values of rows `start..end`, in bytes that begin with the first
/// value's.
pub open spec fn unpacked(
    read: Seq<u8>,
    start: int,
    end: int,
    width: int,
    rows: int,
    bytes: int,
) -> Seq<u64> {
    let first = packed_byte(start, width, rows, bytes);
    Seq::new((end - start) as nat, |i: int|
        bits_at(
            read,
            8 * (packed_byte(start + i, width, rows, bytes) - first) + packed_bit(
                start + i,
                width,
                rows,
            ),
            width as nat,
        ) as u64)
}

/// Reading the packed values of rows `start..end`.
pub open spec fn bit_values_outcome(
    context: Context,
    field: FieldId,
    start: int,
    end: int,
    width: int,
    rows: int,
    bytes: int,
) -> Outcome<Seq<u64>> {
    counted(
        end - start,
        if width == 0 {
            Outcome {
                result: Ok(Seq::new((end - start) as nat, |i: int| 0u64)),
                trace: Seq::empty(),
            }
        } else if width > 64 || rows == 0 || bytes == 0 {
            failed(Error::InvalidBitParameters)
        } else if start == end {
            Outcome { result: Ok(Seq::empty()), trace: Seq::empty() }
        } else if packed_error(start, width, rows, bytes) is Some {
            failed(packed_error(start, width, rows, bytes)->0)
        } else if packed_error(end - 1, width, rows, bytes) is Some {
            failed(packed_error(end - 1, width, rows, bytes)->0)
        } else if rows * width > usize::MAX {
            failed(Error::PackedBitOverflow)
        } else if packed_byte(start, width, rows, bytes) > packed_end(end - 1, width, rows, bytes) {
            failed(
                Error::InvalidSpan {
                    start: packed_byte(start, width, rows, bytes) as usize,
                    end: packed_end(end - 1, width, rows, bytes) as usize,
                },
            )
        } else {
            let read = range_outcome(
                context,
                field,
                packed_byte(start, width, rows, bytes),
                packed_end(end - 1, width, rows, bytes),
            );
            Outcome {
                result: match read.result {
                    Err(e) => Err(e),
                    Ok(read) => if packed_in_order(start, end, width, rows, bytes) {
                        Ok(unpacked(read, start, end, width, rows, bytes))
                    } else {
                        Err(Error::InvalidBitParameters)
                    },
                },
                trace: read.trace,
            }
        },
    )
}

/// Every packed value of rows `start..end` lies between the start of the first
/// and the end of the last. It does where a miniblock has room for its rows.
pub open spec fn packed_in_order(start: int, end: int, width: int, rows: int, bytes: int) -> bool {
    forall|row: int|
        start <= row < end ==> packed_byte(start, width, rows, bytes) <= #[trigger] packed_byte(
            row,
            width,
            rows,
            bytes,
        ) && packed_end(row, width, rows, bytes) <= packed_end(end - 1, width, rows, bytes)
}

/// Reads fields of a page and keeps account.
pub struct ReadSession<'a> {
    page: &'a SerializedPage,
    mode: ClosureMode,
    logical: AccessSet,
    delivered: Vec<Span>,
    transferred: Vec<Span>,
    storage_cache: Vec<u8>,
    frames: Vec<Option<Vec<u8>>>,
    source: ReadSource<'a>,
    transfer_operations: usize,
    frames_decoded: usize,
    track_access: bool,
    primitive_values_read: usize,
}

impl<'a> View for ReadSession<'a> {
    type V = Ledger;

    closed spec fn view(&self) -> Ledger {
        Ledger {
            logical: self.logical@,
            delivered: self.delivered@,
            transferred: self.transferred@,
            operations: self.transfer_operations as nat,
            frames: Set::new(|k: int| 0 <= k < self.frames@.len() && self.frames@[k] is Some),
            values: self.primitive_values_read as nat,
        }
    }
}

impl<'a> ReadSession<'a> {
    /// What reads of this session depend on.
    pub closed spec fn context(&self) -> Context {
        Context {
            layout: self.page.plan(),
            content: match self.source {
                ReadSource::Memory => self.page.image(),
                ReadSource::Bytes { bytes, base_offset } => bytes@.subrange(
                    base_offset as int,
                    base_offset + self.page.image().len(),
                ),
            },
            mode: self.mode,
            accounted: self.track_access,
            memory: self.source is Memory,
        }
    }

    /// The page that is read.
    pub closed spec fn page(&self) -> &SerializedPage {
        self.page
    }

    pub closed spec fn wf(&self) -> bool {
        let size = self.page.image().len() as int;
        let context = self.context();
        &&& self.page.wf()
        &&& self.logical.wf()
        &&& separated(self.delivered@)
        &&& separated(self.transferred@)
        &&& all_below(self.delivered@, size)
        &&& all_below(self.transferred@, size)
        &&& self.frames@.len() == context.layout.frames.len()
        &&& forall|k: int|
            0 <= k < self.frames@.len() ==> ((#[trigger] self.frames@[k]) matches Some(held)
                ==> decoded(context, k) == Some(held@))
        &&& self@.frames.finite()
        &&& self.frames_decoded == self@.frames.len()
        &&& match self.source {
            ReadSource::Memory => true,
            ReadSource::Bytes { bytes, base_offset } => {
                &&& base_offset + size <= bytes@.len()
                &&& self.storage_cache@.len() == size
                &&& forall|b: int| #[trigger]
                    covers(self.delivered@, b) ==> covers(self.transferred@, b)
                &&& forall|b: int|
                    0 <= b < size && covers(self.transferred@, b) ==> #[trigger] self.storage_cache@[b]
                        == bytes@[base_offset + b]
            },
        }
    }

    pub proof fn lemma_context(&self)
        requires
            self.wf(),
        ensures
            layout_error(self.context().layout) is None,
            self.context().layout.file_length == self.context().content.len(),
            self.context().content.len() <= usize::MAX,
    {
        self.page.lemma_wf();
    }

    fn open(
        page: &'a SerializedPage,
        mode: ClosureMode,
        source: ReadSource<'a>,
        storage_cache: Vec<u8>,
        track_access: bool,
    ) -> (r: ReadSession<'a>)
        requires
            page.wf(),
            match source {
                ReadSource::Memory => true,
                ReadSource::Bytes { bytes, base_offset } => base_offset + page.image().len()
                    <= bytes@.len() && storage_cache@.len() == page.image().len(),
            },
        ensures
            r.wf(),
            r@ == empty_ledger(),
            r.page() == page,
            r.context() == (Context {
                layout: page.plan(),
                content: match source {
                    ReadSource::Memory => page.image(),
                    ReadSource::Bytes { bytes, base_offset } => bytes@.subrange(
                        base_offset as int,
                        base_offset + page.image().len(),
                    ),
                },
                mode,
                accounted: track_access,
                memory: source is Memory,
            }),
    {
        let count: usize = page.layout().frames.len();
        let mut frames: Vec<Option<Vec<u8>>> = Vec::new();
        let mut k: usize = 0;
        while k < count
            invariant
                k <= count,
                frames@.len() == k,
                forall|i: int| 0 <= i < k ==> (#[trigger] frames@[i]) is None,
            decreases count - k,
        {
            frames.push(None);
            k = k + 1;
        }
        let r = ReadSession {
            page,
            mode,
            logical: AccessSet::default(),
            delivered: Vec::new(),
            transferred: Vec::new(),
            storage_cache,
            frames,
            source,
            transfer_operations: 0,
            frames_decoded: 0,
            track_access,
            primitive_values_read: 0,
        };
        proof {
            assert(r@.frames =~= Set::<int>::empty());
            assert(r@ =~= empty_ledger());
        }
        r
    }

    /// A session on the page's own bytes.
    pub fn new(page: &'a SerializedPage, mode: ClosureMode) -> (r: ReadSession<'a>)
        requires
            page.wf(),
        ensures
            r.wf(),
            r@ == empty_ledger(),
            r.page() == page,
            r.context() == page_context(page, mode, true),
    {
        ReadSession::open(page, mode, ReadSource::Memory, Vec::new(), true)
    }

    /// A session on the page's own bytes that keeps no account.
    pub fn new_untracked(page: &'a SerializedPage, mode: ClosureMode) -> (r: ReadSession<'a>)
        requires
            page.wf(),
        ensures
            r.wf(),
            r@ == empty_ledger(),
            r.page() == page,
            r.context() == page_context(page, mode, false),
    {
        ReadSession::open(page, mode, ReadSource::Memory, Vec::new(), false)
    }

    /// A session on bytes that hold the page from an offset.
    pub fn from_bytes(
        page: &'a SerializedPage,
        mode: ClosureMode,
        bytes: &'a [u8],
        base_offset: usize,
    ) -> (r: Result<ReadSession<'a>, Error>)
        requires
            page.wf(),
        ensures
            if base_offset + page.image().len() > usize::MAX {
                r matches Err(e) && e == Error::MappedOffsetOverflow
            } else if base_offset + page.image().len() > bytes@.len() {
                r matches Err(e) && e == Error::MappedOutside
            } else {
                r matches Ok(session) && session.wf() && session@ == empty_ledger()
                    && session.page() == page && session.context() == (Context {
                    layout: page.plan(),
                    content: bytes@.subrange(
                        base_offset as int,
                        base_offset + page.image().len(),
                    ),
                    mode,
                    accounted: true,
                    memory: false,
                })
            },
    {
        let size: usize = page.bytes().len();
        let end: usize = match base_offset.checked_add(size) {
            Some(end) => end,
            None => {
                return Err(Error::MappedOffsetOverflow);
            },
        };
        if end > bytes.len() {
            return Err(Error::MappedOutside);
        }
        let mut cache: Vec<u8> = Vec::new();
        while cache.len() < size
            invariant
                cache@.len() <= size,
            decreases size - cache@.len(),
        {
            cache.push(0);
        }
        Ok(
            ReadSession::open(
                page,
                mode,
                ReadSource::Bytes { bytes, base_offset },
                cache,
                true,
            ),
        )
    }

    /// The account in numbers, if its bytes can be counted.
    pub(crate) fn checked_metrics(&self) -> (r: Option<AccessMetrics>)
        requires
            self.wf(),
        ensures
            match r {
                Some(metrics) => metrics == metrics_of(self.context(), self@) && (
                self.context().accounted ==> self@.logical.len() <= usize::MAX),
                None => self.context().accounted && self@.logical.len() > usize::MAX,
            },
    {
        if !self.track_access {
            return Some(
                AccessMetrics {
                    logical_bytes: 0,
                    delivered_bytes: 0,
                    transferred_bytes: 0,
                    transfer_operations: 0,
                    frames_decoded: 0,
                },
            );
        }
        let size: usize = self.page.bytes().len();
        match self.logical.checked_bytes() {
            Some(logical_bytes) => Some(
                AccessMetrics {
                    logical_bytes,
                    delivered_bytes: sum_below(&self.delivered, size),
                    transferred_bytes: sum_below(&self.transferred, size),
                    transfer_operations: self.transfer_operations,
                    frames_decoded: self.frames_decoded,
                },
            ),
            None => None,
        }
    }

    /// The account in numbers. A session that keeps none has zeros.
    pub fn metrics(&self) -> (r: AccessMetrics)
        requires
            self.wf(),
            self.context().accounted ==> self@.logical.len() <= usize::MAX,
        ensures
            r == metrics_of(self.context(), self@),
    {
        match self.checked_metrics() {
            Some(metrics) => metrics,
            None => AccessMetrics {
                logical_bytes: 0,
                delivered_bytes: 0,
                transferred_bytes: 0,
                transfer_operations: 0,
                frames_decoded: 0,
            },
        }
    }

    pub fn transferred_ranges(&self) -> (r: &[Span])
        ensures
            r@ == self@.transferred,
    {
        self.transferred.as_slice()
    }

    pub fn primitive_values_read(&self) -> (r: usize)
        ensures
            r == self@.values,
    {
        self.primitive_values_read
    }

    fn record_primitive_values(&mut self, count: usize)
        requires
            old(self).wf(),
        ensures
            final(self).wf(),
            final(self).context() == old(self).context(),
            final(self).page() == old(self).page(),
            final(self)@ == replay(
                old(self).context(),
                old(self)@,
                seq![Event::Values(count as int)],
            ),
    {
        if self.track_access {
            self.primitive_values_read = self.primitive_values_read.saturating_add(count);
        }
        proof {
            lemma_replay_one(old(self).context(), old(self)@, Event::Values(count as int));
            assert(self@.frames =~= old(self)@.frames);
            assert(self@ =~= after_event(
                old(self).context(),
                old(self)@,
                Event::Values(count as int),
            ));
        }
    }

    /// Makes a file range available, and accounts for it.
    fn deliver(&mut self, span: Span)
        requires
            old(self).wf(),
            span.wf(),
            span.end <= old(self).context().content.len(),
        ensures
            final(self).wf(),
            final(self).context() == old(self).context(),
            final(self).page() == old(self).page(),
            final(self)@ == after_delivery(old(self)@, span),
            final(self).frames == old(self).frames,
            forall|b: int| span.has(b) ==> covers(final(self).delivered@, b),
    {
        let ghost before = *self;
        if contains(&self.delivered, span) {
            proof {
                let i = choose|i: int|
                    0 <= i < self.delivered@.len() && (#[trigger] self.delivered@[i]).start
                        <= span.start && span.end <= self.delivered@[i].end;
                assert forall|b: int| span.has(b) implies covers(self.delivered@, b) by {
                    assert(self.delivered@[i].has(b));
                }
            }
            return ;
        }
        let mut new = uncovered(&self.transferred, span);
        let ghost parts = new@;
        proof {
            lemma_uncovered(self.transferred@, span);
        }
        if let ReadSource::Bytes { bytes, base_offset } = &self.source {
            fill(&mut self.storage_cache, *bytes, *base_offset, &new);
        }
        self.transfer_operations = self.transfer_operations.saturating_add(new.len());
        self.delivered.push(span);
        let ghost pushed = self.delivered@;
        merge_spans(&mut self.delivered);
        let ghost joined = self.transferred@ + parts;
        self.transferred.append(&mut new);
        assert(self.transferred@ =~= joined);
        proof {
            assert(all_wf(pushed));
            assert(all_wf(joined));
        }
        merge_spans(&mut self.transferred);
        proof {
            let size = self.page.image().len() as int;
            lemma_merged_below(self.delivered@, pushed, size);
            lemma_merged_below(self.transferred@, joined, size);
            assert(self@.frames =~= before@.frames);
            assert(self@ =~= after_delivery(before@, span));
            assert forall|b: int| #[trigger] covers(self.delivered@, b) == (covers(
                before.delivered@,
                b,
            ) || span.has(b)) by {
                lemma_merged_covers(self.delivered@, pushed, b);
                assert(pushed =~= before.delivered@ + seq![span]);
                lemma_covers_concat(before.delivered@, seq![span], b);
                if span.has(b) {
                    assert(seq![span][0].has(b));
                }
            }
            assert forall|b: int| #[trigger] covers(self.transferred@, b) == (covers(
                before.transferred@,
                b,
            ) || span.has(b)) by {
                lemma_merged_covers(self.transferred@, joined, b);
                lemma_covers_concat(before.transferred@, parts, b);
                assert(covers(parts, b) == (span.has(b) && !covers(before.transferred@, b)));
            }
            if let ReadSource::Bytes { bytes, base_offset } = self.source {
                assert forall|b: int|
                    0 <= b < size && covers(self.transferred@, b) implies #[trigger] self.storage_cache@[b]
                    == bytes@[base_offset + b] by {
                    if covers(before.transferred@, b) {
                        assert(before.storage_cache@[b] == bytes@[base_offset + b]);
                    } else {
                        assert(covers(parts, b));
                    }
                }
            }
        }
    }

    /// Makes a frame available, and accounts for it.
    fn ensure_frame(&mut self, frame_id: FrameId) -> (r: Result<(), Error>)
        requires
            old(self).wf(),
            frame_id.0 < old(self).context().layout.frames.len(),
        ensures
            final(self).wf(),
            final(self).context() == old(self).context(),
            final(self).page() == old(self).page(),
            final(self)@ == after_frame(old(self).context(), old(self)@, frame_id.0 as int),
            match decoded(old(self).context(), frame_id.0 as int) {
                Some(content) => r == Ok::<(), Error>(()) && (
                final(self).frames@[frame_id.0 as int] matches Some(held) && held@ == content),
                None => r == Err::<(), Error>(Error::FrameDecompression),
            },
    {
        let ghost context = self.context();
        let ghost k = frame_id.0 as int;
        if self.frames[frame_id.0].is_some() {
            return Ok(());
        }
        proof {
            self.page.lemma_wf();
            lemma_valid_frame(context.layout, k);
        }
        let frame = self.page.layout().frames[frame_id.0];
        let delivered = match self.mode {
            ClosureMode::Selective => Span {
                start: frame.offset,
                end: frame.offset + frame.compressed_length,
            },
            ClosureMode::FullPage => Span { start: 0, end: self.page.bytes().len() },
        };
        let memory: bool = match &self.source {
            ReadSource::Memory => true,
            _ => false,
        };
        let ghost before = self@;
        if self.track_access || !memory {
            self.deliver(delivered);
        }
        let end: usize = frame.offset + frame.compressed_length;
        let stored = match &self.source {
            ReadSource::Memory => self.page.bytes(),
            _ => self.storage_cache.as_slice(),
        };
        let compressed = vstd::slice::slice_subrange(stored, frame.offset, end);
        proof {
            if let ReadSource::Bytes { bytes, base_offset } = self.source {
                assert forall|i: int| 0 <= i < compressed@.len() implies compressed@[i]
                    == context.content[frame.offset + i] by {
                    let b = frame.offset + i;
                    assert(delivered.has(b));
                    assert(covers(self.delivered@, b));
                    assert(covers(self.transferred@, b));
                    assert(self.storage_cache@[b] == bytes@[base_offset + b]);
                }
            }
            assert(compressed@ =~= context.content.subrange(frame.offset as int, end as int));
        }
        match decode_frame(compressed, frame.decoded_length) {
            Ok(content) => {
                let ghost moved = *self;
                let count: usize = self.frames.len();
                proof {
                    assert(moved.frames@.len() == count);
                    assert(!moved@.frames.contains(k));
                    vstd::set_lib::lemma_int_range(0, moved.frames@.len() as int);
                    let range = vstd::set_lib::set_int_range(0, moved.frames@.len() as int);
                    assert(moved@.frames.insert(k).subset_of(range));
                    vstd::set_lib::lemma_len_subset(moved@.frames.insert(k), range);
                }
                self.frames.set(frame_id.0, Some(content));
                self.frames_decoded = self.frames_decoded + 1;
                proof {
                    assert(self@.frames =~= moved@.frames.insert(k));
                    assert(self@ =~= after_frame(context, before, k));
                }
                Ok(())
            },
            Err(e) => {
                assert(self@ =~= after_frame(context, before, k));
                Err(e)
            },
        }
    }

    /// This session after the steps of a trace from an earlier state.
    pub open spec fn follows(self, before: ReadSession<'a>, trace: Seq<Event>) -> bool {
        &&& self.wf()
        &&& self.context() == before.context()
        &&& self.page() == before.page()
        &&& self@ == replay(before.context(), before@, trace)
    }

    /// Steps one after the other.
    pub proof fn lemma_join(
        self,
        middle: ReadSession<'a>,
        before: ReadSession<'a>,
        first: Seq<Event>,
        second: Seq<Event>,
    )
        requires
            middle.follows(before, first),
            self.follows(middle, second),
        ensures
            self.follows(before, first + second),
    {
        lemma_replay(before.context(), before@, first, second);
    }

    /// No step.
    pub proof fn lemma_still(self)
        requires
            self.wf(),
        ensures
            self.follows(self, Seq::empty()),
    {
        lemma_replay_none(self.context(), self@);
    }

    /// Reads `count` bytes of a field.
    fn read_at(&mut self, field: FieldId, start: usize, count: usize) -> (r: Result<&[u8], Error>)
        requires
            old(self).wf(),
        ensures
            final(self).follows(
                *old(self),
                range_outcome(old(self).context(), field, start as int, start + count).trace,
            ),
            match read_bytes(old(self).context(), field, start as int, start + count) {
                Ok(bytes) => r matches Ok(read) && read@ == bytes,
                Err(e) => r matches Err(found) && found == e,
            },
    {
        match start.checked_add(count) {
            Some(end) => self.read_range(field, Span { start, end }),
            None => {
                proof {
                    lemma_replay_one(
                        self.context(),
                        self@,
                        Event::Read { field, start: start as int, end: start + count },
                    );
                }
                if field.0 >= self.page.layout().fields.len() {
                    Err(Error::ReadFieldAbsent(field.0))
                } else {
                    Err(Error::ReadExceedsField(field.0))
                }
            },
        }
    }

    pub fn read_u8(&mut self, field: FieldId, offset: usize) -> (r: Result<u8, Error>)
        requires
            old(self).wf(),
        ensures
            final(self).follows(
                *old(self),
                u8_outcome(old(self).context(), field, offset as int).trace,
            ),
            r == u8_outcome(old(self).context(), field, offset as int).result,
    {
        let ghost context = self.context();
        let ghost start_ledger = self@;
        proof {
            self.lemma_context();
        }
        self.record_primitive_values(1);
        proof {
            lemma_replay(
                context,
                start_ledger,
                seq![Event::Values(1)],
                seq![Event::Read { field, start: offset as int, end: offset + 1 }],
            );
        }
        match self.read_at(field, offset, 1) {
            Ok(read) => {
                proof {
                    lemma_read_len(context, field, offset as int, offset + 1);
                }
                Ok(read[0])
            },
            Err(e) => Err(e),
        }
    }

    pub fn read_u32(&mut self, field: FieldId, index: usize) -> (r: Result<u32, Error>)
        requires
            old(self).wf(),
        ensures
            final(self).follows(
                *old(self),
                u32_outcome(old(self).context(), field, index as int).trace,
            ),
            r == u32_outcome(old(self).context(), field, index as int).result,
    {
        let ghost context = self.context();
        let ghost start_ledger = self@;
        proof {
            self.lemma_context();
        }
        self.record_primitive_values(1);
        let ghost counting = seq![Event::Values(1)];
        assert(counting + Seq::<Event>::empty() =~= counting);
        let offset: usize = match index.checked_mul(4) {
            Some(offset) => offset,
            None => {
                return Err(Error::FieldOffsetOverflow);
            },
        };
        proof {
            lemma_replay(
                context,
                start_ledger,
                seq![Event::Values(1)],
                seq![Event::Read { field, start: offset as int, end: offset + 4 }],
            );
        }
        match self.read_at(field, offset, 4) {
            Ok(read) => {
                proof {
                    lemma_read_len(context, field, offset as int, offset + 4);
                }
                Ok(get_u32(read, 0))
            },
            Err(e) => Err(e),
        }
    }

    /// Reads one half of an entry of a field that holds pairs.
    pub(crate) fn read_pair(&mut self, field: FieldId, entry: usize, half: usize) -> (r: Result<
        u32,
        Error,
    >)
        requires
            old(self).wf(),
            half <= 1,
        ensures
            final(self).follows(
                *old(self),
                u32_outcome(old(self).context(), field, entry * 2 + half).trace,
            ),
            r == u32_outcome(old(self).context(), field, entry * 2 + half).result,
    {
        match entry.checked_mul(2) {
            Some(doubled) => if doubled < usize::MAX {
                return self.read_u32(field, doubled + half);
            },
            None => {},
        }
        let ghost counting = seq![Event::Values(1)];
        assert(counting + Seq::<Event>::empty() =~= counting);
        self.record_primitive_values(1);
        Err(Error::FieldOffsetOverflow)
    }

    pub fn read_i64(&mut self, field: FieldId, index: usize) -> (r: Result<i64, Error>)
        requires
            old(self).wf(),
        ensures
            final(self).follows(
                *old(self),
                i64_outcome(old(self).context(), field, index as int).trace,
            ),
            r == i64_outcome(old(self).context(), field, index as int).result,
    {
        let ghost context = self.context();
        let ghost start_ledger = self@;
        proof {
            self.lemma_context();
        }
        self.record_primitive_values(1);
        let ghost counting = seq![Event::Values(1)];
        assert(counting + Seq::<Event>::empty() =~= counting);
        let offset: usize = match index.checked_mul(8) {
            Some(offset) => offset,
            None => {
                return Err(Error::FieldOffsetOverflow);
            },
        };
        proof {
            lemma_replay(
                context,
                start_ledger,
                seq![Event::Values(1)],
                seq![Event::Read { field, start: offset as int, end: offset + 8 }],
            );
        }
        match self.read_at(field, offset, 8) {
            Ok(read) => {
                proof {
                    lemma_read_len(context, field, offset as int, offset + 8);
                }
                Ok(to_signed(get_u64(read, 0)))
            },
            Err(e) => Err(e),
        }
    }

    /// Reads the signed numbers `start..end` of a field.
    pub fn read_i64_values(&mut self, field: FieldId, start: usize, end: usize) -> (r: Result<
        Vec<i64>,
        Error,
    >)
        requires
            old(self).wf(),
        ensures
            final(self).follows(
                *old(self),
                i64_values_outcome(
                    old(self).context(),
                    field,
                    start as int,
                    end as int,
                ).trace,
            ),
            match i64_values_outcome(
                old(self).context(),
                field,
                start as int,
                end as int,
            ).result {
                Ok(values) => r matches Ok(read) && read@ == values,
                Err(e) => r matches Err(found) && found == e,
            },
    {
        let ghost context = self.context();
        proof {
            self.lemma_context();
        }
        if start > end {
            proof {
                lemma_replay_none(context, self@);
            }
            return Err(Error::InvalidFieldRange);
        }
        let ghost start_ledger = self@;
        self.record_primitive_values(end - start);
        let ghost counting = seq![Event::Values(end - start)];
        assert(counting + Seq::<Event>::empty() =~= counting);
        let byte_end: usize = match end.checked_mul(8) {
            Some(offset) => offset,
            None => {
                return Err(Error::FieldOffsetOverflow);
            },
        };
        let byte_start: usize = start * 8;
        proof {
            lemma_replay(
                context,
                start_ledger,
                seq![Event::Values(end - start)],
                seq![Event::Read { field, start: byte_start as int, end: byte_end as int }],
            );
        }
        match self.read_range(field, Span { start: byte_start, end: byte_end }) {
            Ok(read) => {
                proof {
                    lemma_read_len(context, field, byte_start as int, byte_end as int);
                }
                let mut values: Vec<i64> = Vec::new();
                let mut i: usize = 0;
                while i < end - start
                    invariant
                        start <= end,
                        i <= end - start,
                        read@.len() == 8 * (end - start),
                        end * 8 <= usize::MAX,
                        values@.len() == i,
                        forall|k: int| 0 <= k < i ==> #[trigger] values@[k] == i64_at(read@, 8 * k),
                    decreases end - start - i,
                {
                    values.push(to_signed(get_u64(read, 8 * i)));
                    i = i + 1;
                }
                assert(values@ =~= Seq::new(
                    (end - start) as nat,
                    |i: int| i64_at(read@, 8 * i),
                ));
                Ok(values)
            },
            Err(e) => Err(e),
        }
    }

    /// Reads one packed value.
    pub fn read_bits(
        &mut self,
        field: FieldId,
        row: usize,
        width: u8,
        miniblock_rows: usize,
        miniblock_bytes: usize,
    ) -> (r: Result<u64, Error>)
        requires
            old(self).wf(),
        ensures
            final(self).follows(
                *old(self),
                bits_outcome(
                    old(self).context(),
                    field,
                    row as int,
                    width as int,
                    miniblock_rows as int,
                    miniblock_bytes as int,
                ).trace,
            ),
            r == bits_outcome(
                old(self).context(),
                field,
                row as int,
                width as int,
                miniblock_rows as int,
                miniblock_bytes as int,
            ).result,
    {
        let ghost context = self.context();
        let ghost start_ledger = self@;
        proof {
            self.lemma_context();
        }
        self.record_primitive_values(1);
        let ghost counting = seq![Event::Values(1)];
        assert(counting + Seq::<Event>::empty() =~= counting);
        if width == 0 {
            return Ok(0);
        }
        if width > 64 || miniblock_rows == 0 || miniblock_bytes == 0 {
            return Err(Error::InvalidBitParameters);
        }
        let byte_offset: usize = match packed_byte_offset(
            row,
            width,
            miniblock_rows,
            miniblock_bytes,
        ) {
            Ok(offset) => offset,
            Err(e) => {
                return Err(e);
            },
        };
        proof {
            reveal(packed_bit);
            vstd::arithmetic::mul::lemma_mul_nonnegative(
                (row % miniblock_rows) as int,
                width as int,
            );
        }
        let bit: usize = (row % miniblock_rows) * width as usize % 8;
        let byte_count: usize = (bit + width as usize + 7) / 8;
        proof {
            lemma_replay(
                context,
                start_ledger,
                seq![Event::Values(1)],
                seq![Event::Read { field, start: byte_offset as int, end: byte_offset + byte_count }],
            );
        }
        match self.read_at(field, byte_offset, byte_count) {
            Ok(read) => {
                proof {
                    lemma_read_len(context, field, byte_offset as int, byte_offset + byte_count);
                }
                Ok(get_bits(read, bit, width))
            },
            Err(e) => Err(e),
        }
    }

    /// Reads the packed values of a range of rows.
    pub fn read_bit_values(
        &mut self,
        field: FieldId,
        rows: Span,
        width: u8,
        miniblock_rows: usize,
        miniblock_bytes: usize,
    ) -> (r: Result<Vec<u64>, Error>)
        requires
            old(self).wf(),
            rows.wf(),
        ensures
            final(self).follows(
                *old(self),
                bit_values_outcome(
                    old(self).context(),
                    field,
                    rows.start as int,
                    rows.end as int,
                    width as int,
                    miniblock_rows as int,
                    miniblock_bytes as int,
                ).trace,
            ),
            match bit_values_outcome(
                old(self).context(),
                field,
                rows.start as int,
                rows.end as int,
                width as int,
                miniblock_rows as int,
                miniblock_bytes as int,
            ).result {
                Ok(values) => r matches Ok(read) && read@ == values,
                Err(e) => r matches Err(found) && found == e,
            },
    {
        let ghost context = self.context();
        let ghost start_ledger = self@;
        proof {
            self.lemma_context();
        }
        self.record_primitive_values(rows.len());
        let ghost counting = seq![Event::Values(rows.end - rows.start)];
        assert(counting + Seq::<Event>::empty() =~= counting);
        if width == 0 {
            let mut values: Vec<u64> = Vec::new();
            while values.len() < rows.end - rows.start
                invariant
                    rows.wf(),
                    values@.len() <= rows.end - rows.start,
                    forall|k: int| 0 <= k < values@.len() ==> #[trigger] values@[k] == 0,
                decreases rows.end - rows.start - values@.len(),
            {
                values.push(0);
            }
            assert(values@ =~= Seq::new((rows.end - rows.start) as nat, |i: int| 0u64));
            return Ok(values);
        }
        if width > 64 || miniblock_rows == 0 || miniblock_bytes == 0 {
            return Err(Error::InvalidBitParameters);
        }
        if rows.start == rows.end {
            let values: Vec<u64> = Vec::new();
            assert(values@ =~= Seq::<u64>::empty());
            return Ok(values);
        }
        let first: usize = match packed_byte_offset(
            rows.start,
            width,
            miniblock_rows,
            miniblock_bytes,
        ) {
            Ok(offset) => offset,
            Err(e) => {
                return Err(e);
            },
        };
        let last_row: usize = rows.end - 1;
        let last: usize = match packed_byte_offset(last_row, width, miniblock_rows, miniblock_bytes) {
            Ok(offset) => offset,
            Err(e) => {
                return Err(e);
            },
        };
        proof {
            reveal(packed_bit);
            vstd::arithmetic::mul::lemma_mul_nonnegative(
                (last_row % miniblock_rows) as int,
                width as int,
            );
        }
        let last_bit: usize = (last_row % miniblock_rows) * width as usize % 8;
        let tail: usize = (last_bit + width as usize + 7) / 8;
        if miniblock_rows.checked_mul(width as usize).is_none() {
            return Err(Error::PackedBitOverflow);
        }
        if first > last && first - last > tail {
            return Err(Error::InvalidSpan { start: first, end: last + tail });
        }
        let count: usize = if first > last {
            tail - (first - last)
        } else if last - first > usize::MAX - tail {
            proof {
                lemma_replay_one(
                    context,
                    self@,
                    Event::Read { field, start: first as int, end: last + tail },
                );
                lemma_replay(
                    context,
                    start_ledger,
                    seq![Event::Values(rows.end - rows.start)],
                    seq![Event::Read { field, start: first as int, end: last + tail }],
                );
            }
            if field.0 >= self.page.layout().fields.len() {
                return Err(Error::ReadFieldAbsent(field.0));
            } else {
                return Err(Error::ReadExceedsField(field.0));
            }
        } else {
            last - first + tail
        };
        proof {
            lemma_replay(
                context,
                start_ledger,
                seq![Event::Values(rows.end - rows.start)],
                seq![Event::Read { field, start: first as int, end: first + count }],
            );
        }
        match self.read_at(field, first, count) {
            Ok(read) => {
                proof {
                    lemma_read_len(context, field, first as int, first + count);
                }
                unpack(read, first, rows, width, miniblock_rows, miniblock_bytes)
            },
            Err(e) => Err(e),
        }
    }

    /// Reads bytes of a field.
    pub fn read_range(&mut self, field_id: FieldId, span: Span) -> (r: Result<&[u8], Error>)
        requires
            old(self).wf(),
            span.wf(),
        ensures
            final(self).wf(),
            final(self).context() == old(self).context(),
            final(self).page() == old(self).page(),
            final(self)@ == replay(
                old(self).context(),
                old(self)@,
                range_outcome(
                    old(self).context(),
                    field_id,
                    span.start as int,
                    span.end as int,
                ).trace,
            ),
            match read_bytes(old(self).context(), field_id, span.start as int, span.end as int) {
                Ok(bytes) => r matches Ok(read) && read@ == bytes,
                Err(e) => r matches Err(found) && found == e,
            },
    {
        let ghost context = self.context();
        let ghost event = Event::Read {
            field: field_id,
            start: span.start as int,
            end: span.end as int,
        };
        proof {
            lemma_replay_one(context, self@, event);
            self.page.lemma_wf();
        }
        if field_id.0 >= self.page.layout().fields.len() {
            return Err(Error::ReadFieldAbsent(field_id.0));
        }
        let field = &self.page.layout().fields[field_id.0];
        assert(field@ == context.layout.fields[field_id.0 as int]);
        let length: usize = field.length;
        let granule: usize = field.read_granularity;
        let location = field.location;
        if span.end > length {
            return Err(Error::ReadExceedsField(field_id.0));
        }
        proof {
            lemma_valid_field(context.layout, field_id.0 as int);
        }
        let ghost before = self@;
        if self.track_access {
            let _ = self.logical.insert(field_id, span);
        }
        proof {
            assert(self@.frames =~= before.frames);
        }
        let ghost asked = self@;
        match location {
            FieldLocation::Direct { offset } => {
                let delivered = match self.mode {
                    ClosureMode::Selective => granule_range(offset, span, granule, length),
                    ClosureMode::FullPage => Span { start: 0, end: self.page.bytes().len() },
                };
                assert(delivered == direct_delivery(
                    context,
                    field_id.0 as int,
                    span.start as int,
                    span.end as int,
                ));
                let memory: bool = match &self.source {
                    ReadSource::Memory => true,
                    _ => false,
                };
                if self.track_access || !memory {
                    self.deliver(delivered);
                }
                let stored = match &self.source {
                    ReadSource::Memory => self.page.bytes(),
                    _ => self.storage_cache.as_slice(),
                };
                let read = vstd::slice::slice_subrange(
                    stored,
                    offset + span.start,
                    offset + span.end,
                );
                proof {
                    if let ReadSource::Bytes { bytes, base_offset } = self.source {
                        assert forall|i: int| 0 <= i < read@.len() implies read@[i]
                            == context.content[offset + span.start + i] by {
                            let b = offset + span.start + i;
                            assert(delivered.has(b));
                            assert(covers(self.delivered@, b));
                            assert(covers(self.transferred@, b));
                            assert(self.storage_cache@[b] == bytes@[base_offset + b]);
                        }
                    }
                    assert(read@ =~= context.content.subrange(
                        offset + span.start,
                        offset + span.end,
                    ));
                }
                Ok(read)
            },
            FieldLocation::Framed { frame, decoded_offset } => {
                match self.ensure_frame(frame) {
                    Ok(()) => {},
                    Err(e) => {
                        return Err(e);
                    },
                }
                match &self.frames[frame.0] {
                    Some(content) => {
                        if decoded_offset + span.end > content.len() {
                            return Err(Error::FrameTooShort(frame.0));
                        }
                        Ok(
                            vstd::slice::slice_subrange(
                                content.as_slice(),
                                decoded_offset + span.start,
                                decoded_offset + span.end,
                            ),
                        )
                    },
                    None => Err(Error::FrameDecompression),
                }
            },
        }
    }
}

/// The context of a session on a page's own bytes.
pub open spec fn page_context(page: &SerializedPage, mode: ClosureMode, accounted: bool) -> Context {
    Context { layout: page.plan(), content: page.image(), mode, accounted, memory: true }
}

pub open spec fn metrics_of(context: Context, ledger: Ledger) -> AccessMetrics {
    if context.accounted {
        AccessMetrics {
            logical_bytes: ledger.logical.len() as usize,
            delivered_bytes: total(ledger.delivered) as usize,
            transferred_bytes: total(ledger.transferred) as usize,
            transfer_operations: ledger.operations as usize,
            frames_decoded: ledger.frames.len() as usize,
        }
    } else {
        AccessMetrics {
            logical_bytes: 0,
            delivered_bytes: 0,
            transferred_bytes: 0,
            transfer_operations: 0,
            frames_decoded: 0,
        }
    }
}

/// The bytes read are as many as were asked for.
pub proof fn lemma_read_len(context: Context, field: FieldId, start: int, end: int)
    requires
        layout_error(context.layout) is None,
        context.layout.file_length == context.content.len(),
        0 <= start <= end,
    ensures
        read_bytes(context, field, start, end) matches Ok(bytes) ==> bytes.len() == end - start,
{
    if field.0 < context.layout.fields.len() {
        lemma_valid_field(context.layout, field.0 as int);
    }
}

fn packed_byte_offset(row: usize, width: u8, miniblock_rows: usize, miniblock_bytes: usize) -> (r:
    Result<usize, Error>)
    requires
        miniblock_rows > 0,
    ensures
        match packed_error(
            row as int,
            width as int,
            miniblock_rows as int,
            miniblock_bytes as int,
        ) {
            Some(e) => r == Err::<usize, Error>(e),
            None => r == Ok::<usize, Error>(
                packed_byte(
                    row as int,
                    width as int,
                    miniblock_rows as int,
                    miniblock_bytes as int,
                ) as usize,
            ) && 0 <= packed_byte(
                row as int,
                width as int,
                miniblock_rows as int,
                miniblock_bytes as int,
            ),
        },
{
    let block: usize = row / miniblock_rows;
    let in_block: usize = row % miniblock_rows;
    proof {
        reveal(packed_byte);
        vstd::arithmetic::mul::lemma_mul_nonnegative(block as int, miniblock_bytes as int);
        vstd::arithmetic::mul::lemma_mul_nonnegative(in_block as int, width as int);
    }
    let bit_offset: usize = match in_block.checked_mul(width as usize) {
        Some(offset) => offset,
        None => {
            return Err(Error::PackedBitOverflow);
        },
    };
    match block.checked_mul(miniblock_bytes) {
        Some(offset) => match offset.checked_add(bit_offset / 8) {
            Some(sum) => Ok(sum),
            None => Err(Error::PackedByteOverflow),
        },
        None => Err(Error::PackedByteOverflow),
    }
}

/// Unpacks the values of a range of rows from bytes that begin at `first`.
fn unpack(
    read: &[u8],
    first: usize,
    rows: Span,
    width: u8,
    miniblock_rows: usize,
    miniblock_bytes: usize,
) -> (r: Result<Vec<u64>, Error>)
    requires
        rows.start < rows.end,
        0 < width <= 64,
        miniblock_rows > 0,
        miniblock_rows * width <= usize::MAX,
        first == packed_byte(
            rows.start as int,
            width as int,
            miniblock_rows as int,
            miniblock_bytes as int,
        ),
        first + read@.len() == packed_end(
            rows.end - 1,
            width as int,
            miniblock_rows as int,
            miniblock_bytes as int,
        ),
        first + read@.len() <= usize::MAX,
    ensures
        if packed_in_order(
            rows.start as int,
            rows.end as int,
            width as int,
            miniblock_rows as int,
            miniblock_bytes as int,
        ) {
            r matches Ok(values) && values@ == unpacked(
                read@,
                rows.start as int,
                rows.end as int,
                width as int,
                miniblock_rows as int,
                miniblock_bytes as int,
            )
        } else {
            r matches Err(e) && e == Error::InvalidBitParameters
        },
{
    let ghost w = width as int;
    let ghost n = miniblock_rows as int;
    let ghost m = miniblock_bytes as int;
    let size: usize = read.len();
    let mut values: Vec<u64> = Vec::new();
    let mut row: usize = rows.start;
    while row < rows.end
        invariant
            rows.start <= row <= rows.end,
            w == width,
            n == miniblock_rows,
            m == miniblock_bytes,
            0 < width <= 64,
            miniblock_rows > 0,
            miniblock_rows * width <= usize::MAX,
            size == read@.len(),
            first == packed_byte(rows.start as int, w, n, m),
            first + size == packed_end(rows.end - 1, w, n, m),
            first + size <= usize::MAX,
            values@.len() == row - rows.start,
            forall|k: int|
                rows.start <= k < row ==> first <= #[trigger] packed_byte(k, w, n, m) && packed_end(
                    k,
                    w,
                    n,
                    m,
                ) <= first + size,
            forall|i: int|
                0 <= i < values@.len() ==> #[trigger] values@[i] == bits_at(
                    read@,
                    8 * (packed_byte(rows.start + i, w, n, m) - first) + packed_bit(
                        rows.start + i,
                        w,
                        n,
                    ),
                    w as nat,
                ) as u64,
        decreases rows.end - row,
    {
        proof {
            let in_block = row as int % n;
            assert(in_block * w <= n * w) by {
                lemma_scale(in_block, n, w);
            }
        }
        let in_block: usize = row % miniblock_rows;
        proof {
            reveal(packed_bit);
            reveal(packed_byte);
            vstd::arithmetic::mul::lemma_mul_nonnegative(in_block as int, w);
            vstd::arithmetic::mul::lemma_mul_nonnegative(row as int / n, m);
        }
        let bit: usize = in_block * width as usize % 8;
        let tail: usize = (bit + width as usize + 7) / 8;
        assert(packed_end(row as int, w, n, m) == packed_byte(row as int, w, n, m) + tail);
        match packed_byte_offset(row, width, miniblock_rows, miniblock_bytes) {
            Ok(offset) => {
                if offset < first || tail > size || offset - first > size - tail {
                    return Err(Error::InvalidBitParameters);
                }
                let base: usize = offset - first;
                let window = vstd::slice::slice_subrange(read, base, base + tail);
                let value: u64 = get_bits(window, bit, width);
                proof {
                    let p = 8 * base + bit;
                    assert(p % 8 == bit as int % 8 && p / 8 == base);
                    assert forall|i: int|
                        p / 8 <= i && 8 * i < p + width implies #[trigger] read@[i] == window@[i - p
                        / 8 + bit as int / 8] by {
                        assert(window@[i - base] == read@[i]);
                    }
                    lemma_bits_same(read@, window@, p as int, bit as int, width as nat);
                }
                values.push(value);
            },
            Err(_) => {
                return Err(Error::InvalidBitParameters);
            },
        }
        row = row + 1;
    }
    assert(values@ =~= unpacked(read@, rows.start as int, rows.end as int, w, n, m));
    Ok(values)
}

/// The granules of a direct field that hold a range of it.
fn granule_range(offset: usize, span: Span, granule: usize, length: usize) -> (r: Span)
    requires
        granule > 0,
        span.start <= span.end <= length,
        offset + length <= usize::MAX,
    ensures
        r.start == offset + span.start as int / granule as int * granule,
        r.end == offset + if ceil_div(span.end as int, granule as int) * granule < length {
            ceil_div(span.end as int, granule as int) * granule
        } else {
            length as int
        },
        r.start <= offset + span.start,
        offset + span.end <= r.end <= offset + length,
{
    proof {
        lemma_floor(span.start as int, granule as int);
        lemma_ceil(span.end as int, granule as int);
    }
    let start: usize = span.start / granule * granule;
    if span.end == 0 {
        assert(ceil_div(0, granule as int) == 0) by {
            vstd::arithmetic::div_mod::lemma_basic_div(granule - 1, granule as int);
        }
        return Span { start: offset + start, end: offset };
    }
    let last: usize = (span.end - 1) / granule;
    proof {
        lemma_floor(span.end - 1, granule as int);
        lemma_ceil_floor(span.end as int, granule as int);
        lemma_scale_next(last as int, granule as int);
    }
    let reached: usize = last * granule;
    let end: usize = if length - reached <= granule {
        length
    } else {
        reached + granule
    };
    Span { start: offset + start, end: offset + end }
}

pub proof fn lemma_ceil(a: int, d: int)
    requires
        d > 0,
        a >= 0,
    ensures
        a <= ceil_div(a, d) * d < a + d,
{
    lemma_floor(a + (d - 1), d);
}

/// The ceiling of a quotient is one more than the floor of the number before.
pub proof fn lemma_ceil_floor(a: int, d: int)
    requires
        d > 0,
        a > 0,
    ensures
        ceil_div(a, d) == (a - 1) / d + 1,
{
    vstd::arithmetic::div_mod::lemma_div_plus_one(a - 1, d);
}

/// Copies the parts from the backing bytes.
fn fill(cache: &mut Vec<u8>, bytes: &[u8], base: usize, parts: &Vec<Span>)
    requires
        base + old(cache)@.len() <= bytes@.len(),
        all_wf(parts@),
        all_below(parts@, old(cache)@.len() as int),
    ensures
        final(cache)@.len() == old(cache)@.len(),
        forall|b: int|
            0 <= b < final(cache)@.len() ==> #[trigger] final(cache)@[b] == if covers(parts@, b) {
                bytes@[base + b]
            } else {
                old(cache)@[b]
            },
{
    let mut p: usize = 0;
    while p < parts.len()
        invariant
            p <= parts@.len(),
            base + cache@.len() <= bytes@.len(),
            all_wf(parts@),
            all_below(parts@, cache@.len() as int),
            cache@.len() == old(cache)@.len(),
            forall|b: int|
                0 <= b < cache@.len() ==> #[trigger] cache@[b] == if covers(
                    parts@.take(p as int),
                    b,
                ) {
                    bytes@[base + b]
                } else {
                    old(cache)@[b]
                },
        decreases parts@.len() - p,
    {
        let part = parts[p];
        let len: usize = bytes.len();
        let ghost before = cache@;
        let mut i: usize = part.start;
        while i < part.end
            invariant
                part.start <= i <= part.end <= cache@.len(),
                base + cache@.len() <= bytes@.len() <= usize::MAX,
                cache@.len() == before.len(),
                forall|b: int|
                    0 <= b < cache@.len() ==> #[trigger] cache@[b] == if part.start <= b < i {
                        bytes@[base + b]
                    } else {
                        before[b]
                    },
            decreases part.end - i,
        {
            cache.set(i, bytes[base + i]);
            i = i + 1;
        }
        proof {
            assert(parts@.take(p + 1) =~= parts@.take(p as int) + seq![part]);
            assert forall|b: int| 0 <= b < cache@.len() implies #[trigger] cache@[b] == if covers(
                parts@.take(p + 1),
                b,
            ) {
                bytes@[base + b]
            } else {
                old(cache)@[b]
            } by {
                lemma_covers_concat(parts@.take(p as int), seq![part], b);
                if part.has(b) {
                    assert(seq![part][0].has(b));
                }
                assert(before[b] == if covers(parts@.take(p as int), b) {
                    bytes@[base + b]
                } else {
                    old(cache)@[b]
                });
            }
        }
        p = p + 1;
    }
    assert(parts@.take(p as int) =~= parts@);
}

pub proof fn lemma_merged_below(m: Seq<Span>, spans: Seq<Span>, limit: int)
    requires
        is_merged(m, spans),
        all_below(spans, limit),
    ensures
        all_below(m, limit),
{
    assert forall|i: int| 0 <= i < m.len() implies (#[trigger] m[i]).end <= limit by {
        let x = 2 * m[i].end as int;
        assert(m[i].touches(x));
        assert(touches(m, x));
        assert(touches(spans, x));
        let k = choose|k: int| 0 <= k < spans.len() && (#[trigger] spans[k]).touches(x);
        assert(spans[k].end <= limit);
    }
}

pub proof fn lemma_merged_covers(m: Seq<Span>, spans: Seq<Span>, b: int)
    requires
        is_merged(m, spans),
    ensures
        covers(m, b) == covers(spans, b),
{
    lemma_touch_cover(m, b);
    lemma_touch_cover(spans, b);
    assert(touches(m, 2 * b + 1) == touches(spans, 2 * b + 1));
}

} // verus!
