//! The page format: a header that describes the layout, the direct fields, and
//! the compressed frames.
use super::bytes::{get_u32, get_u64};
#[allow(unused_imports)]
use super::bytes::{u32_at, u64_at};
use super::error::Error;
use super::ids::{FieldId, FrameId};
use super::invariants::{CheckedInvariants, NullPlacement};
use super::layout::{DependencyRule, FieldLayout, FieldLocation, FrameCodec, FrameLayout, LayoutIr};
#[allow(unused_imports)]
use super::layout::{layout_error, lemma_floor, Field, Layout};
use super::text::push_decimal;
#[allow(unused_imports)]
use super::text::decimal;
use vstd::prelude::*;

verus! {

pub const VERSION: u32 = 3;

pub const LEGACY_VERSION: u32 = 2;

pub const LEGACY_HEADER_BASE: usize = 32;

pub const HEADER_BASE: usize = 48;

pub const FLAGS_AT: usize = 32;

pub const CHECKSUM_AT: usize = 40;

pub const FIELD_DESC: usize = 48;

pub const FRAME_DESC: usize = 32;

pub const DEPENDENCY_DESC: usize = 32;

pub const PAGE_ALIGNMENT: usize = 64;

/// The bytes that every page starts with.
pub open spec fn magic() -> Seq<u8> {
    seq![0x41u8, 0x43u8, 0x50u8, 0x41u8, 0x47u8, 0x45u8, 0x30u8, 0x31u8]
}

/// The descriptor's statements about the values, one bit each.
pub struct Flags {
    pub non_decreasing: bool,
    pub non_decreasing_non_null: bool,
    pub has_nulls: bool,
    pub nulls_first: bool,
    pub nulls_last: bool,
    pub null_info_known: bool,
}

/// Bit `k` of the flag word, whose value is `bit`.
pub open spec fn flag(word: u32, bit: u32) -> bool {
    (word / bit) % 2 == 1
}

pub open spec fn flags_of(word: u32) -> Flags {
    Flags {
        non_decreasing: flag(word, 1),
        non_decreasing_non_null: flag(word, 2),
        has_nulls: flag(word, 4),
        nulls_first: flag(word, 8),
        nulls_last: flag(word, 16),
        null_info_known: flag(word, 32),
    }
}

/// The flag word of what is stated about the values.
pub open spec fn flag_word(stated: CheckedInvariants) -> u32 {
    (32 + (if stated.non_decreasing {
        1int
    } else {
        0int
    }) + (if stated.non_decreasing_non_null {
        2int
    } else {
        0int
    }) + (match stated.null_placement {
        NullPlacement::NoNulls => 0int,
        NullPlacement::First => 12int,
        NullPlacement::Last => 20int,
        NullPlacement::Arbitrary => 4int,
    })) as u32
}

/// What the flags say of where the nulls lie.
pub open spec fn flagged_placement(flags: Flags) -> Result<NullPlacement, Error> {
    if !flags.has_nulls && !flags.nulls_first && !flags.nulls_last {
        Ok(NullPlacement::NoNulls)
    } else if flags.has_nulls && flags.nulls_first && !flags.nulls_last {
        Ok(NullPlacement::First)
    } else if flags.has_nulls && !flags.nulls_first && flags.nulls_last {
        Ok(NullPlacement::Last)
    } else if flags.has_nulls && !flags.nulls_first && !flags.nulls_last {
        Ok(NullPlacement::Arbitrary)
    } else {
        Err(Error::InconsistentNullFlags)
    }
}

/// Values that do not decrease, nulls and all, have no nulls.
pub open spec fn consistent(stated: CheckedInvariants) -> bool {
    stated.non_decreasing ==> stated.non_decreasing_non_null && stated.null_placement
        == NullPlacement::NoNulls
}

/// What the flag word states about the values.
pub open spec fn flagged(word: u32) -> Result<CheckedInvariants, Error> {
    let flags = flags_of(word);
    let placement = if flags.null_info_known {
        flagged_placement(flags)
    } else if flags.non_decreasing {
        Ok(NullPlacement::NoNulls)
    } else {
        Ok(NullPlacement::Arbitrary)
    };
    if word >= 64 {
        Err(Error::UnknownInvariantFlags)
    } else {
        match placement {
            Err(e) => Err(e),
            Ok(null_placement) => {
                let stated = CheckedInvariants {
                    non_decreasing: flags.non_decreasing,
                    non_decreasing_non_null: flags.non_decreasing_non_null || flags.non_decreasing,
                    null_placement,
                };
                if consistent(stated) {
                    Ok(stated)
                } else {
                    Err(Error::MonotonicityNeedsDense)
                }
            },
        }
    }
}

/// The hash of the header, whose own eight bytes count as zero.
pub open spec fn descriptor_checksum_of(header: Seq<u8>) -> u64
    decreases header.len(),
{
    if header.len() == 0 {
        0xcbf2_9ce4_8422_2325u64
    } else {
        let at = header.len() - 1;
        let byte = if CHECKSUM_AT <= at < CHECKSUM_AT + 8 {
            0u64
        } else {
            header[at] as u64
        };
        (descriptor_checksum_of(header.drop_last()) ^ byte).wrapping_mul(0x1000_0000_01b3u64)
    }
}

/// The next multiple of an alignment.
#[verifier::opaque]
pub open spec fn aligned(value: int, alignment: int) -> int {
    (value + (alignment - 1)) / alignment * alignment
}

/// The length of a header, or why it has none.
pub open spec fn header_size(base: int, fields: int, frames: int, dependencies: int) -> Result<
    int,
    Error,
> {
    let raw = base + fields * FIELD_DESC + frames * FRAME_DESC + dependencies * DEPENDENCY_DESC;
    if fields * FIELD_DESC > usize::MAX {
        Err(Error::FieldHeaderOverflow)
    } else if raw > usize::MAX {
        Err(Error::HeaderOverflow)
    } else if raw + (PAGE_ALIGNMENT - 1) > usize::MAX {
        Err(Error::AlignmentOverflow)
    } else {
        Ok(aligned(raw, PAGE_ALIGNMENT as int))
    }
}

/// The name that a field has when its page is read.
pub open spec fn default_name(index: int) -> Seq<char> {
    if index == 0 {
        "metadata"@
    } else {
        "field_"@ + decimal(index as nat)
    }
}

/// Some eight-byte number among `at` does not fit an address.
pub open spec fn too_large(bytes: Seq<u8>, at: int) -> bool {
    u64_at(bytes, at) > usize::MAX
}

/// The field that descriptor `index` describes.
pub open spec fn parsed_field(bytes: Seq<u8>, base: int, index: int) -> Result<Field, Error> {
    let at = base + index * FIELD_DESC;
    let offset = u64_at(bytes, at + 24) as usize;
    if u32_at(bytes, at) != index {
        Err(Error::FieldIdsNotCanonical)
    } else if too_large(bytes, at + 16) || too_large(bytes, at + 24) {
        Err(Error::HeaderValueTooLarge)
    } else if bytes[at + 4] > 1 {
        Err(Error::InvalidLocationKind(bytes[at + 4]))
    } else {
        Ok(
            Field {
                id: FieldId(index as usize),
                name: default_name(index),
                length: u64_at(bytes, at + 16) as usize,
                alignment: u32_at(bytes, at + 32) as usize,
                read_granularity: u32_at(bytes, at + 36) as usize,
                location: if bytes[at + 4] == 0 {
                    FieldLocation::Direct { offset }
                } else {
                    FieldLocation::Framed {
                        frame: FrameId(u32_at(bytes, at + 8) as usize),
                        decoded_offset: offset,
                    }
                },
            },
        )
    }
}

/// The frame that descriptor `index` describes.
pub open spec fn parsed_frame(bytes: Seq<u8>, base: int, index: int) -> Result<FrameLayout, Error> {
    let at = base + index * FRAME_DESC;
    if u32_at(bytes, at) != index || bytes[at + 4] != 1 {
        Err(Error::InvalidFrameDescriptor)
    } else if too_large(bytes, at + 8) || too_large(bytes, at + 16) || too_large(bytes, at + 24) {
        Err(Error::HeaderValueTooLarge)
    } else {
        Ok(
            FrameLayout {
                id: FrameId(index as usize),
                codec: FrameCodec::Zstd,
                offset: u64_at(bytes, at + 8) as usize,
                compressed_length: u64_at(bytes, at + 16) as usize,
                decoded_length: u64_at(bytes, at + 24) as usize,
                alignment: PAGE_ALIGNMENT,
            },
        )
    }
}

/// The dependency that descriptor `index` describes.
pub open spec fn parsed_dependency(bytes: Seq<u8>, base: int, index: int) -> Result<
    DependencyRule,
    Error,
> {
    let at = base + index * DEPENDENCY_DESC;
    let source = FieldId(u32_at(bytes, at + 4) as usize);
    let prerequisite = FieldId(u32_at(bytes, at + 8) as usize);
    let first = u64_at(bytes, at + 16) as usize;
    let second = u64_at(bytes, at + 24) as usize;
    if too_large(bytes, at + 16) || too_large(bytes, at + 24) {
        Err(Error::HeaderValueTooLarge)
    } else if bytes[at] == 0 {
        Ok(DependencyRule::DependentField { source, prerequisite })
    } else if bytes[at] == 1 {
        Ok(
            DependencyRule::IndexedStream {
                data: source,
                index: prerequisite,
                data_block_bytes: first,
                index_entry_bytes: second,
            },
        )
    } else if bytes[at] == 2 {
        Ok(
            DependencyRule::Restart {
                data: source,
                restarts: prerequisite,
                data_bytes_per_restart: first,
                bytes_per_restart: second,
            },
        )
    } else {
        Err(Error::InvalidDependencyKind(bytes[at]))
    }
}

/// The first `n` fields, or the first fault among them.
pub open spec fn parsed_fields(bytes: Seq<u8>, base: int, n: int) -> Result<Seq<Field>, Error>
    decreases n,
{
    if n <= 0 {
        Ok(Seq::empty())
    } else {
        match parsed_fields(bytes, base, n - 1) {
            Err(e) => Err(e),
            Ok(before) => match parsed_field(bytes, base, n - 1) {
                Err(e) => Err(e),
                Ok(field) => Ok(before.push(field)),
            },
        }
    }
}

/// The first `n` frames, or the first fault among them.
pub open spec fn parsed_frames(bytes: Seq<u8>, base: int, n: int) -> Result<Seq<FrameLayout>, Error>
    decreases n,
{
    if n <= 0 {
        Ok(Seq::empty())
    } else {
        match parsed_frames(bytes, base, n - 1) {
            Err(e) => Err(e),
            Ok(before) => match parsed_frame(bytes, base, n - 1) {
                Err(e) => Err(e),
                Ok(frame) => Ok(before.push(frame)),
            },
        }
    }
}

/// The first `n` dependencies, or the first fault among them.
pub open spec fn parsed_dependencies(bytes: Seq<u8>, base: int, n: int) -> Result<
    Seq<DependencyRule>,
    Error,
>
    decreases n,
{
    if n <= 0 {
        Ok(Seq::empty())
    } else {
        match parsed_dependencies(bytes, base, n - 1) {
            Err(e) => Err(e),
            Ok(before) => match parsed_dependency(bytes, base, n - 1) {
                Err(e) => Err(e),
                Ok(rule) => Ok(before.push(rule)),
            },
        }
    }
}

/// The layout of a page with `header` bytes of header from which `base` are
/// fixed.
pub open spec fn parsed_layout(bytes: Seq<u8>, base: int, header: int) -> Result<Layout, Error> {
    let field_count = u32_at(bytes, 12) as int;
    let frame_count = u32_at(bytes, 16) as int;
    let dependency_count = u32_at(bytes, 20) as int;
    let frames_at = base + field_count * FIELD_DESC;
    let dependencies_at = frames_at + frame_count * FRAME_DESC;
    match parsed_fields(bytes, base, field_count) {
        Err(e) => Err(e),
        Ok(fields) => match parsed_frames(bytes, frames_at, frame_count) {
            Err(e) => Err(e),
            Ok(frames) => match parsed_dependencies(bytes, dependencies_at, dependency_count) {
                Err(e) => Err(e),
                Ok(dependencies) => {
                    let layout = Layout {
                        metadata: FieldId(0),
                        fields,
                        frames,
                        dependencies,
                        file_length: bytes.len() as usize,
                    };
                    match layout_error(layout) {
                        Some(e) => Err(e),
                        None => if fields[0].length != header || fields[0].location != (
                        FieldLocation::Direct { offset: 0 }) {
                            Err(Error::MetadataNotHeader)
                        } else {
                            Ok(layout)
                        },
                    }
                },
            },
        },
    }
}

/// What a header states about the values. The older version states nothing.
pub open spec fn stated_in(bytes: Seq<u8>, header: int) -> Result<CheckedInvariants, Error> {
    if u32_at(bytes, 8) != VERSION {
        Ok(
            CheckedInvariants {
                non_decreasing: false,
                non_decreasing_non_null: false,
                null_placement: NullPlacement::Arbitrary,
            },
        )
    } else if u32_at(bytes, FLAGS_AT as int) >= 64 {
        Err(Error::UnknownInvariantFlags)
    } else if u64_at(bytes, CHECKSUM_AT as int) != descriptor_checksum_of(bytes.take(header)) {
        Err(Error::ChecksumMismatch)
    } else {
        flagged(u32_at(bytes, FLAGS_AT as int))
    }
}

/// The length of a page's header and that of its fixed part, or the first fault
/// in the fixed part.
pub open spec fn header_of(bytes: Seq<u8>) -> Result<(int, int), Error> {
    let version = u32_at(bytes, 8);
    let base = if version == LEGACY_VERSION {
        LEGACY_HEADER_BASE as int
    } else {
        HEADER_BASE as int
    };
    if bytes.len() < LEGACY_HEADER_BASE || bytes.subrange(0, 8) != magic() {
        Err(Error::InvalidMagic)
    } else if version != LEGACY_VERSION && version != VERSION {
        Err(Error::UnsupportedVersion)
    } else if bytes.len() < base {
        Err(Error::HeaderTruncated)
    } else if too_large(bytes, 24) {
        Err(Error::HeaderValueTooLarge)
    } else if u64_at(bytes, 24) != bytes.len() || u32_at(bytes, 12) == 0 {
        Err(Error::InvalidLength)
    } else {
        match header_size(
            base,
            u32_at(bytes, 12) as int,
            u32_at(bytes, 16) as int,
            u32_at(bytes, 20) as int,
        ) {
            Err(e) => Err(e),
            Ok(header) => if header > bytes.len() {
                Err(Error::DirectoryTruncated)
            } else {
                Ok((header, base))
            },
        }
    }
}

/// What a page's bytes describe, or the first fault in them.
pub open spec fn parsed_page(bytes: Seq<u8>) -> Result<(Layout, CheckedInvariants), Error> {
    match header_of(bytes) {
        Err(e) => Err(e),
        Ok((header, base)) => match stated_in(bytes, header) {
            Err(e) => Err(e),
            Ok(stated) => match parsed_layout(bytes, base, header) {
                Err(e) => Err(e),
                Ok(layout) => Ok((layout, stated)),
            },
        },
    }
}

/// A page's bytes with the layout and the statements that describe them.
#[derive(Clone, Debug)]
pub struct SerializedPage {
    bytes: Vec<u8>,
    layout: LayoutIr,
    invariants: CheckedInvariants,
}

impl SerializedPage {
    /// The bytes.
    pub closed spec fn image(&self) -> Seq<u8> {
        self.bytes@
    }

    /// The layout as a value.
    pub closed spec fn plan(&self) -> Layout {
        self.layout@
    }

    /// What is stated about the values.
    pub closed spec fn stated(&self) -> CheckedInvariants {
        self.invariants
    }

    /// The layout is valid and is that of a file of these bytes.
    pub closed spec fn wf(&self) -> bool {
        layout_error(self.layout@) is None && self.layout@.file_length == self.bytes@.len()
    }

    pub proof fn lemma_wf(&self)
        requires
            self.wf(),
        ensures
            layout_error(self.plan()) is None,
            self.plan().file_length == self.image().len(),
            self.image().len() <= usize::MAX,
    {
    }

    pub fn bytes(&self) -> (r: &[u8])
        ensures
            r@ == self.image(),
    {
        self.bytes.as_slice()
    }

    pub fn layout(&self) -> (r: &LayoutIr)
        ensures
            r@ == self.plan(),
    {
        &self.layout
    }

    pub fn invariants(&self) -> (r: CheckedInvariants)
        ensures
            r == self.stated(),
    {
        self.invariants
    }

    /// A page from bytes and the layout that describes them.
    pub(crate) fn assemble(
        bytes: Vec<u8>,
        layout: LayoutIr,
        invariants: CheckedInvariants,
    ) -> (r: SerializedPage)
        requires
            layout_error(layout@) is None,
            layout@.file_length == bytes@.len(),
        ensures
            r.wf(),
            r.image() == bytes@,
            r.plan() == layout@,
            r.stated() == invariants,
    {
        SerializedPage { bytes, layout, invariants }
    }

    /// Reads a page.
    pub fn parse(bytes: Vec<u8>) -> (r: Result<SerializedPage, Error>)
        ensures
            match parsed_page(bytes@) {
                Ok((layout, stated)) => r matches Ok(page) && page.wf() && page.image() == bytes@
                    && page.plan() == layout && page.stated() == stated,
                Err(e) => r == Err::<SerializedPage, Error>(e),
            },
    {
        let (header_length, header_base) = match check_header(&bytes) {
            Ok(header) => header,
            Err(e) => {
                return Err(e);
            },
        };
        let invariants = match read_invariants(&bytes, header_length) {
            Ok(invariants) => invariants,
            Err(e) => {
                return Err(e);
            },
        };
        let layout = match read_layout(&bytes, header_base, header_length) {
            Ok(layout) => layout,
            Err(e) => {
                return Err(e);
            },
        };
        Ok(SerializedPage { bytes, layout, invariants })
    }
}

/// Checks the fixed part of a header. Returns the header's length and that of
/// its fixed part.
fn check_header(bytes: &Vec<u8>) -> (r: Result<(usize, usize), Error>)
    ensures
        match header_of(bytes@) {
            Ok((header, base)) => r matches Ok(found) && found.0 == header && found.1 == base,
            Err(e) => r matches Err(found) && found == e,
        },
{
    if bytes.len() < LEGACY_HEADER_BASE {
        return Err(Error::InvalidMagic);
    }
    let found: bool = bytes[0] == 0x41 && bytes[1] == 0x43 && bytes[2] == 0x50 && bytes[3] == 0x41
        && bytes[4] == 0x47 && bytes[5] == 0x45 && bytes[6] == 0x30 && bytes[7] == 0x31;
    proof {
        let start = bytes@.subrange(0, 8);
        assert(start[0] == bytes@[0] && start[1] == bytes@[1] && start[2] == bytes@[2] && start[3]
            == bytes@[3] && start[4] == bytes@[4] && start[5] == bytes@[5] && start[6] == bytes@[6]
            && start[7] == bytes@[7]);
        if found {
            assert(start =~= magic());
        } else {
            assert(start != magic());
        }
    }
    if !found {
        return Err(Error::InvalidMagic);
    }
    let version: u32 = get_u32(bytes.as_slice(), 8);
    let header_base: usize = if version == LEGACY_VERSION {
        LEGACY_HEADER_BASE
    } else if version == VERSION {
        HEADER_BASE
    } else {
        return Err(Error::UnsupportedVersion);
    };
    if bytes.len() < header_base {
        return Err(Error::HeaderTruncated);
    }
    let field_count: usize = get_u32(bytes.as_slice(), 12) as usize;
    let frame_count: usize = get_u32(bytes.as_slice(), 16) as usize;
    let dependency_count: usize = get_u32(bytes.as_slice(), 20) as usize;
    let file_length: usize = match to_usize(get_u64(bytes.as_slice(), 24)) {
        Ok(value) => value,
        Err(e) => {
            return Err(e);
        },
    };
    if file_length != bytes.len() || field_count == 0 {
        return Err(Error::InvalidLength);
    }
    let header: usize = match header_length(header_base, field_count, frame_count, dependency_count) {
        Ok(header) => header,
        Err(e) => {
            return Err(e);
        },
    };
    if header > bytes.len() {
        return Err(Error::DirectoryTruncated);
    }
    Ok((header, header_base))
}

/// Reads what the descriptor states about the values.
fn read_invariants(bytes: &Vec<u8>, header: usize) -> (r: Result<CheckedInvariants, Error>)
    requires
        LEGACY_HEADER_BASE <= bytes@.len(),
        u32_at(bytes@, 8) == VERSION ==> HEADER_BASE <= bytes@.len(),
        header <= bytes@.len(),
    ensures
        r == stated_in(bytes@, header as int),
{
    let version: u32 = get_u32(bytes.as_slice(), 8);
    if version != VERSION {
        return Ok(CheckedInvariants::default());
    }
    let word: u32 = get_u32(bytes.as_slice(), FLAGS_AT);
    if word >= 64 {
        return Err(Error::UnknownInvariantFlags);
    }
    if get_u64(bytes.as_slice(), CHECKSUM_AT) != descriptor_checksum(bytes, header) {
        return Err(Error::ChecksumMismatch);
    }
    decode_invariants(word)
}

/// What a flag word states about the values.
fn decode_invariants(word: u32) -> (r: Result<CheckedInvariants, Error>)
    requires
        word < 64,
    ensures
        r == flagged(word),
{
    let non_decreasing: bool = word % 2 == 1;
    let non_decreasing_non_null: bool = word / 2 % 2 == 1;
    assert(flag(word, 1) == non_decreasing) by {
        assert(word / 1 == word);
    }
    let null_placement = if word / 32 % 2 == 1 {
        match decode_null_placement(word) {
            Ok(placement) => placement,
            Err(e) => {
                return Err(e);
            },
        }
    } else if non_decreasing {
        NullPlacement::NoNulls
    } else {
        NullPlacement::Arbitrary
    };
    let invariants = CheckedInvariants {
        non_decreasing,
        non_decreasing_non_null: non_decreasing_non_null || non_decreasing,
        null_placement,
    };
    match validate_invariants(invariants) {
        Ok(()) => Ok(invariants),
        Err(e) => Err(e),
    }
}

/// Reads the layout.
fn read_layout(bytes: &Vec<u8>, header_base: usize, header: usize) -> (r: Result<LayoutIr, Error>)
    requires
        header_of(bytes@) == Ok::<(int, int), Error>((header as int, header_base as int)),
    ensures
        match parsed_layout(bytes@, header_base as int, header as int) {
            Ok(layout) => r matches Ok(read) && read@ == layout,
            Err(e) => r matches Err(found) && found == e,
        },
{
    let field_count: usize = get_u32(bytes.as_slice(), 12) as usize;
    let frame_count: usize = get_u32(bytes.as_slice(), 16) as usize;
    let dependency_count: usize = get_u32(bytes.as_slice(), 20) as usize;
    let ghost raw = header_base + field_count * FIELD_DESC + frame_count * FRAME_DESC
        + dependency_count * DEPENDENCY_DESC;
    proof {
        lemma_aligned(raw, PAGE_ALIGNMENT as int);
    }
    let fields = match read_fields(bytes, header_base, field_count) {
        Ok(fields) => fields,
        Err(e) => {
            return Err(e);
        },
    };
    let frames_at: usize = header_base + field_count * FIELD_DESC;
    let frames = match read_frames(bytes, frames_at, frame_count) {
        Ok(frames) => frames,
        Err(e) => {
            return Err(e);
        },
    };
    let dependencies_at: usize = frames_at + frame_count * FRAME_DESC;
    let dependencies = match read_dependencies(bytes, dependencies_at, dependency_count) {
        Ok(dependencies) => dependencies,
        Err(e) => {
            return Err(e);
        },
    };
    let layout = LayoutIr {
        metadata: FieldId(0),
        fields,
        frames,
        dependencies,
        file_length: bytes.len(),
    };
    let ghost listed = parsed_fields(bytes@, header_base as int, field_count as int)->Ok_0;
    assert(layout@.fields =~= listed);
    match layout.validate() {
        Ok(()) => {},
        Err(e) => {
            return Err(e);
        },
    }
    assert(listed[0] == layout.fields@[0]@);
    if layout.fields[0].length != header || layout.fields[0].location != (FieldLocation::Direct {
        offset: 0,
    }) {
        return Err(Error::MetadataNotHeader);
    }
    Ok(layout)
}

fn read_fields(bytes: &Vec<u8>, base: usize, count: usize) -> (r: Result<Vec<FieldLayout>, Error>)
    requires
        base + count * FIELD_DESC <= bytes@.len(),
        count <= u32::MAX,
    ensures
        match parsed_fields(bytes@, base as int, count as int) {
            Ok(fields) => r matches Ok(read) && read@.len() == count && fields.len() == count
                && forall|i: int| 0 <= i < count ==> (#[trigger] read@[i])@ == fields[i],
            Err(e) => r matches Err(found) && found == e,
        },
{
    let mut fields: Vec<FieldLayout> = Vec::new();
    let mut index: usize = 0;
    while index < count
        invariant
            index <= count <= u32::MAX,
            base + count * FIELD_DESC <= bytes@.len(),
            fields@.len() == index,
            parsed_fields(bytes@, base as int, index as int) matches Ok(found) && found.len() == index
                && forall|i: int| 0 <= i < index ==> (#[trigger] fields@[i])@ == found[i],
        decreases count - index,
    {
        let len: usize = bytes.len();
        let at: usize = base + index * FIELD_DESC;
        let ghost before = parsed_fields(bytes@, base as int, index as int)->Ok_0;
        match read_field(bytes, at, index) {
            Ok(field) => {
                fields.push(field);
                assert(parsed_fields(bytes@, base as int, index + 1) == Ok::<Seq<Field>, Error>(
                    before.push(field@),
                ));
            },
            Err(e) => {
                proof {
                    lemma_fields_stop(bytes@, base as int, index + 1, count as int, e);
                }
                return Err(e);
            },
        }
        index = index + 1;
    }
    Ok(fields)
}

fn read_field(bytes: &Vec<u8>, at: usize, index: usize) -> (r: Result<FieldLayout, Error>)
    requires
        at + FIELD_DESC <= bytes@.len(),
        index <= u32::MAX,
        at >= index * FIELD_DESC,
    ensures
        match parsed_field(bytes@, at - index * FIELD_DESC, index as int) {
            Ok(field) => r matches Ok(read) && read@ == field,
            Err(e) => r matches Err(found) && found == e,
        },
{
    let len: usize = bytes.len();
    let id: usize = get_u32(bytes.as_slice(), at) as usize;
    if id != index {
        return Err(Error::FieldIdsNotCanonical);
    }
    let location_id: usize = get_u32(bytes.as_slice(), at + 8) as usize;
    let length: usize = match to_usize(get_u64(bytes.as_slice(), at + 16)) {
        Ok(value) => value,
        Err(e) => {
            return Err(e);
        },
    };
    let location_offset: usize = match to_usize(get_u64(bytes.as_slice(), at + 24)) {
        Ok(value) => value,
        Err(e) => {
            return Err(e);
        },
    };
    let kind: u8 = bytes[at + 4];
    let location = if kind == 0 {
        FieldLocation::Direct { offset: location_offset }
    } else if kind == 1 {
        FieldLocation::Framed { frame: FrameId(location_id), decoded_offset: location_offset }
    } else {
        return Err(Error::InvalidLocationKind(kind));
    };
    Ok(
        FieldLayout {
            id: FieldId(id),
            name: field_name(index),
            length,
            alignment: get_u32(bytes.as_slice(), at + 32) as usize,
            read_granularity: get_u32(bytes.as_slice(), at + 36) as usize,
            location,
        },
    )
}

fn field_name(index: usize) -> (r: String)
    ensures
        r@ == default_name(index as int),
{
    if index == 0 {
        "metadata".to_owned()
    } else {
        let mut name = "field_".to_owned();
        push_decimal(&mut name, index as u128);
        name
    }
}

fn read_frames(bytes: &Vec<u8>, base: usize, count: usize) -> (r: Result<Vec<FrameLayout>, Error>)
    requires
        base + count * FRAME_DESC <= bytes@.len(),
        count <= u32::MAX,
    ensures
        match parsed_frames(bytes@, base as int, count as int) {
            Ok(frames) => r matches Ok(read) && read@ == frames,
            Err(e) => r matches Err(found) && found == e,
        },
{
    let mut frames: Vec<FrameLayout> = Vec::new();
    let mut index: usize = 0;
    while index < count
        invariant
            index <= count <= u32::MAX,
            base + count * FRAME_DESC <= bytes@.len(),
            parsed_frames(bytes@, base as int, index as int) == Ok::<Seq<FrameLayout>, Error>(frames@),
        decreases count - index,
    {
        let len: usize = bytes.len();
        let at: usize = base + index * FRAME_DESC;
        match read_frame(bytes, at, index) {
            Ok(frame) => {
                frames.push(frame);
            },
            Err(e) => {
                proof {
                    lemma_frames_stop(bytes@, base as int, index + 1, count as int, e);
                }
                return Err(e);
            },
        }
        index = index + 1;
    }
    Ok(frames)
}

fn read_frame(bytes: &Vec<u8>, at: usize, index: usize) -> (r: Result<FrameLayout, Error>)
    requires
        at + FRAME_DESC <= bytes@.len(),
        index <= u32::MAX,
        at >= index * FRAME_DESC,
    ensures
        match parsed_frame(bytes@, at - index * FRAME_DESC, index as int) {
            Ok(frame) => r matches Ok(read) && read == frame,
            Err(e) => r matches Err(found) && found == e,
        },
{
    let len: usize = bytes.len();
    if get_u32(bytes.as_slice(), at) as usize != index || bytes[at + 4] != 1 {
        return Err(Error::InvalidFrameDescriptor);
    }
    let offset: usize = match to_usize(get_u64(bytes.as_slice(), at + 8)) {
        Ok(value) => value,
        Err(e) => {
            return Err(e);
        },
    };
    let compressed_length: usize = match to_usize(get_u64(bytes.as_slice(), at + 16)) {
        Ok(value) => value,
        Err(e) => {
            return Err(e);
        },
    };
    let decoded_length: usize = match to_usize(get_u64(bytes.as_slice(), at + 24)) {
        Ok(value) => value,
        Err(e) => {
            return Err(e);
        },
    };
    Ok(
        FrameLayout {
            id: FrameId(index),
            codec: FrameCodec::Zstd,
            offset,
            compressed_length,
            decoded_length,
            alignment: PAGE_ALIGNMENT,
        },
    )
}

fn read_dependencies(bytes: &Vec<u8>, base: usize, count: usize) -> (r: Result<
    Vec<DependencyRule>,
    Error,
>)
    requires
        base + count * DEPENDENCY_DESC <= bytes@.len(),
        count <= u32::MAX,
    ensures
        match parsed_dependencies(bytes@, base as int, count as int) {
            Ok(rules) => r matches Ok(read) && read@ == rules,
            Err(e) => r matches Err(found) && found == e,
        },
{
    let mut rules: Vec<DependencyRule> = Vec::new();
    let mut index: usize = 0;
    while index < count
        invariant
            index <= count <= u32::MAX,
            base + count * DEPENDENCY_DESC <= bytes@.len(),
            parsed_dependencies(bytes@, base as int, index as int) == Ok::<Seq<DependencyRule>, Error>(
                rules@,
            ),
        decreases count - index,
    {
        let len: usize = bytes.len();
        let at: usize = base + index * DEPENDENCY_DESC;
        match read_dependency(bytes, at, index) {
            Ok(rule) => {
                rules.push(rule);
            },
            Err(e) => {
                proof {
                    lemma_dependencies_stop(bytes@, base as int, index + 1, count as int, e);
                }
                return Err(e);
            },
        }
        index = index + 1;
    }
    Ok(rules)
}

fn read_dependency(bytes: &Vec<u8>, at: usize, index: usize) -> (r: Result<DependencyRule, Error>)
    requires
        at + DEPENDENCY_DESC <= bytes@.len(),
        index <= u32::MAX,
        at >= index * DEPENDENCY_DESC,
    ensures
        match parsed_dependency(bytes@, at - index * DEPENDENCY_DESC, index as int) {
            Ok(rule) => r matches Ok(read) && read == rule,
            Err(e) => r matches Err(found) && found == e,
        },
{
    let len: usize = bytes.len();
    let source = FieldId(get_u32(bytes.as_slice(), at + 4) as usize);
    let prerequisite = FieldId(get_u32(bytes.as_slice(), at + 8) as usize);
    let first: usize = match to_usize(get_u64(bytes.as_slice(), at + 16)) {
        Ok(value) => value,
        Err(e) => {
            return Err(e);
        },
    };
    let second: usize = match to_usize(get_u64(bytes.as_slice(), at + 24)) {
        Ok(value) => value,
        Err(e) => {
            return Err(e);
        },
    };
    let kind: u8 = bytes[at];
    if kind == 0 {
        Ok(DependencyRule::DependentField { source, prerequisite })
    } else if kind == 1 {
        Ok(
            DependencyRule::IndexedStream {
                data: source,
                index: prerequisite,
                data_block_bytes: first,
                index_entry_bytes: second,
            },
        )
    } else if kind == 2 {
        Ok(
            DependencyRule::Restart {
                data: source,
                restarts: prerequisite,
                data_bytes_per_restart: first,
                bytes_per_restart: second,
            },
        )
    } else {
        Err(Error::InvalidDependencyKind(kind))
    }
}

proof fn lemma_fields_stop(bytes: Seq<u8>, base: int, i: int, n: int, e: Error)
    requires
        0 <= i <= n,
        parsed_fields(bytes, base, i) == Err::<Seq<Field>, Error>(e),
    ensures
        parsed_fields(bytes, base, n) == Err::<Seq<Field>, Error>(e),
    decreases n,
{
    if i < n {
        lemma_fields_stop(bytes, base, i, n - 1, e);
    }
}

proof fn lemma_frames_stop(bytes: Seq<u8>, base: int, i: int, n: int, e: Error)
    requires
        0 <= i <= n,
        parsed_frames(bytes, base, i) == Err::<Seq<FrameLayout>, Error>(e),
    ensures
        parsed_frames(bytes, base, n) == Err::<Seq<FrameLayout>, Error>(e),
    decreases n,
{
    if i < n {
        lemma_frames_stop(bytes, base, i, n - 1, e);
    }
}

proof fn lemma_dependencies_stop(bytes: Seq<u8>, base: int, i: int, n: int, e: Error)
    requires
        0 <= i <= n,
        parsed_dependencies(bytes, base, i) == Err::<Seq<DependencyRule>, Error>(e),
    ensures
        parsed_dependencies(bytes, base, n) == Err::<Seq<DependencyRule>, Error>(e),
    decreases n,
{
    if i < n {
        lemma_dependencies_stop(bytes, base, i, n - 1, e);
    }
}

pub proof fn lemma_aligned(value: int, alignment: int)
    requires
        value >= 0,
        alignment > 0,
    ensures
        value <= aligned(value, alignment) < value + alignment,
        aligned(value, alignment) % alignment == 0,
{
    reveal(aligned);
    lemma_floor(value + (alignment - 1), alignment);
    vstd::arithmetic::div_mod::lemma_mod_multiples_basic(
        (value + (alignment - 1)) / alignment,
        alignment,
    );
}

pub(crate) fn header_length(
    header_base: usize,
    fields: usize,
    frames: usize,
    dependencies: usize,
) -> (r: Result<usize, Error>)
    ensures
        match header_size(header_base as int, fields as int, frames as int, dependencies as int) {
            Ok(size) => r matches Ok(found) && found == size,
            Err(e) => r matches Err(found) && found == e,
        },
{
    let field_bytes: usize = match fields.checked_mul(FIELD_DESC) {
        Some(size) => size,
        None => {
            return Err(Error::FieldHeaderOverflow);
        },
    };
    let frame_bytes: usize = match frames.checked_mul(FRAME_DESC) {
        Some(size) => size,
        None => {
            return Err(Error::HeaderOverflow);
        },
    };
    let dependency_bytes: usize = match dependencies.checked_mul(DEPENDENCY_DESC) {
        Some(size) => size,
        None => {
            return Err(Error::HeaderOverflow);
        },
    };
    let with_fields: usize = match header_base.checked_add(field_bytes) {
        Some(size) => size,
        None => {
            return Err(Error::HeaderOverflow);
        },
    };
    let with_frames: usize = match with_fields.checked_add(frame_bytes) {
        Some(size) => size,
        None => {
            return Err(Error::HeaderOverflow);
        },
    };
    let raw: usize = match with_frames.checked_add(dependency_bytes) {
        Some(size) => size,
        None => {
            return Err(Error::HeaderOverflow);
        },
    };
    align_up(raw, PAGE_ALIGNMENT)
}

pub(crate) fn align_up(value: usize, alignment: usize) -> (r: Result<usize, Error>)
    requires
        alignment > 0,
    ensures
        if value + (alignment - 1) > usize::MAX {
            r == Err::<usize, Error>(Error::AlignmentOverflow)
        } else {
            r == Ok::<usize, Error>(aligned(value as int, alignment as int) as usize) && 0
                <= aligned(value as int, alignment as int) <= usize::MAX
        },
{
    match value.checked_add(alignment - 1) {
        Some(sum) => {
            proof {
                reveal(aligned);
                lemma_floor(sum as int, alignment as int);
            }
            Ok(sum / alignment * alignment)
        },
        None => Err(Error::AlignmentOverflow),
    }
}

/// Hashes the first `header` bytes, counting the checksum's own as zero.
pub(crate) fn descriptor_checksum(bytes: &Vec<u8>, header: usize) -> (r: u64)
    requires
        header <= bytes@.len(),
    ensures
        r == descriptor_checksum_of(bytes@.take(header as int)),
{
    let mut hash: u64 = 0xcbf2_9ce4_8422_2325;
    let mut at: usize = 0;
    while at < header
        invariant
            at <= header <= bytes@.len(),
            hash == descriptor_checksum_of(bytes@.take(at as int)),
        decreases header - at,
    {
        let byte: u64 = if CHECKSUM_AT <= at && at < CHECKSUM_AT + 8 {
            0
        } else {
            bytes[at] as u64
        };
        assert(bytes@.take(at + 1).drop_last() =~= bytes@.take(at as int));
        hash = (hash ^ byte).wrapping_mul(0x1000_0000_01b3);
        at = at + 1;
    }
    hash
}

fn to_usize(value: u64) -> (r: Result<usize, Error>)
    ensures
        value <= usize::MAX ==> r == Ok::<usize, Error>(value as usize),
        value > usize::MAX ==> r == Err::<usize, Error>(Error::HeaderValueTooLarge),
{
    if value > usize::MAX as u64 {
        Err(Error::HeaderValueTooLarge)
    } else {
        Ok(value as usize)
    }
}

fn decode_null_placement(word: u32) -> (r: Result<NullPlacement, Error>)
    ensures
        r == flagged_placement(flags_of(word)),
{
    let has_nulls: bool = word / 4 % 2 == 1;
    let first: bool = word / 8 % 2 == 1;
    let last: bool = word / 16 % 2 == 1;
    if !has_nulls && !first && !last {
        Ok(NullPlacement::NoNulls)
    } else if has_nulls && first && !last {
        Ok(NullPlacement::First)
    } else if has_nulls && !first && last {
        Ok(NullPlacement::Last)
    } else if has_nulls && !first && !last {
        Ok(NullPlacement::Arbitrary)
    } else {
        Err(Error::InconsistentNullFlags)
    }
}

pub(crate) fn validate_invariants(invariants: CheckedInvariants) -> (r: Result<(), Error>)
    ensures
        consistent(invariants) ==> r == Ok::<(), Error>(()),
        !consistent(invariants) ==> r == Err::<(), Error>(Error::MonotonicityNeedsDense),
{
    if invariants.non_decreasing && (!invariants.non_decreasing_non_null
        || invariants.null_placement != NullPlacement::NoNulls) {
        return Err(Error::MonotonicityNeedsDense);
    }
    Ok(())
}

} // verus!
