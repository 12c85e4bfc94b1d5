//! Assembling a page from fields, frames and dependencies.
use super::bytes::{push_u32, push_u64};
#[allow(unused_imports)]
use super::bytes::{lemma_u32_len, lemma_u64_bytes, lemma_u64_len, u32_bytes, u64_bytes};
use super::codec::compress_frame;
#[allow(unused_imports)]
use super::codec::{compressible, frame_bytes, zstd_content};
use super::error::Error;
use super::format::{
    align_up, descriptor_checksum, header_length, validate_invariants, SerializedPage, HEADER_BASE,
    PAGE_ALIGNMENT, VERSION,
};
#[allow(unused_imports)]
use super::format::{
    aligned, consistent, descriptor_checksum_of, flag_word, header_size, lemma_aligned, magic,
    parsed_page, CHECKSUM_AT, DEPENDENCY_DESC, FIELD_DESC, FRAME_DESC,
};
use super::ids::{FieldId, FrameId};
use super::invariants::{CheckedInvariants, NullPlacement};
use super::layout::{DependencyRule, FieldLayout, FieldLocation, FrameCodec, FrameLayout, LayoutIr};
#[allow(unused_imports)]
use super::layout::{layout_error, Field, Layout};
use vstd::prelude::*;

verus! {

/// A field to be placed.
pub struct FieldPlan {
    pub name: Seq<char>,
    pub bytes: Seq<u8>,
    pub alignment: usize,
    pub read_granularity: usize,
    pub group: Option<usize>,
}

/// A page to be assembled. The first field is the header, whose bytes come last.
pub struct PagePlan {
    pub fields: Seq<FieldPlan>,
    pub dependencies: Seq<DependencyRule>,
    pub groups: usize,
    pub stated: CheckedInvariants,
}

pub open spec fn zeros(n: int) -> Seq<u8> {
    Seq::new(n as nat, |i: int| 0u8)
}

/// Zeros up to the next multiple of the alignment, where the bytes start at
/// `start`.
pub open spec fn padded(body: Seq<u8>, start: int, alignment: int) -> Seq<u8> {
    body + zeros(aligned(start + body.len(), alignment) - (start + body.len()))
}

/// What follows the header up to field `n`, of the fields that are not in a
/// frame.
pub open spec fn direct_body(fields: Seq<FieldPlan>, header: int, n: int) -> Seq<u8>
    decreases n,
{
    if n <= 1 {
        Seq::empty()
    } else {
        let before = direct_body(fields, header, n - 1);
        let field = fields[n - 1];
        if field.group is Some {
            before
        } else {
            padded(before, header, field.alignment as int) + field.bytes
        }
    }
}

/// The first field up to `n` whose place is not addressable.
pub open spec fn direct_error(fields: Seq<FieldPlan>, header: int, n: int) -> Option<Error>
    decreases n,
{
    if n <= 1 {
        None
    } else {
        match direct_error(fields, header, n - 1) {
            Some(e) => Some(e),
            None => {
                let cursor = header + direct_body(fields, header, n - 1).len();
                let field = fields[n - 1];
                if field.group is Some {
                    None
                } else if cursor + (field.alignment - 1) > usize::MAX {
                    Some(Error::AlignmentOverflow)
                } else if aligned(cursor, field.alignment as int) + field.bytes.len() > usize::MAX {
                    Some(Error::DirectFieldOverflow)
                } else {
                    None
                }
            },
        }
    }
}

/// What a frame holds, up to field `n`.
pub open spec fn group_bytes(fields: Seq<FieldPlan>, group: usize, n: int) -> Seq<u8>
    decreases n,
{
    if n <= 1 {
        Seq::empty()
    } else {
        let before = group_bytes(fields, group, n - 1);
        let field = fields[n - 1];
        if field.group == Some(group) {
            padded(before, 0, field.alignment as int) + field.bytes
        } else {
            before
        }
    }
}

/// The first field of a frame up to `n` whose place is not addressable.
pub open spec fn group_error(fields: Seq<FieldPlan>, group: usize, n: int) -> Option<Error>
    decreases n,
{
    if n <= 1 {
        None
    } else {
        match group_error(fields, group, n - 1) {
            Some(e) => Some(e),
            None => {
                let cursor = group_bytes(fields, group, n - 1).len() as int;
                let field = fields[n - 1];
                if field.group != Some(group) {
                    None
                } else if cursor + (field.alignment - 1) > usize::MAX {
                    Some(Error::AlignmentOverflow)
                } else if aligned(cursor, field.alignment as int) + field.bytes.len() > usize::MAX {
                    Some(Error::FrameOverflow)
                } else {
                    None
                }
            },
        }
    }
}

/// What frame `g` holds.
pub open spec fn decoded_frame(fields: Seq<FieldPlan>, g: int) -> Seq<u8> {
    group_bytes(fields, g as usize, fields.len() as int)
}

/// What follows the header up to frame `g`.
pub open spec fn framed_body(fields: Seq<FieldPlan>, header: int, g: int) -> Seq<u8>
    decreases g,
{
    if g <= 0 {
        direct_body(fields, header, fields.len() as int)
    } else {
        padded(framed_body(fields, header, g - 1), header, PAGE_ALIGNMENT as int) + frame_bytes(
            decoded_frame(fields, g - 1),
        )
    }
}

/// The first frame up to `g` that cannot be compressed or whose place is not
/// addressable.
pub open spec fn frames_fault(fields: Seq<FieldPlan>, header: int, g: int) -> Option<Error>
    decreases g,
{
    if g <= 0 {
        None
    } else {
        match frames_fault(fields, header, g - 1) {
            Some(e) => Some(e),
            None => match group_error(fields, (g - 1) as usize, fields.len() as int) {
                Some(e) => Some(e),
                None => {
                    let cursor = header + framed_body(fields, header, g - 1).len();
                    if !compressible(decoded_frame(fields, g - 1).len() as int) {
                        Some(Error::FrameCompression)
                    } else if cursor + (PAGE_ALIGNMENT - 1) > usize::MAX {
                        Some(Error::AlignmentOverflow)
                    } else if aligned(cursor, PAGE_ALIGNMENT as int) + frame_bytes(
                        decoded_frame(fields, g - 1),
                    ).len() > usize::MAX {
                        Some(Error::FrameOverflow)
                    } else {
                        None
                    }
                },
            },
        }
    }
}

/// Where a field goes.
pub open spec fn planned_location(fields: Seq<FieldPlan>, header: int, i: int) -> FieldLocation {
    let alignment = fields[i].alignment as int;
    if i == 0 {
        FieldLocation::Direct { offset: 0 }
    } else {
        match fields[i].group {
            None => FieldLocation::Direct {
                offset: aligned(header + direct_body(fields, header, i).len(), alignment) as usize,
            },
            Some(group) => FieldLocation::Framed {
                frame: FrameId(group),
                decoded_offset: aligned(
                    group_bytes(fields, group, i).len() as int,
                    alignment,
                ) as usize,
            },
        }
    }
}

pub open spec fn planned_field(fields: Seq<FieldPlan>, header: int, i: int) -> Field {
    Field {
        id: FieldId(i as usize),
        name: fields[i].name,
        length: if i == 0 {
            header as usize
        } else {
            fields[i].bytes.len() as usize
        },
        alignment: fields[i].alignment,
        read_granularity: fields[i].read_granularity,
        location: planned_location(fields, header, i),
    }
}

pub open spec fn planned_frame(fields: Seq<FieldPlan>, header: int, g: int) -> FrameLayout {
    FrameLayout {
        id: FrameId(g as usize),
        codec: FrameCodec::Zstd,
        offset: aligned(
            header + framed_body(fields, header, g).len(),
            PAGE_ALIGNMENT as int,
        ) as usize,
        compressed_length: frame_bytes(decoded_frame(fields, g)).len() as usize,
        decoded_length: decoded_frame(fields, g).len() as usize,
        alignment: PAGE_ALIGNMENT,
    }
}

/// The layout of a plan whose header has the given length.
pub open spec fn planned_layout(plan: PagePlan, header: int) -> Layout {
    Layout {
        metadata: FieldId(0),
        fields: Seq::new(plan.fields.len(), |i: int| planned_field(plan.fields, header, i)),
        frames: Seq::new(plan.groups as nat, |g: int| planned_frame(plan.fields, header, g)),
        dependencies: plan.dependencies,
        file_length: (header + framed_body(plan.fields, header, plan.groups as int).len()) as usize,
    }
}

// ----- the header -----

pub open spec fn location_kind(location: FieldLocation) -> u8 {
    match location {
        FieldLocation::Direct { .. } => 0,
        FieldLocation::Framed { .. } => 1,
    }
}

pub open spec fn location_frame(location: FieldLocation) -> usize {
    match location {
        FieldLocation::Direct { .. } => 0,
        FieldLocation::Framed { frame, .. } => frame.0,
    }
}

pub open spec fn location_offset(location: FieldLocation) -> usize {
    match location {
        FieldLocation::Direct { offset } => offset,
        FieldLocation::Framed { decoded_offset, .. } => decoded_offset,
    }
}

/// A byte with three of padding.
pub open spec fn kind_bytes(kind: u8) -> Seq<u8> {
    seq![kind, 0u8, 0u8, 0u8]
}

pub open spec fn field_desc(field: Field) -> Seq<u8> {
    u32_bytes(field.id.0 as u32) + kind_bytes(location_kind(field.location)) + u32_bytes(
        location_frame(field.location) as u32,
    ) + zeros(4) + u64_bytes(field.length as u64) + u64_bytes(
        location_offset(field.location) as u64,
    ) + u32_bytes(field.alignment as u32) + u32_bytes(field.read_granularity as u32) + zeros(8)
}

pub open spec fn frame_desc(frame: FrameLayout) -> Seq<u8> {
    u32_bytes(frame.id.0 as u32) + kind_bytes(1) + u64_bytes(frame.offset as u64) + u64_bytes(
        frame.compressed_length as u64,
    ) + u64_bytes(frame.decoded_length as u64)
}

/// The kind of a rule, its two fields and its two parameters.
pub open spec fn rule_parts(rule: DependencyRule) -> (u8, FieldId, FieldId, usize, usize) {
    match rule {
        DependencyRule::DependentField { source, prerequisite } => (0, source, prerequisite, 0, 0),
        DependencyRule::IndexedStream { data, index, data_block_bytes, index_entry_bytes } => (
            1,
            data,
            index,
            data_block_bytes,
            index_entry_bytes,
        ),
        DependencyRule::Restart { data, restarts, data_bytes_per_restart, bytes_per_restart } => (
            2,
            data,
            restarts,
            data_bytes_per_restart,
            bytes_per_restart,
        ),
    }
}

pub open spec fn dependency_desc(rule: DependencyRule) -> Seq<u8> {
    let parts = rule_parts(rule);
    kind_bytes(parts.0) + u32_bytes(parts.1.0 as u32) + u32_bytes(parts.2.0 as u32) + zeros(4)
        + u64_bytes(parts.3 as u64) + u64_bytes(parts.4 as u64)
}

pub open spec fn field_descs(fields: Seq<Field>) -> Seq<u8> {
    Seq::new(FIELD_DESC as nat * fields.len(), |p: int|
        field_desc(fields[p / FIELD_DESC as int])[p % FIELD_DESC as int])
}

pub open spec fn frame_descs(frames: Seq<FrameLayout>) -> Seq<u8> {
    Seq::new(FRAME_DESC as nat * frames.len(), |p: int|
        frame_desc(frames[p / FRAME_DESC as int])[p % FRAME_DESC as int])
}

pub open spec fn dependency_descs(rules: Seq<DependencyRule>) -> Seq<u8> {
    Seq::new(DEPENDENCY_DESC as nat * rules.len(), |p: int|
        dependency_desc(rules[p / DEPENDENCY_DESC as int])[p % DEPENDENCY_DESC as int])
}

/// The fixed part of a header up to its checksum.
pub open spec fn header_start(layout: Layout, stated: CheckedInvariants) -> Seq<u8> {
    magic() + u32_bytes(VERSION) + u32_bytes(layout.fields.len() as usize as u32) + u32_bytes(
        layout.frames.len() as usize as u32,
    ) + u32_bytes(layout.dependencies.len() as usize as u32) + u64_bytes(layout.file_length as u64)
        + u32_bytes(flag_word(stated)) + zeros(4)
}

/// The directory of a header, with zeros up to its length.
pub open spec fn directory(layout: Layout, header: int) -> Seq<u8> {
    let entries = field_descs(layout.fields) + frame_descs(layout.frames) + dependency_descs(
        layout.dependencies,
    );
    entries + zeros(header - HEADER_BASE - entries.len())
}

/// A header of a given length with a given checksum.
pub open spec fn header_with(
    layout: Layout,
    stated: CheckedInvariants,
    header: int,
    checksum: u64,
) -> Seq<u8> {
    header_start(layout, stated) + u64_bytes(checksum) + directory(layout, header)
}

/// A header of a given length with its own checksum.
pub open spec fn header_image(layout: Layout, stated: CheckedInvariants, header: int) -> Seq<u8> {
    header_with(
        layout,
        stated,
        header,
        descriptor_checksum_of(header_with(layout, stated, header, 0)),
    )
}

// ----- the outcome -----

pub open spec fn planned_header(plan: PagePlan) -> Result<int, Error> {
    header_size(
        HEADER_BASE as int,
        plan.fields.len() as int,
        plan.groups as int,
        plan.dependencies.len() as int,
    )
}

/// The bytes of a page whose header has the given length.
pub open spec fn planned_bytes(plan: PagePlan, header: int) -> Seq<u8> {
    header_image(planned_layout(plan, header), plan.stated, header) + framed_body(
        plan.fields,
        header,
        plan.groups as int,
    )
}

/// The first fault in assembling a page.
pub open spec fn finish_error(plan: PagePlan) -> Option<Error> {
    match planned_header(plan) {
        Err(e) => Some(e),
        Ok(header) => match direct_error(plan.fields, header, plan.fields.len() as int) {
            Some(e) => Some(e),
            None => match frames_fault(plan.fields, header, plan.groups as int) {
                Some(e) => Some(e),
                None => match layout_error(planned_layout(plan, header)) {
                    Some(e) => Some(e),
                    None => if !consistent(plan.stated) {
                        Some(Error::MonotonicityNeedsDense)
                    } else {
                        match parsed_page(planned_bytes(plan, header)) {
                            Err(e) => Some(e),
                            Ok(_) => None,
                        }
                    },
                },
            },
        },
    }
}

/// Every frame decompresses to what it was made of.
pub open spec fn frames_restore(plan: PagePlan) -> bool {
    forall|g: int|
        0 <= g < plan.groups ==> zstd_content(
            frame_bytes(#[trigger] decoded_frame(plan.fields, g)),
        ) == Some(decoded_frame(plan.fields, g)) && decoded_frame(plan.fields, g).len()
            <= isize::MAX
}

#[derive(Clone, Debug)]
struct FieldSpec {
    name: String,
    bytes: Vec<u8>,
    alignment: usize,
    read_granularity: usize,
    frame_group: Option<usize>,
}

impl View for FieldSpec {
    type V = FieldPlan;

    closed spec fn view(&self) -> FieldPlan {
        FieldPlan {
            name: self.name@,
            bytes: self.bytes@,
            alignment: self.alignment,
            read_granularity: self.read_granularity,
            group: self.frame_group,
        }
    }
}

pub(crate) struct PageBuilder {
    fields: Vec<FieldSpec>,
    dependencies: Vec<DependencyRule>,
    next_frame_group: usize,
    invariants: CheckedInvariants,
}

impl View for PageBuilder {
    type V = PagePlan;

    closed spec fn view(&self) -> PagePlan {
        PagePlan {
            fields: Seq::new(self.fields@.len(), |i: int| self.fields@[i]@),
            dependencies: self.dependencies@,
            groups: self.next_frame_group,
            stated: self.invariants,
        }
    }
}

/// There is a header field, every field can be aligned, and every frame of a
/// field is counted.
pub open spec fn plan_wf(plan: PagePlan) -> bool {
    &&& 0 < plan.fields.len() <= usize::MAX
    &&& plan.fields[0].group is None
    &&& forall|i: int|
        0 <= i < plan.fields.len() ==> (#[trigger] plan.fields[i]).alignment > 0
            && plan.fields[i].bytes.len() <= usize::MAX
    &&& forall|i: int|
        0 <= i < plan.fields.len() ==> ((#[trigger] plan.fields[i]).group matches Some(g) ==> g
            < plan.groups)
}

/// The plan with a field and its dependency on the header.
pub open spec fn with_field(
    plan: PagePlan,
    name: Seq<char>,
    bytes: Seq<u8>,
    alignment: usize,
    read_granularity: usize,
) -> PagePlan {
    PagePlan {
        fields: plan.fields.push(
            FieldPlan { name, bytes, alignment, read_granularity, group: None },
        ),
        dependencies: plan.dependencies.push(
            DependencyRule::DependentField {
                source: FieldId(plan.fields.len() as usize),
                prerequisite: FieldId(0),
            },
        ),
        ..plan
    }
}

/// The plan with fields `start..end` in a new frame.
pub open spec fn with_frame(plan: PagePlan, start: int, end: int) -> PagePlan {
    PagePlan {
        fields: Seq::new(plan.fields.len(), |i: int|
            if start <= i < end {
                FieldPlan { group: Some(plan.groups), ..plan.fields[i] }
            } else {
                plan.fields[i]
            }),
        groups: (plan.groups + 1) as usize,
        ..plan
    }
}

/// The plan of a page that has nothing but its header.
pub open spec fn empty_plan(stated: CheckedInvariants) -> PagePlan {
    PagePlan {
        fields: seq![
            FieldPlan {
                name: "metadata"@,
                bytes: Seq::empty(),
                alignment: PAGE_ALIGNMENT,
                read_granularity: PAGE_ALIGNMENT,
                group: None,
            },
        ],
        dependencies: Seq::empty(),
        groups: 0,
        stated,
    }
}

impl PageBuilder {
    pub(crate) fn new(invariants: CheckedInvariants) -> (r: PageBuilder)
        ensures
            r@ == empty_plan(invariants),
            plan_wf(r@),
    {
        let mut fields: Vec<FieldSpec> = Vec::new();
        fields.push(
            FieldSpec {
                name: "metadata".to_owned(),
                bytes: Vec::new(),
                alignment: PAGE_ALIGNMENT,
                read_granularity: PAGE_ALIGNMENT,
                frame_group: None,
            },
        );
        let r = PageBuilder { fields, dependencies: Vec::new(), next_frame_group: 0, invariants };
        assert(r@.fields =~= empty_plan(invariants).fields);
        assert(r@.dependencies =~= empty_plan(invariants).dependencies);
        r
    }

    pub(crate) fn field_count(&self) -> (r: usize)
        ensures
            r == self@.fields.len(),
    {
        self.fields.len()
    }

    pub(crate) fn add_field(
        &mut self,
        name: &str,
        bytes: Vec<u8>,
        alignment: usize,
        read_granularity: usize,
    ) -> (r: Result<FieldId, Error>)
        requires
            plan_wf(old(self)@),
        ensures
            plan_wf(final(self)@),
            if alignment == 0 || read_granularity == 0 {
                r == Err::<FieldId, Error>(Error::FieldParameters) && final(self)@ == old(self)@
            } else if old(self)@.fields.len() == usize::MAX {
                r == Err::<FieldId, Error>(Error::TooManyFields) && final(self)@ == old(self)@
            } else {
                r == Ok::<FieldId, Error>(FieldId(old(self)@.fields.len() as usize))
                    && final(self)@ == with_field(
                    old(self)@,
                    name@,
                    bytes@,
                    alignment,
                    read_granularity,
                )
            },
    {
        if alignment == 0 || read_granularity == 0 {
            return Err(Error::FieldParameters);
        }
        if self.fields.len() == usize::MAX {
            return Err(Error::TooManyFields);
        }
        let ghost before = self@;
        let ghost content = bytes@;
        let length: usize = bytes.len();
        assert(content.len() == length);
        let id = FieldId(self.fields.len());
        self.fields.push(
            FieldSpec {
                name: name.to_owned(),
                bytes,
                alignment,
                read_granularity,
                frame_group: None,
            },
        );
        self.dependencies.push(
            DependencyRule::DependentField { source: id, prerequisite: FieldId(0) },
        );
        proof {
            let after = with_field(before, name@, content, alignment, read_granularity);
            assert(self@.fields =~= after.fields);
            assert forall|i: int| 0 <= i < after.fields.len() implies (
            #[trigger] after.fields[i]).alignment > 0 && after.fields[i].bytes.len() <= usize::MAX
                && (after.fields[i].group matches Some(g) ==> g < after.groups) by {
                if i < before.fields.len() {
                    assert(after.fields[i] == before.fields[i]);
                }
            }
            assert(after.fields[0] == before.fields[0]);
        }
        Ok(id)
    }

    /// Puts fields `start..end` into a new frame.
    pub(crate) fn frame_fields(&mut self, start: usize, end: usize) -> (r: Result<(), Error>)
        requires
            plan_wf(old(self)@),
        ensures
            if start == 0 || start >= end || end > old(self)@.fields.len() || old(self)@.groups
                == usize::MAX {
                r == Err::<(), Error>(Error::InvalidFrameRange)
            } else if exists|i: int|
                start <= i < end && (#[trigger] old(self)@.fields[i]).group is Some {
                r == Err::<(), Error>(Error::FieldInTwoFrames)
            } else {
                r == Ok::<(), Error>(()) && final(self)@ == with_frame(
                    old(self)@,
                    start as int,
                    end as int,
                ) && plan_wf(final(self)@)
            },
    {
        if start == 0 || start >= end || end > self.fields.len() || self.next_frame_group
            == usize::MAX {
            return Err(Error::InvalidFrameRange);
        }
        let group: usize = self.next_frame_group;
        let ghost before = self@;
        self.next_frame_group = group + 1;
        let mut i: usize = start;
        while i < end
            invariant
                0 < start <= i <= end <= self.fields@.len(),
                before == old(self)@,
                group == before.groups,
                self.next_frame_group == group + 1,
                self.dependencies@ == before.dependencies,
                self.invariants == before.stated,
                self.fields@.len() == before.fields.len(),
                forall|k: int| start <= k < i ==> (#[trigger] before.fields[k]).group is None,
                forall|k: int|
                    0 <= k < self.fields@.len() ==> (#[trigger] self.fields@[k])@ == if start <= k < i {
                        FieldPlan { group: Some(group), ..before.fields[k] }
                    } else {
                        before.fields[k]
                    },
            decreases end - i,
        {
            if self.fields[i].frame_group.is_some() {
                assert(before.fields[i as int].group is Some);
                return Err(Error::FieldInTwoFrames);
            }
            let ghost given = self.fields@;
            let mut field = self.fields.remove(i);
            field.frame_group = Some(group);
            self.fields.insert(i, field);
            proof {
                assert forall|k: int| 0 <= k < self.fields@.len() implies (
                #[trigger] self.fields@[k])@ == if start <= k < i + 1 {
                    FieldPlan { group: Some(group), ..before.fields[k] }
                } else {
                    before.fields[k]
                } by {
                    if k != i {
                        assert(self.fields@[k] == given[k]);
                    } else {
                        assert(given[k]@ == before.fields[k]);
                    }
                }
            }
            i = i + 1;
        }
        proof {
            let after = with_frame(before, start as int, end as int);
            assert(self@.fields =~= after.fields);
            assert forall|k: int| 0 <= k < after.fields.len() implies (
            #[trigger] after.fields[k]).alignment > 0 && after.fields[k].bytes.len() <= usize::MAX
                && (after.fields[k].group matches Some(g) ==> g < after.groups) by {
                assert(before.fields[k].alignment > 0);
            }
            assert(after.fields[0] == before.fields[0]);
        }
        Ok(())
    }

    pub(crate) fn add_dependency(&mut self, rule: DependencyRule)
        ensures
            final(self)@ == (PagePlan {
                dependencies: old(self)@.dependencies.push(rule),
                ..old(self)@
            }),
            plan_wf(old(self)@) ==> plan_wf(final(self)@),
    {
        let ghost before = self@;
        self.dependencies.push(rule);
        assert(self@.fields =~= before.fields);
    }

    /// Places the fields and frames, writes the header and reads the page back.
    pub(crate) fn finish(self) -> (r: Result<SerializedPage, Error>)
        requires
            plan_wf(self@),
        ensures
            match r {
                Ok(page) => {
                    let header = planned_header(self@)->Ok_0;
                    &&& finish_error(self@) is None
                    &&& page.wf()
                    &&& page.image() == planned_bytes(self@, header)
                    &&& page.plan() == planned_layout(self@, header)
                    &&& parsed_page(page.image()) matches Ok(parsed) && page.stated() == parsed.1
                    &&& frames_restore(self@)
                },
                Err(e) => finish_error(self@) == Some(e),
            },
    {
        let field_count: usize = self.fields.len();
        let frame_count: usize = self.next_frame_group;
        let header: usize = match header_length(
            HEADER_BASE,
            field_count,
            frame_count,
            self.dependencies.len(),
        ) {
            Ok(header) => header,
            Err(e) => {
                return Err(e);
            },
        };
        let ghost plan = self@;
        proof {
            lemma_header_room(plan, header as int);
        }
        let (offsets, mut body) = match self.place_direct(header) {
            Ok(placed) => placed,
            Err(e) => {
                return Err(e);
            },
        };
        let (offsets, frames) = match self.place_frames(header, offsets, &mut body) {
            Ok(placed) => placed,
            Err(e) => {
                return Err(e);
            },
        };
        let layout = self.layout(header, offsets, frames, header + body.len());
        match layout.validate() {
            Ok(()) => {},
            Err(e) => {
                return Err(e);
            },
        }
        match validate_invariants(self.invariants) {
            Ok(()) => {},
            Err(e) => {
                return Err(e);
            },
        }
        let mut bytes = write_header(&layout, self.invariants, header);
        let ghost image = bytes@;
        bytes.append(&mut body);
        assert(bytes@ == planned_bytes(plan, header as int));
        let copy = copy_bytes(&bytes);
        match SerializedPage::parse(copy) {
            Ok(parsed) => Ok(SerializedPage::assemble(bytes, layout, parsed.invariants())),
            Err(e) => Err(e),
        }
    }

    /// The offsets of the direct fields, and their bytes with padding.
    fn place_direct(&self, header: usize) -> (r: Result<(Vec<usize>, Vec<u8>), Error>)
        requires
            plan_wf(self@),
        ensures
            match r {
                Ok((offsets, body)) => {
                    &&& direct_error(self@.fields, header as int, self@.fields.len() as int) is None
                    &&& body@ == direct_body(
                        self@.fields,
                        header as int,
                        self@.fields.len() as int,
                    )
                    &&& header + body@.len() <= usize::MAX
                    &&& offsets@.len() == self@.fields.len()
                    &&& forall|i: int|
                        0 <= i < offsets@.len() && (#[trigger] self@.fields[i]).group is None
                            ==> offsets@[i] == location_offset(
                            planned_location(self@.fields, header as int, i),
                        )
                },
                Err(e) => direct_error(self@.fields, header as int, self@.fields.len() as int)
                    == Some(e),
            },
    {
        let mut offsets: Vec<usize> = Vec::new();
        let mut body: Vec<u8> = Vec::new();
        offsets.push(0);
        let ghost fields = self@.fields;
        let mut index: usize = 1;
        while index < self.fields.len()
            invariant
                plan_wf(self@),
                fields == self@.fields,
                fields.len() == self.fields@.len(),
                1 <= index <= fields.len(),
                direct_error(fields, header as int, index as int) is None,
                body@ == direct_body(fields, header as int, index as int),
                header + body@.len() <= usize::MAX,
                offsets@.len() == index,
                forall|i: int|
                    0 <= i < index && (#[trigger] fields[i]).group is None ==> offsets@[i]
                        == location_offset(planned_location(fields, header as int, i)),
            decreases fields.len() - index,
        {
            let field = &self.fields[index];
            assert(fields[index as int] == field@);
            if field.frame_group.is_none() {
                let cursor: usize = match align_up(header + body.len(), field.alignment) {
                    Ok(cursor) => cursor,
                    Err(e) => {
                        proof {
                            lemma_direct_stop(fields, header as int, index + 1, fields.len() as int);
                        }
                        return Err(e);
                    },
                };
                if field.bytes.len() > usize::MAX - cursor {
                    proof {
                        lemma_direct_stop(fields, header as int, index + 1, fields.len() as int);
                    }
                    return Err(Error::DirectFieldOverflow);
                }
                proof {
                    lemma_aligned(header + body@.len(), field.alignment as int);
                }
                pad_to(&mut body, cursor - header);
                append_copy(&mut body, &field.bytes);
                offsets.push(cursor);
                assert(body@ =~= direct_body(fields, header as int, index + 1));
            } else {
                offsets.push(0);
            }
            index = index + 1;
        }
        Ok((offsets, body))
    }

    /// Compresses the frames, adds them to the body, and gives the offsets of all
    /// fields and the frames.
    fn place_frames(&self, header: usize, direct: Vec<usize>, body: &mut Vec<u8>) -> (r: Result<
        (Vec<usize>, Vec<FrameLayout>),
        Error,
    >)
        requires
            plan_wf(self@),
            old(body)@ == direct_body(self@.fields, header as int, self@.fields.len() as int),
            header + old(body)@.len() <= usize::MAX,
            direct@.len() == self@.fields.len(),
            forall|i: int|
                0 <= i < direct@.len() && (#[trigger] self@.fields[i]).group is None ==> direct@[i]
                    == location_offset(planned_location(self@.fields, header as int, i)),
        ensures
            match r {
                Ok((offsets, frames)) => {
                    &&& frames_fault(self@.fields, header as int, self@.groups as int) is None
                    &&& final(body)@ == framed_body(
                        self@.fields,
                        header as int,
                        self@.groups as int,
                    )
                    &&& header + final(body)@.len() <= usize::MAX
                    &&& offsets@.len() == self@.fields.len()
                    &&& forall|i: int|
                        0 <= i < offsets@.len() ==> #[trigger] offsets@[i] == location_offset(
                            planned_location(self@.fields, header as int, i),
                        )
                    &&& frames@ == planned_layout(self@, header as int).frames
                    &&& frames_restore(self@)
                },
                Err(e) => frames_fault(self@.fields, header as int, self@.groups as int) == Some(
                    e,
                ),
            },
    {
        let mut offsets = direct;
        let mut frames: Vec<FrameLayout> = Vec::new();
        let ghost fields = self@.fields;
        let mut group: usize = 0;
        while group < self.next_frame_group
            invariant
                plan_wf(self@),
                fields == self@.fields,
                group <= self@.groups,
                self@.groups == self.next_frame_group,
                frames_fault(fields, header as int, group as int) is None,
                body@ == framed_body(fields, header as int, group as int),
                header + body@.len() <= usize::MAX,
                offsets@.len() == fields.len(),
                forall|i: int|
                    0 <= i < offsets@.len() && match (#[trigger] fields[i]).group {
                        None => true,
                        Some(g) => g < group,
                    } ==> offsets@[i] == location_offset(planned_location(fields, header as int, i)),
                frames@.len() == group,
                forall|g: int|
                    0 <= g < group ==> #[trigger] frames@[g] == planned_frame(fields, header as int, g),
                forall|g: int|
                    0 <= g < group ==> zstd_content(
                        frame_bytes(#[trigger] decoded_frame(fields, g)),
                    ) == Some(decoded_frame(fields, g)) && decoded_frame(fields, g).len()
                        <= isize::MAX,
            decreases self@.groups - group,
        {
            let decoded = match self.gather(group, header, &mut offsets) {
                Ok(decoded) => decoded,
                Err(e) => {
                    proof {
                        lemma_frames_fault_stop(
                            fields,
                            header as int,
                            group + 1,
                            self@.groups as int,
                        );
                    }
                    return Err(e);
                },
            };
            let compressed = match compress_frame(decoded.as_slice()) {
                Ok(compressed) => compressed,
                Err(e) => {
                    proof {
                        lemma_frames_fault_stop(
                            fields,
                            header as int,
                            group + 1,
                            self@.groups as int,
                        );
                    }
                    return Err(e);
                },
            };
            let cursor: usize = match align_up(header + body.len(), PAGE_ALIGNMENT) {
                Ok(cursor) => cursor,
                Err(e) => {
                    proof {
                        lemma_frames_fault_stop(
                            fields,
                            header as int,
                            group + 1,
                            self@.groups as int,
                        );
                    }
                    return Err(e);
                },
            };
            if compressed.len() > usize::MAX - cursor {
                proof {
                    lemma_frames_fault_stop(fields, header as int, group + 1, self@.groups as int);
                }
                return Err(Error::FrameOverflow);
            }
            frames.push(
                FrameLayout {
                    id: FrameId(group),
                    codec: FrameCodec::Zstd,
                    offset: cursor,
                    compressed_length: compressed.len(),
                    decoded_length: decoded.len(),
                    alignment: PAGE_ALIGNMENT,
                },
            );
            proof {
                lemma_aligned(header + body@.len(), PAGE_ALIGNMENT as int);
                assert(decoded@ == decoded_frame(fields, group as int));
            }
            pad_to(body, cursor - header);
            append_copy(body, &compressed);
            assert(body@ =~= framed_body(fields, header as int, group + 1));
            group = group + 1;
        }
        proof {
            assert(frames@ =~= planned_layout(self@, header as int).frames);
            assert forall|i: int| 0 <= i < offsets@.len() implies #[trigger] offsets@[i]
                == location_offset(planned_location(fields, header as int, i)) by {
                assert(fields[i].group matches Some(g) ==> g < self@.groups);
            }
        }
        Ok((offsets, frames))
    }

    /// The bytes of one frame with padding. Fills in the offsets of its fields.
    fn gather(&self, group: usize, header: usize, offsets: &mut Vec<usize>) -> (r: Result<
        Vec<u8>,
        Error,
    >)
        requires
            plan_wf(self@),
            old(offsets)@.len() == self@.fields.len(),
            forall|i: int|
                0 <= i < old(offsets)@.len() && match (#[trigger] self@.fields[i]).group {
                    None => true,
                    Some(g) => g < group,
                } ==> old(offsets)@[i] == location_offset(
                    planned_location(self@.fields, header as int, i),
                ),
        ensures
            match r {
                Ok(decoded) => {
                    &&& group_error(self@.fields, group, self@.fields.len() as int) is None
                    &&& decoded@ == decoded_frame(self@.fields, group as int)
                    &&& final(offsets)@.len() == self@.fields.len()
                    &&& forall|i: int|
                        0 <= i < final(offsets)@.len() && match (#[trigger] self@.fields[i]).group {
                            None => true,
                            Some(g) => g <= group,
                        } ==> final(offsets)@[i] == location_offset(
                            planned_location(self@.fields, header as int, i),
                        )
                },
                Err(e) => group_error(self@.fields, group, self@.fields.len() as int) == Some(e),
            },
    {
        let mut decoded: Vec<u8> = Vec::new();
        let ghost fields = self@.fields;
        let mut index: usize = 1;
        while index < self.fields.len()
            invariant
                plan_wf(self@),
                fields == self@.fields,
                fields.len() == self.fields@.len(),
                1 <= index <= fields.len(),
                group_error(fields, group, index as int) is None,
                decoded@ == group_bytes(fields, group, index as int),
                offsets@.len() == fields.len(),
                forall|i: int|
                    0 <= i < offsets@.len() && match (#[trigger] fields[i]).group {
                        None => true,
                        Some(g) => g < group || (g == group && i < index),
                    } ==> offsets@[i] == location_offset(planned_location(fields, header as int, i)),
            decreases fields.len() - index,
        {
            let field = &self.fields[index];
            assert(fields[index as int] == field@);
            if field.frame_group == Some(group) {
                let cursor: usize = match align_up(decoded.len(), field.alignment) {
                    Ok(cursor) => cursor,
                    Err(e) => {
                        proof {
                            lemma_group_stop(fields, group, index + 1, fields.len() as int);
                        }
                        return Err(e);
                    },
                };
                if field.bytes.len() > usize::MAX - cursor {
                    proof {
                        lemma_group_stop(fields, group, index + 1, fields.len() as int);
                    }
                    return Err(Error::FrameOverflow);
                }
                proof {
                    lemma_aligned(decoded@.len() as int, field.alignment as int);
                }
                pad_to(&mut decoded, cursor);
                append_copy(&mut decoded, &field.bytes);
                offsets.set(index, cursor);
                assert(decoded@ =~= group_bytes(fields, group, index + 1));
            }
            index = index + 1;
        }
        Ok(decoded)
    }

    fn layout(
        &self,
        header: usize,
        offsets: Vec<usize>,
        frames: Vec<FrameLayout>,
        file_length: usize,
    ) -> (r: LayoutIr)
        requires
            plan_wf(self@),
            offsets@.len() == self@.fields.len(),
            forall|i: int|
                0 <= i < offsets@.len() ==> #[trigger] offsets@[i] == location_offset(
                    planned_location(self@.fields, header as int, i),
                ),
            frames@ == planned_layout(self@, header as int).frames,
            file_length == planned_layout(self@, header as int).file_length,
        ensures
            r@ == planned_layout(self@, header as int),
    {
        let mut fields: Vec<FieldLayout> = Vec::new();
        let mut index: usize = 0;
        while index < self.fields.len()
            invariant
                plan_wf(self@),
                self.fields@.len() == self@.fields.len(),
                index <= self.fields@.len(),
                offsets@.len() == self@.fields.len(),
                forall|i: int|
                    0 <= i < offsets@.len() ==> #[trigger] offsets@[i] == location_offset(
                        planned_location(self@.fields, header as int, i),
                    ),
                fields@.len() == index,
                forall|i: int|
                    0 <= i < index ==> (#[trigger] fields@[i])@ == planned_field(
                        self@.fields,
                        header as int,
                        i,
                    ),
            decreases self.fields@.len() - index,
        {
            let field = &self.fields[index];
            assert(self@.fields[index as int] == field@);
            assert(offsets@[index as int] == location_offset(
                planned_location(self@.fields, header as int, index as int),
            ));
            let location = match field.frame_group {
                None => FieldLocation::Direct { offset: offsets[index] },
                Some(group) => FieldLocation::Framed {
                    frame: FrameId(group),
                    decoded_offset: offsets[index],
                },
            };
            fields.push(
                FieldLayout {
                    id: FieldId(index),
                    name: field.name.clone(),
                    length: if index == 0 {
                        header
                    } else {
                        field.bytes.len()
                    },
                    alignment: field.alignment,
                    read_granularity: field.read_granularity,
                    location,
                },
            );
            index = index + 1;
        }
        let mut dependencies: Vec<DependencyRule> = Vec::new();
        let mut next: usize = 0;
        while next < self.dependencies.len()
            invariant
                next <= self.dependencies@.len(),
                dependencies@ == self.dependencies@.take(next as int),
            decreases self.dependencies@.len() - next,
        {
            dependencies.push(self.dependencies[next]);
            next = next + 1;
            assert(dependencies@ =~= self.dependencies@.take(next as int));
        }
        assert(dependencies@ =~= self.dependencies@);
        let layout = LayoutIr { metadata: FieldId(0), fields, frames, dependencies, file_length };
        assert(layout@.fields =~= planned_layout(self@, header as int).fields);
        layout
    }
}

fn copy_bytes(bytes: &Vec<u8>) -> (r: Vec<u8>)
    ensures
        r@ == bytes@,
{
    let mut r: Vec<u8> = Vec::new();
    append_copy(&mut r, bytes);
    assert(r@ =~= bytes@);
    r
}

fn append_copy(out: &mut Vec<u8>, bytes: &Vec<u8>)
    ensures
        final(out)@ == old(out)@ + bytes@,
{
    let mut i: usize = 0;
    while i < bytes.len()
        invariant
            i <= bytes@.len(),
            out@ == old(out)@ + bytes@.take(i as int),
        decreases bytes@.len() - i,
    {
        out.push(bytes[i]);
        i = i + 1;
        assert(out@ =~= old(out)@ + bytes@.take(i as int));
    }
    assert(bytes@.take(i as int) =~= bytes@);
}

/// Adds zeros up to a length.
fn pad_to(out: &mut Vec<u8>, length: usize)
    requires
        old(out)@.len() <= length,
    ensures
        final(out)@ == old(out)@ + zeros(length - old(out)@.len()),
{
    let ghost start = out@.len();
    while out.len() < length
        invariant
            start == old(out)@.len(),
            start <= out@.len() <= length,
            out@ == old(out)@ + zeros(out@.len() - start),
        decreases length - out@.len(),
    {
        out.push(0);
        assert(out@ =~= old(out)@ + zeros(out@.len() - start));
    }
}

/// A header of a known length.
fn write_header(layout: &LayoutIr, invariants: CheckedInvariants, header: usize) -> (r: Vec<u8>)
    requires
        header_size(
            HEADER_BASE as int,
            layout@.fields.len() as int,
            layout@.frames.len() as int,
            layout@.dependencies.len() as int,
        ) == Ok::<int, Error>(header as int),
    ensures
        r@ == header_image(layout@, invariants, header as int),
        r@.len() == header,
{
    proof {
        lemma_header_len(layout@, invariants, header as int, 0);
        lemma_header_len(
            layout@,
            invariants,
            header as int,
            descriptor_checksum_of(header_with(layout@, invariants, header as int, 0)),
        );
    }
    let zeroed = write_header_with(layout, invariants, header, 0);
    let checksum: u64 = descriptor_checksum(&zeroed, header);
    assert(zeroed@.take(header as int) =~= zeroed@);
    write_header_with(layout, invariants, header, checksum)
}

fn write_header_with(
    layout: &LayoutIr,
    invariants: CheckedInvariants,
    header: usize,
    checksum: u64,
) -> (r: Vec<u8>)
    requires
        header_with(layout@, invariants, header as int, checksum).len() == header,
        HEADER_BASE + FIELD_DESC * layout@.fields.len() + FRAME_DESC * layout@.frames.len()
            + DEPENDENCY_DESC * layout@.dependencies.len() <= header,
    ensures
        r@ == header_with(layout@, invariants, header as int, checksum),
{
    let mut out: Vec<u8> = Vec::new();
    out.push(0x41);
    out.push(0x43);
    out.push(0x50);
    out.push(0x41);
    out.push(0x47);
    out.push(0x45);
    out.push(0x30);
    out.push(0x31);
    assert(out@ =~= magic());
    push_u32(&mut out, VERSION);
    push_u32(&mut out, layout.fields.len() as u32);
    push_u32(&mut out, layout.frames.len() as u32);
    push_u32(&mut out, layout.dependencies.len() as u32);
    push_u64(&mut out, layout.file_length as u64);
    push_u32(&mut out, encode_flags(invariants));
    let fixed: usize = out.len() + 4;
    pad_to(&mut out, fixed);
    assert(out@ =~= header_start(layout@, invariants));
    push_u64(&mut out, checksum);
    let ghost start = out@;
    assert(start == header_start(layout@, invariants) + u64_bytes(checksum));
    let ghost fields = layout@.fields;
    let mut i: usize = 0;
    while i < layout.fields.len()
        invariant
            fields == layout@.fields,
            fields.len() == layout.fields@.len(),
            i <= fields.len(),
            out@ == start + field_descs(fields.take(i as int)),
        decreases fields.len() - i,
    {
        push_field(&mut out, &layout.fields[i]);
        proof {
            lemma_field_descs_push(fields.take(i as int), fields[i as int]);
            assert(fields.take(i + 1) =~= fields.take(i as int).push(fields[i as int]));
        }
        i = i + 1;
        assert(out@ =~= start + field_descs(fields.take(i as int)));
    }
    assert(fields.take(i as int) =~= fields);
    let ghost middle = out@;
    let mut i: usize = 0;
    while i < layout.frames.len()
        invariant
            i <= layout.frames@.len(),
            out@ == middle + frame_descs(layout.frames@.take(i as int)),
        decreases layout.frames@.len() - i,
    {
        push_frame(&mut out, &layout.frames[i]);
        proof {
            let frames = layout.frames@;
            lemma_frame_descs_push(frames.take(i as int), frames[i as int]);
            assert(frames.take(i + 1) =~= frames.take(i as int).push(frames[i as int]));
        }
        i = i + 1;
        assert(out@ =~= middle + frame_descs(layout.frames@.take(i as int)));
    }
    assert(layout.frames@.take(i as int) =~= layout.frames@);
    let ghost later = out@;
    let mut i: usize = 0;
    while i < layout.dependencies.len()
        invariant
            i <= layout.dependencies@.len(),
            out@ == later + dependency_descs(layout.dependencies@.take(i as int)),
        decreases layout.dependencies@.len() - i,
    {
        push_dependency(&mut out, layout.dependencies[i]);
        proof {
            let rules = layout.dependencies@;
            lemma_dependency_descs_push(rules.take(i as int), rules[i as int]);
            assert(rules.take(i + 1) =~= rules.take(i as int).push(rules[i as int]));
        }
        i = i + 1;
        assert(out@ =~= later + dependency_descs(layout.dependencies@.take(i as int)));
    }
    assert(layout.dependencies@.take(i as int) =~= layout.dependencies@);
    proof {
        lemma_header_start_len(layout@, invariants);
        lemma_u64_bytes(checksum);
    }
    assert(out@.len() <= header);
    pad_to(&mut out, header);
    assert(out@ =~= header_with(layout@, invariants, header as int, checksum));
    out
}

fn push_kind(out: &mut Vec<u8>, kind: u8)
    ensures
        final(out)@ == old(out)@ + kind_bytes(kind),
{
    out.push(kind);
    out.push(0);
    out.push(0);
    out.push(0);
    assert(out@ =~= old(out)@ + kind_bytes(kind));
}

fn push_zeros(out: &mut Vec<u8>, count: u8)
    ensures
        final(out)@ == old(out)@ + zeros(count as int),
{
    let mut i: u8 = 0;
    while i < count
        invariant
            i <= count,
            out@ == old(out)@ + zeros(i as int),
        decreases count - i,
    {
        out.push(0);
        i = i + 1;
        assert(out@ =~= old(out)@ + zeros(i as int));
    }
    assert(out@ =~= old(out)@ + zeros(count as int));
}

fn push_field(out: &mut Vec<u8>, field: &FieldLayout)
    ensures
        final(out)@ == old(out)@ + field_desc(field@),
{
    let (kind, location_id, offset) = match field.location {
        FieldLocation::Direct { offset } => (0u8, 0usize, offset),
        FieldLocation::Framed { frame, decoded_offset } => (1u8, frame.0, decoded_offset),
    };
    push_u32(out, field.id.0 as u32);
    push_kind(out, kind);
    push_u32(out, location_id as u32);
    push_zeros(out, 4);
    push_u64(out, field.length as u64);
    push_u64(out, offset as u64);
    push_u32(out, field.alignment as u32);
    push_u32(out, field.read_granularity as u32);
    push_zeros(out, 8);
    assert(out@ =~= old(out)@ + field_desc(field@));
}

fn push_frame(out: &mut Vec<u8>, frame: &FrameLayout)
    ensures
        final(out)@ == old(out)@ + frame_desc(*frame),
{
    push_u32(out, frame.id.0 as u32);
    push_kind(out, 1);
    push_u64(out, frame.offset as u64);
    push_u64(out, frame.compressed_length as u64);
    push_u64(out, frame.decoded_length as u64);
    assert(out@ =~= old(out)@ + frame_desc(*frame));
}

fn push_dependency(out: &mut Vec<u8>, rule: DependencyRule)
    ensures
        final(out)@ == old(out)@ + dependency_desc(rule),
{
    let (kind, source, prerequisite, first, second) = match rule {
        DependencyRule::DependentField { source, prerequisite } => (
            0u8,
            source,
            prerequisite,
            0usize,
            0usize,
        ),
        DependencyRule::IndexedStream { data, index, data_block_bytes, index_entry_bytes } => (
            1u8,
            data,
            index,
            data_block_bytes,
            index_entry_bytes,
        ),
        DependencyRule::Restart { data, restarts, data_bytes_per_restart, bytes_per_restart } => (
            2u8,
            data,
            restarts,
            data_bytes_per_restart,
            bytes_per_restart,
        ),
    };
    push_kind(out, kind);
    push_u32(out, source.0 as u32);
    push_u32(out, prerequisite.0 as u32);
    push_zeros(out, 4);
    push_u64(out, first as u64);
    push_u64(out, second as u64);
    assert(out@ =~= old(out)@ + dependency_desc(rule));
}

fn encode_flags(invariants: CheckedInvariants) -> (r: u32)
    ensures
        r == flag_word(invariants),
{
    let whole: u32 = if invariants.non_decreasing {
        1
    } else {
        0
    };
    let dense: u32 = if invariants.non_decreasing_non_null {
        2
    } else {
        0
    };
    let placement: u32 = match invariants.null_placement {
        NullPlacement::NoNulls => 0,
        NullPlacement::First => 12,
        NullPlacement::Last => 20,
        NullPlacement::Arbitrary => 4,
    };
    32 + whole + dense + placement
}

// ----- lengths -----

pub proof fn lemma_field_desc_len(field: Field)
    ensures
        field_desc(field).len() == FIELD_DESC,
{
    broadcast use {lemma_u32_len, lemma_u64_len};

}

pub proof fn lemma_frame_desc_len(frame: FrameLayout)
    ensures
        frame_desc(frame).len() == FRAME_DESC,
{
    broadcast use {lemma_u32_len, lemma_u64_len};

}

pub proof fn lemma_dependency_desc_len(rule: DependencyRule)
    ensures
        dependency_desc(rule).len() == DEPENDENCY_DESC,
{
    broadcast use {lemma_u32_len, lemma_u64_len};

}

pub proof fn lemma_header_start_len(layout: Layout, stated: CheckedInvariants)
    ensures
        header_start(layout, stated).len() == CHECKSUM_AT,
{
    broadcast use {lemma_u32_len, lemma_u64_len};

}

proof fn lemma_header_room(plan: PagePlan, header: int)
    requires
        planned_header(plan) == Ok::<int, Error>(header),
    ensures
        HEADER_BASE + FIELD_DESC * plan.fields.len() + FRAME_DESC * plan.groups + DEPENDENCY_DESC
            * plan.dependencies.len() <= header <= usize::MAX,
{
    let raw = HEADER_BASE + plan.fields.len() * FIELD_DESC + plan.groups * FRAME_DESC
        + plan.dependencies.len() * DEPENDENCY_DESC;
    lemma_aligned(raw, PAGE_ALIGNMENT as int);
}

pub proof fn lemma_header_len(layout: Layout, stated: CheckedInvariants, header: int, checksum: u64)
    requires
        header_size(
            HEADER_BASE as int,
            layout.fields.len() as int,
            layout.frames.len() as int,
            layout.dependencies.len() as int,
        ) == Ok::<int, Error>(header),
    ensures
        header_with(layout, stated, header, checksum).len() == header,
        HEADER_BASE + FIELD_DESC * layout.fields.len() + FRAME_DESC * layout.frames.len()
            + DEPENDENCY_DESC * layout.dependencies.len() <= header,
{
    let raw = HEADER_BASE + layout.fields.len() * FIELD_DESC + layout.frames.len() * FRAME_DESC
        + layout.dependencies.len() * DEPENDENCY_DESC;
    lemma_aligned(raw, PAGE_ALIGNMENT as int);
    lemma_header_start_len(layout, stated);
    lemma_u64_bytes(checksum);
}

proof fn lemma_field_descs_push(fields: Seq<Field>, field: Field)
    ensures
        field_descs(fields.push(field)) == field_descs(fields) + field_desc(field),
{
    let all = field_descs(fields.push(field));
    let sum = field_descs(fields) + field_desc(field);
    let n = fields.len() as int;
    lemma_field_desc_len(field);
    assert forall|p: int| 0 <= p < all.len() implies all[p] == sum[p] by {
        if p < 48 * n {
            assert(p / 48 < n);
        } else {
            assert(p / 48 == n && p % 48 == p - 48 * n);
        }
    }
    assert(all =~= sum);
}

proof fn lemma_frame_descs_push(frames: Seq<FrameLayout>, frame: FrameLayout)
    ensures
        frame_descs(frames.push(frame)) == frame_descs(frames) + frame_desc(frame),
{
    let all = frame_descs(frames.push(frame));
    let sum = frame_descs(frames) + frame_desc(frame);
    let n = frames.len() as int;
    lemma_frame_desc_len(frame);
    assert forall|p: int| 0 <= p < all.len() implies all[p] == sum[p] by {
        if p < 32 * n {
            assert(p / 32 < n);
        } else {
            assert(p / 32 == n && p % 32 == p - 32 * n);
        }
    }
    assert(all =~= sum);
}

proof fn lemma_dependency_descs_push(rules: Seq<DependencyRule>, rule: DependencyRule)
    ensures
        dependency_descs(rules.push(rule)) == dependency_descs(rules) + dependency_desc(rule),
{
    let all = dependency_descs(rules.push(rule));
    let sum = dependency_descs(rules) + dependency_desc(rule);
    let n = rules.len() as int;
    lemma_dependency_desc_len(rule);
    assert forall|p: int| 0 <= p < all.len() implies all[p] == sum[p] by {
        if p < 32 * n {
            assert(p / 32 < n);
        } else {
            assert(p / 32 == n && p % 32 == p - 32 * n);
        }
    }
    assert(all =~= sum);
}

proof fn lemma_direct_stop(fields: Seq<FieldPlan>, header: int, i: int, n: int)
    requires
        i <= n,
        direct_error(fields, header, i) is Some,
    ensures
        direct_error(fields, header, n) == direct_error(fields, header, i),
    decreases n,
{
    if i < n {
        lemma_direct_stop(fields, header, i, n - 1);
    }
}

proof fn lemma_group_stop(fields: Seq<FieldPlan>, group: usize, i: int, n: int)
    requires
        i <= n,
        group_error(fields, group, i) is Some,
    ensures
        group_error(fields, group, n) == group_error(fields, group, i),
    decreases n,
{
    if i < n {
        lemma_group_stop(fields, group, i, n - 1);
    }
}

proof fn lemma_frames_fault_stop(fields: Seq<FieldPlan>, header: int, i: int, n: int)
    requires
        i <= n,
        frames_fault(fields, header, i) is Some,
    ensures
        frames_fault(fields, header, n) == frames_fault(fields, header, i),
    decreases n,
{
    if i < n {
        lemma_frames_fault_stop(fields, header, i, n - 1);
    }
}

} // verus!
