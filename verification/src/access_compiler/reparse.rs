//! A page that was assembled is read back as it was described.
#[allow(unused_imports)]
use super::builder::{
    dependency_desc, dependency_descs, directory, field_desc, field_descs, finish_error, frame_desc,
    frame_descs, framed_body, header_start, header_with, kind_bytes, lemma_dependency_desc_len,
    lemma_field_desc_len, lemma_frame_desc_len, lemma_header_len, location_frame, location_kind,
    location_offset, plan_wf, planned_bytes, planned_field, planned_frame, planned_header,
    planned_layout, rule_parts, zeros, PagePlan,
};
#[allow(unused_imports)]
use super::bytes::{
    lemma_u32_bytes, lemma_u32_len, lemma_u64_bytes, lemma_u64_len, u32_at, u32_bytes, u64_at,
    u64_bytes,
};
#[allow(unused_imports)]
use super::error::Error;
#[allow(unused_imports)]
use super::format::{
    aligned, consistent, default_name, descriptor_checksum_of, flag_word, flagged, header_of,
    header_size, lemma_aligned,
    magic, parsed_dependencies, parsed_dependency, parsed_field, parsed_fields, parsed_frame,
    parsed_frames, parsed_layout, parsed_page, stated_in, CHECKSUM_AT, DEPENDENCY_DESC, FIELD_DESC,
    FLAGS_AT, FRAME_DESC, HEADER_BASE, PAGE_ALIGNMENT, VERSION,
};
#[allow(unused_imports)]
use super::ids::{FieldId, FrameId};
#[allow(unused_imports)]
use super::invariants::CheckedInvariants;
#[allow(unused_imports)]
use super::layout::{
    field_error, fields_error, frame_error, frames_error, layout_error, DependencyRule, Field,
    FieldLocation, FrameLayout, Layout,
};
use vstd::prelude::*;

verus! {

/// A byte string lies in another from a place on.
pub open spec fn lies_at(whole: Seq<u8>, start: int, part: Seq<u8>) -> bool {
    &&& 0 <= start
    &&& start + part.len() <= whole.len()
    &&& forall|i: int| 0 <= i < part.len() ==> #[trigger] whole[start + i] == part[i]
}

proof fn lemma_lies_in(whole: Seq<u8>, start: int, part: Seq<u8>, at: int, inner: Seq<u8>)
    requires
        lies_at(whole, start, part),
        lies_at(part, at, inner),
    ensures
        lies_at(whole, start + at, inner),
{
    assert forall|i: int| 0 <= i < inner.len() implies #[trigger] whole[start + at + i]
        == inner[i] by {
        assert(part[at + i] == inner[i]);
        assert(whole[start + (at + i)] == part[at + i]);
    }
}

/// The parts of a sum.
proof fn lemma_lies_sum(a: Seq<u8>, b: Seq<u8>)
    ensures
        lies_at(a + b, 0, a),
        lies_at(a + b, a.len() as int, b),
{
}

proof fn lemma_u32_lies(whole: Seq<u8>, start: int, value: u32)
    requires
        lies_at(whole, start, u32_bytes(value)),
    ensures
        u32_at(whole, start) == value,
{
    let part = u32_bytes(value);
    lemma_u32_bytes(value);
    assert(whole[start + 0] == part[0]);
    assert(whole[start + 1] == part[1] && whole[start + 2] == part[2] && whole[start + 3]
        == part[3]);
}

proof fn lemma_u64_lies(whole: Seq<u8>, start: int, value: u64)
    requires
        lies_at(whole, start, u64_bytes(value)),
    ensures
        u64_at(whole, start) == value,
{
    let part = u64_bytes(value);
    lemma_u64_bytes(value);
    assert(whole[start + 0] == part[0] && whole[start + 1] == part[1] && whole[start + 2] == part[2]
        && whole[start + 3] == part[3] && whole[start + 4] == part[4] && whole[start + 5]
        == part[5] && whole[start + 6] == part[6] && whole[start + 7] == part[7]);
}

// ----- descriptors -----

proof fn lemma_field_desc_parts(field: Field)
    ensures
        ({
            let desc = field_desc(field);
            &&& u32_at(desc, 0) == field.id.0 as u32
            &&& desc[4] == location_kind(field.location)
            &&& u32_at(desc, 8) == location_frame(field.location) as u32
            &&& u64_at(desc, 16) == field.length as u64
            &&& u64_at(desc, 24) == location_offset(field.location) as u64
            &&& u32_at(desc, 32) == field.alignment as u32
            &&& u32_at(desc, 36) == field.read_granularity as u32
        }),
{
    broadcast use {lemma_u32_len, lemma_u64_len};

    let desc = field_desc(field);
    let a = u32_bytes(field.id.0 as u32);
    let b = kind_bytes(location_kind(field.location));
    let c = u32_bytes(location_frame(field.location) as u32);
    let d = zeros(4);
    let e = u64_bytes(field.length as u64);
    let f = u64_bytes(location_offset(field.location) as u64);
    let g = u32_bytes(field.alignment as u32);
    let h = u32_bytes(field.read_granularity as u32);
    let z = zeros(8);
    assert(desc == a + b + c + d + e + f + g + h + z);
    assert(lies_at(desc, 0, a));
    assert(desc[4] == b[0]);
    assert(lies_at(desc, 8, c));
    assert(lies_at(desc, 16, e));
    assert(lies_at(desc, 24, f));
    assert(lies_at(desc, 32, g));
    assert(lies_at(desc, 36, h));
    lemma_u32_lies(desc, 0, field.id.0 as u32);
    lemma_u32_lies(desc, 8, location_frame(field.location) as u32);
    lemma_u64_lies(desc, 16, field.length as u64);
    lemma_u64_lies(desc, 24, location_offset(field.location) as u64);
    lemma_u32_lies(desc, 32, field.alignment as u32);
    lemma_u32_lies(desc, 36, field.read_granularity as u32);
}

proof fn lemma_frame_desc_parts(frame: FrameLayout)
    ensures
        ({
            let desc = frame_desc(frame);
            &&& u32_at(desc, 0) == frame.id.0 as u32
            &&& desc[4] == 1
            &&& u64_at(desc, 8) == frame.offset as u64
            &&& u64_at(desc, 16) == frame.compressed_length as u64
            &&& u64_at(desc, 24) == frame.decoded_length as u64
        }),
{
    broadcast use {lemma_u32_len, lemma_u64_len};

    let desc = frame_desc(frame);
    let a = u32_bytes(frame.id.0 as u32);
    let b = kind_bytes(1);
    let c = u64_bytes(frame.offset as u64);
    let d = u64_bytes(frame.compressed_length as u64);
    let e = u64_bytes(frame.decoded_length as u64);
    assert(desc == a + b + c + d + e);
    assert(lies_at(desc, 0, a));
    assert(desc[4] == b[0]);
    assert(lies_at(desc, 8, c));
    assert(lies_at(desc, 16, d));
    assert(lies_at(desc, 24, e));
    lemma_u32_lies(desc, 0, frame.id.0 as u32);
    lemma_u64_lies(desc, 8, frame.offset as u64);
    lemma_u64_lies(desc, 16, frame.compressed_length as u64);
    lemma_u64_lies(desc, 24, frame.decoded_length as u64);
}

proof fn lemma_dependency_desc_parts(rule: DependencyRule)
    ensures
        ({
            let desc = dependency_desc(rule);
            let parts = rule_parts(rule);
            &&& desc[0] == parts.0
            &&& u32_at(desc, 4) == parts.1.0 as u32
            &&& u32_at(desc, 8) == parts.2.0 as u32
            &&& u64_at(desc, 16) == parts.3 as u64
            &&& u64_at(desc, 24) == parts.4 as u64
        }),
{
    broadcast use {lemma_u32_len, lemma_u64_len};

    let parts = rule_parts(rule);
    let desc = dependency_desc(rule);
    let a = kind_bytes(parts.0);
    let b = u32_bytes(parts.1.0 as u32);
    let c = u32_bytes(parts.2.0 as u32);
    let d = zeros(4);
    let e = u64_bytes(parts.3 as u64);
    let f = u64_bytes(parts.4 as u64);
    assert(desc == a + b + c + d + e + f);
    assert(desc[0] == a[0]);
    assert(lies_at(desc, 4, b));
    assert(lies_at(desc, 8, c));
    assert(lies_at(desc, 16, e));
    assert(lies_at(desc, 24, f));
    lemma_u32_lies(desc, 4, parts.1.0 as u32);
    lemma_u32_lies(desc, 8, parts.2.0 as u32);
    lemma_u64_lies(desc, 16, parts.3 as u64);
    lemma_u64_lies(desc, 24, parts.4 as u64);
}

proof fn lemma_header_start_parts(layout: Layout, stated: CheckedInvariants)
    ensures
        ({
            let start = header_start(layout, stated);
            &&& lies_at(start, 0, magic())
            &&& lies_at(start, 8, u32_bytes(VERSION))
            &&& lies_at(start, 12, u32_bytes(layout.fields.len() as usize as u32))
            &&& lies_at(start, 16, u32_bytes(layout.frames.len() as usize as u32))
            &&& lies_at(start, 20, u32_bytes(layout.dependencies.len() as usize as u32))
            &&& lies_at(start, 24, u64_bytes(layout.file_length as u64))
            &&& lies_at(start, 32, u32_bytes(flag_word(stated)))
            &&& start.len() == 40
        }),
{
    broadcast use {lemma_u32_len, lemma_u64_len};

    let start = header_start(layout, stated);
    let m = magic();
    let a = u32_bytes(VERSION);
    let b = u32_bytes(layout.fields.len() as usize as u32);
    let c = u32_bytes(layout.frames.len() as usize as u32);
    let d = u32_bytes(layout.dependencies.len() as usize as u32);
    let e = u64_bytes(layout.file_length as u64);
    let f = u32_bytes(flag_word(stated));
    let z = zeros(4);
    assert(start == m + a + b + c + d + e + f + z);
}

proof fn lemma_u32_within(whole: Seq<u8>, start: int, part: Seq<u8>, at: int)
    requires
        lies_at(whole, start, part),
        0 <= at,
        at + 4 <= part.len(),
    ensures
        u32_at(whole, start + at) == u32_at(part, at),
{
    assert(whole[start + at] == part[at] && whole[start + (at + 1)] == part[at + 1] && whole[start
        + (at + 2)] == part[at + 2] && whole[start + (at + 3)] == part[at + 3]);
}

proof fn lemma_u64_within(whole: Seq<u8>, start: int, part: Seq<u8>, at: int)
    requires
        lies_at(whole, start, part),
        0 <= at,
        at + 8 <= part.len(),
    ensures
        u64_at(whole, start + at) == u64_at(part, at),
{
    assert(whole[start + at] == part[at] && whole[start + (at + 1)] == part[at + 1] && whole[start
        + (at + 2)] == part[at + 2] && whole[start + (at + 3)] == part[at + 3]);
    assert(whole[start + (at + 4)] == part[at + 4] && whole[start + (at + 5)] == part[at + 5]
        && whole[start + (at + 6)] == part[at + 6] && whole[start + (at + 7)] == part[at + 7]);
}

proof fn lemma_field_descs_at(fields: Seq<Field>, i: int)
    requires
        0 <= i < fields.len(),
    ensures
        lies_at(field_descs(fields), i * FIELD_DESC, field_desc(fields[i])),
{
    lemma_field_desc_len(fields[i]);
    let whole = field_descs(fields);
    assert forall|j: int| 0 <= j < FIELD_DESC implies #[trigger] whole[i * FIELD_DESC + j]
        == field_desc(fields[i])[j] by {
        assert((i * 48 + j) / 48 == i && (i * 48 + j) % 48 == j);
    }
}

proof fn lemma_frame_descs_at(frames: Seq<FrameLayout>, i: int)
    requires
        0 <= i < frames.len(),
    ensures
        lies_at(frame_descs(frames), i * FRAME_DESC, frame_desc(frames[i])),
{
    lemma_frame_desc_len(frames[i]);
    let whole = frame_descs(frames);
    assert forall|j: int| 0 <= j < FRAME_DESC implies #[trigger] whole[i * FRAME_DESC + j]
        == frame_desc(frames[i])[j] by {
        assert((i * 32 + j) / 32 == i && (i * 32 + j) % 32 == j);
    }
}

proof fn lemma_dependency_descs_at(rules: Seq<DependencyRule>, i: int)
    requires
        0 <= i < rules.len(),
    ensures
        lies_at(dependency_descs(rules), i * DEPENDENCY_DESC, dependency_desc(rules[i])),
{
    lemma_dependency_desc_len(rules[i]);
    let whole = dependency_descs(rules);
    assert forall|j: int| 0 <= j < DEPENDENCY_DESC implies #[trigger] whole[i * DEPENDENCY_DESC + j]
        == dependency_desc(rules[i])[j] by {
        assert((i * 32 + j) / 32 == i && (i * 32 + j) % 32 == j);
    }
}

// ----- what is read back -----

/// The field under the name that it has once read.
pub open spec fn renamed_field(field: Field, index: int) -> Field {
    Field { name: default_name(index), ..field }
}

/// The layout under the names that its fields have once read.
pub open spec fn renamed(layout: Layout) -> Layout {
    Layout {
        fields: Seq::new(layout.fields.len(), |i: int| renamed_field(layout.fields[i], i)),
        ..layout
    }
}

/// The numbers that a header writes in four bytes fit them.
pub open spec fn describable(layout: Layout) -> bool {
    &&& layout.fields.len() <= u32::MAX
    &&& layout.frames.len() <= u32::MAX
    &&& layout.dependencies.len() <= u32::MAX
    &&& forall|i: int|
        0 <= i < layout.fields.len() ==> (#[trigger] layout.fields[i]).alignment <= u32::MAX
            && layout.fields[i].read_granularity <= u32::MAX && location_frame(
            layout.fields[i].location,
        ) <= u32::MAX
    &&& forall|i: int|
        0 <= i < layout.dependencies.len() ==> rule_parts(#[trigger] layout.dependencies[i]).1.0
            <= u32::MAX && rule_parts(layout.dependencies[i]).2.0 <= u32::MAX
}

proof fn lemma_parsed_field(bytes: Seq<u8>, base: int, fields: Seq<Field>, i: int)
    requires
        0 <= base,
        lies_at(bytes, base, field_descs(fields)),
        0 <= i < fields.len() <= u32::MAX,
        fields[i].id == FieldId(i as usize),
        fields[i].alignment <= u32::MAX,
        fields[i].read_granularity <= u32::MAX,
        location_frame(fields[i].location) <= u32::MAX,
    ensures
        parsed_field(bytes, base, i) == Ok::<Field, Error>(renamed_field(fields[i], i)),
{
    let field = fields[i];
    let desc = field_desc(field);
    let at = base + i * FIELD_DESC;
    lemma_field_descs_at(fields, i);
    lemma_lies_in(bytes, base, field_descs(fields), i * FIELD_DESC, desc);
    lemma_field_desc_len(field);
    lemma_field_desc_parts(field);
    assert(lies_at(bytes, at, desc));
    lemma_u32_within(bytes, at, desc, 0);
    lemma_u32_within(bytes, at, desc, 8);
    lemma_u64_within(bytes, at, desc, 16);
    lemma_u64_within(bytes, at, desc, 24);
    lemma_u32_within(bytes, at, desc, 32);
    lemma_u32_within(bytes, at, desc, 36);
    assert(bytes[at + 4] == desc[4]);
}

proof fn lemma_parsed_frame(bytes: Seq<u8>, base: int, frames: Seq<FrameLayout>, i: int)
    requires
        0 <= base,
        lies_at(bytes, base, frame_descs(frames)),
        0 <= i < frames.len() <= u32::MAX,
        frames[i].id == FrameId(i as usize),
        frames[i].alignment == PAGE_ALIGNMENT,
    ensures
        parsed_frame(bytes, base, i) == Ok::<FrameLayout, Error>(frames[i]),
{
    let frame = frames[i];
    let desc = frame_desc(frame);
    let at = base + i * FRAME_DESC;
    lemma_frame_descs_at(frames, i);
    lemma_lies_in(bytes, base, frame_descs(frames), i * FRAME_DESC, desc);
    lemma_frame_desc_len(frame);
    lemma_frame_desc_parts(frame);
    assert(lies_at(bytes, at, desc));
    lemma_u32_within(bytes, at, desc, 0);
    lemma_u64_within(bytes, at, desc, 8);
    lemma_u64_within(bytes, at, desc, 16);
    lemma_u64_within(bytes, at, desc, 24);
    assert(bytes[at + 4] == desc[4]);
}

proof fn lemma_parsed_dependency(bytes: Seq<u8>, base: int, rules: Seq<DependencyRule>, i: int)
    requires
        0 <= base,
        lies_at(bytes, base, dependency_descs(rules)),
        0 <= i < rules.len(),
        rule_parts(rules[i]).1.0 <= u32::MAX,
        rule_parts(rules[i]).2.0 <= u32::MAX,
    ensures
        parsed_dependency(bytes, base, i) == Ok::<DependencyRule, Error>(rules[i]),
{
    let rule = rules[i];
    let desc = dependency_desc(rule);
    let at = base + i * DEPENDENCY_DESC;
    lemma_dependency_descs_at(rules, i);
    lemma_lies_in(bytes, base, dependency_descs(rules), i * DEPENDENCY_DESC, desc);
    lemma_dependency_desc_len(rule);
    lemma_dependency_desc_parts(rule);
    assert(lies_at(bytes, at, desc));
    lemma_u32_within(bytes, at, desc, 4);
    lemma_u32_within(bytes, at, desc, 8);
    lemma_u64_within(bytes, at, desc, 16);
    lemma_u64_within(bytes, at, desc, 24);
    assert(bytes[at + 0] == desc[0]);
}

proof fn lemma_parsed_fields(bytes: Seq<u8>, base: int, fields: Seq<Field>, n: int)
    requires
        0 <= base,
        lies_at(bytes, base, field_descs(fields)),
        0 <= n <= fields.len() <= u32::MAX,
        forall|i: int|
            0 <= i < fields.len() ==> (#[trigger] fields[i]).id == FieldId(i as usize)
                && fields[i].alignment <= u32::MAX && fields[i].read_granularity <= u32::MAX
                && location_frame(fields[i].location) <= u32::MAX,
    ensures
        parsed_fields(bytes, base, n) == Ok::<Seq<Field>, Error>(
            Seq::new(n as nat, |i: int| renamed_field(fields[i], i)),
        ),
    decreases n,
{
    if n > 0 {
        lemma_parsed_fields(bytes, base, fields, n - 1);
        assert(fields[n - 1].id == FieldId((n - 1) as usize));
        lemma_parsed_field(bytes, base, fields, n - 1);
        assert(Seq::new((n - 1) as nat, |i: int| renamed_field(fields[i], i)).push(
            renamed_field(fields[n - 1], n - 1),
        ) =~= Seq::new(n as nat, |i: int| renamed_field(fields[i], i)));
    } else {
        assert(Seq::new(0, |i: int| renamed_field(fields[i], i)) =~= Seq::<Field>::empty());
    }
}

proof fn lemma_parsed_frames(bytes: Seq<u8>, base: int, frames: Seq<FrameLayout>, n: int)
    requires
        0 <= base,
        lies_at(bytes, base, frame_descs(frames)),
        0 <= n <= frames.len() <= u32::MAX,
        forall|i: int|
            0 <= i < frames.len() ==> (#[trigger] frames[i]).id == FrameId(i as usize)
                && frames[i].alignment == PAGE_ALIGNMENT,
    ensures
        parsed_frames(bytes, base, n) == Ok::<Seq<FrameLayout>, Error>(frames.take(n)),
    decreases n,
{
    if n > 0 {
        lemma_parsed_frames(bytes, base, frames, n - 1);
        assert(frames[n - 1].id == FrameId((n - 1) as usize));
        lemma_parsed_frame(bytes, base, frames, n - 1);
        assert(frames.take(n - 1).push(frames[n - 1]) =~= frames.take(n));
    } else {
        assert(frames.take(0) =~= Seq::<FrameLayout>::empty());
    }
}

proof fn lemma_parsed_dependencies(bytes: Seq<u8>, base: int, rules: Seq<DependencyRule>, n: int)
    requires
        0 <= base,
        lies_at(bytes, base, dependency_descs(rules)),
        0 <= n <= rules.len(),
        forall|i: int|
            0 <= i < rules.len() ==> rule_parts(#[trigger] rules[i]).1.0 <= u32::MAX && rule_parts(
                rules[i],
            ).2.0 <= u32::MAX,
    ensures
        parsed_dependencies(bytes, base, n) == Ok::<Seq<DependencyRule>, Error>(rules.take(n)),
    decreases n,
{
    if n > 0 {
        lemma_parsed_dependencies(bytes, base, rules, n - 1);
        assert(rule_parts(rules[n - 1]).1.0 <= u32::MAX);
        lemma_parsed_dependency(bytes, base, rules, n - 1);
        assert(rules.take(n - 1).push(rules[n - 1]) =~= rules.take(n));
    } else {
        assert(rules.take(0) =~= Seq::<DependencyRule>::empty());
    }
}

/// The parts of a page that starts with a header.
proof fn lemma_page_parts(
    layout: Layout,
    stated: CheckedInvariants,
    header: int,
    checksum: u64,
    body: Seq<u8>,
)
    requires
        HEADER_BASE + layout.fields.len() * FIELD_DESC + layout.frames.len() * FRAME_DESC
            + layout.dependencies.len() * DEPENDENCY_DESC <= header,
    ensures
        ({
            let page = header_with(layout, stated, header, checksum) + body;
            let frames_at = HEADER_BASE + layout.fields.len() * FIELD_DESC;
            let rules_at = frames_at + layout.frames.len() * FRAME_DESC;
            &&& lies_at(page, 0, header_start(layout, stated))
            &&& lies_at(page, CHECKSUM_AT as int, u64_bytes(checksum))
            &&& lies_at(page, HEADER_BASE as int, field_descs(layout.fields))
            &&& lies_at(page, frames_at, frame_descs(layout.frames))
            &&& lies_at(page, rules_at, dependency_descs(layout.dependencies))
        }),
{
    broadcast use {lemma_u32_len, lemma_u64_len};

    let head = header_with(layout, stated, header, checksum);
    let page = head + body;
    let start = header_start(layout, stated);
    let sum = u64_bytes(checksum);
    let list = directory(layout, header);
    let a = field_descs(layout.fields);
    let b = frame_descs(layout.frames);
    let c = dependency_descs(layout.dependencies);
    let entries = a + b + c;
    lemma_header_start_parts(layout, stated);
    lemma_lies_sum(head, body);
    lemma_lies_sum(start + sum, list);
    lemma_lies_sum(start, sum);
    lemma_lies_in(head, 0, start + sum, 0, start);
    lemma_lies_in(head, 0, start + sum, 40, sum);
    lemma_lies_in(page, 0, head, 0, start);
    lemma_lies_in(page, 0, head, 40, sum);
    lemma_lies_sum(entries, zeros(header - HEADER_BASE - entries.len()));
    lemma_lies_sum(a + b, c);
    lemma_lies_sum(a, b);
    lemma_lies_in(entries, 0, a + b, 0, a);
    lemma_lies_in(entries, 0, a + b, a.len() as int, b);
    lemma_lies_in(list, 0, entries, 0, a);
    lemma_lies_in(list, 0, entries, a.len() as int, b);
    lemma_lies_in(list, 0, entries, (a + b).len() as int, c);
    lemma_lies_in(page, 0, head, 48, list);
    lemma_lies_in(page, 48, list, 0, a);
    lemma_lies_in(page, 48, list, a.len() as int, b);
    lemma_lies_in(page, 48, list, (a + b).len() as int, c);
}

proof fn lemma_checksum_ignores(one: Seq<u8>, other: Seq<u8>)
    requires
        one.len() == other.len(),
        forall|i: int|
            0 <= i < one.len() && !(CHECKSUM_AT <= i < CHECKSUM_AT + 8) ==> #[trigger] one[i]
                == other[i],
    ensures
        descriptor_checksum_of(one) == descriptor_checksum_of(other),
    decreases one.len(),
{
    if one.len() > 0 {
        lemma_checksum_ignores(one.drop_last(), other.drop_last());
    }
}

/// A header's own checksum does not change what is hashed.
proof fn lemma_checksum_agrees(layout: Layout, stated: CheckedInvariants, header: int, sum: u64)
    ensures
        descriptor_checksum_of(header_with(layout, stated, header, sum)) == descriptor_checksum_of(
            header_with(layout, stated, header, 0),
        ),
{
    broadcast use {lemma_u32_len, lemma_u64_len};

    lemma_header_start_parts(layout, stated);
    lemma_checksum_ignores(
        header_with(layout, stated, header, sum),
        header_with(layout, stated, header, 0),
    );
}

proof fn lemma_flags_back(stated: CheckedInvariants)
    requires
        consistent(stated),
    ensures
        flag_word(stated) < 64,
        flagged(flag_word(stated)) == Ok::<CheckedInvariants, Error>(stated),
{
}

/// The fixed part of an assembled page reads as it was written.
proof fn lemma_start_back(plan: PagePlan, header: int)
    requires
        planned_header(plan) == Ok::<int, Error>(header),
    ensures
        ({
            let layout = planned_layout(plan, header);
            let bytes = planned_bytes(plan, header);
            &&& bytes.subrange(0, 8) == magic()
            &&& u32_at(bytes, 8) == VERSION
            &&& u32_at(bytes, 12) == layout.fields.len() as usize as u32
            &&& u32_at(bytes, 16) == layout.frames.len() as usize as u32
            &&& u64_at(bytes, 24) == layout.file_length
            &&& u32_at(bytes, 20) == layout.dependencies.len() as usize as u32
            &&& u32_at(bytes, FLAGS_AT as int) == flag_word(plan.stated)
        }),
{
    broadcast use {lemma_u32_len, lemma_u64_len};

    let layout = planned_layout(plan, header);
    let stated = plan.stated;
    let body = framed_body(plan.fields, header, plan.groups as int);
    let bytes = planned_bytes(plan, header);
    let sum = descriptor_checksum_of(header_with(layout, stated, header, 0));
    let start = header_start(layout, stated);
    lemma_header_len(layout, stated, header, sum);
    lemma_page_parts(layout, stated, header, sum, body);
    lemma_header_start_parts(layout, stated);
    lemma_lies_in(bytes, 0, start, 0, magic());
    assert(bytes.subrange(0, 8) =~= magic()) by {
        assert forall|i: int| 0 <= i < 8 implies bytes.subrange(0, 8)[i] == magic()[i] by {
            assert(bytes[0 + i] == magic()[i]);
        }
    }
    lemma_lies_in(bytes, 0, start, 8, u32_bytes(VERSION));
    lemma_u32_lies(bytes, 8, VERSION);
    let fields = layout.fields.len() as usize as u32;
    let frames = layout.frames.len() as usize as u32;
    let rules = layout.dependencies.len() as usize as u32;
    lemma_lies_in(bytes, 0, start, 12, u32_bytes(fields));
    lemma_u32_lies(bytes, 12, fields);
    lemma_lies_in(bytes, 0, start, 16, u32_bytes(frames));
    lemma_u32_lies(bytes, 16, frames);
    lemma_lies_in(bytes, 0, start, 20, u32_bytes(rules));
    lemma_u32_lies(bytes, 20, rules);
    lemma_lies_in(bytes, 0, start, 24, u64_bytes(layout.file_length as u64));
    lemma_u64_lies(bytes, 24, layout.file_length as u64);
    lemma_lies_in(bytes, 0, start, 32, u32_bytes(flag_word(stated)));
    lemma_u32_lies(bytes, 32, flag_word(stated));
}

/// What an assembled page states about its values is what it was assembled
/// with.
pub proof fn law_statements_survive(plan: PagePlan)
    requires
        finish_error(plan) is None,
    ensures
        parsed_page(planned_bytes(plan, planned_header(plan)->Ok_0)) matches Ok(page) && page.1
            == plan.stated,
{
    let header = planned_header(plan)->Ok_0;
    lemma_start_back(plan, header);
    lemma_flags_back(plan.stated);
}

proof fn lemma_fields_error_renamed(layout: Layout, n: int)
    requires
        0 <= n <= layout.fields.len(),
    ensures
        fields_error(renamed(layout), n) == fields_error(layout, n),
    decreases n,
{
    if n > 0 {
        lemma_fields_error_renamed(layout, n - 1);
        assert(field_error(renamed(layout), n - 1) == field_error(layout, n - 1));
    }
}

proof fn lemma_frames_error_renamed(layout: Layout, n: int)
    ensures
        frames_error(renamed(layout), n) == frames_error(layout, n),
    decreases n,
{
    if n > 0 {
        lemma_frames_error_renamed(layout, n - 1);
        assert(frame_error(renamed(layout), n - 1) == frame_error(layout, n - 1));
    }
}

/// Names do not matter to the validity of a layout.
pub proof fn law_names_do_not_matter(layout: Layout)
    ensures
        layout_error(renamed(layout)) == layout_error(layout),
{
    lemma_fields_error_renamed(layout, layout.fields.len() as int);
    lemma_frames_error_renamed(layout, layout.frames.len() as int);
    assert(renamed(layout).dependencies == layout.dependencies);
}

proof fn lemma_head_back(plan: PagePlan, header: int)
    requires
        plan_wf(plan),
        planned_header(plan) == Ok::<int, Error>(header),
        header + framed_body(plan.fields, header, plan.groups as int).len() <= usize::MAX,
        layout_error(planned_layout(plan, header)) is None,
        consistent(plan.stated),
        describable(planned_layout(plan, header)),
    ensures
        stated_in(planned_bytes(plan, header), header) == Ok::<CheckedInvariants, Error>(
            plan.stated,
        ),
        header_of(planned_bytes(plan, header)) == Ok::<(int, int), Error>(
            (header, HEADER_BASE as int),
        ),
{
    let layout = planned_layout(plan, header);
    let bytes = planned_bytes(plan, header);
    let body = framed_body(plan.fields, header, plan.groups as int);
    let sum = descriptor_checksum_of(header_with(layout, plan.stated, header, 0));
    let head = header_with(layout, plan.stated, header, sum);
    lemma_start_back(plan, header);
    lemma_flags_back(plan.stated);
    lemma_header_len(layout, plan.stated, header, sum);
    lemma_page_parts(layout, plan.stated, header, sum, body);
    lemma_u64_lies(bytes, CHECKSUM_AT as int, sum);
    lemma_checksum_agrees(layout, plan.stated, header, sum);
    assert(bytes.take(header) =~= head);
    assert(bytes.len() == header + body.len());
}

/// The bytes hold the directory of a layout whose parts are numbered in order.
spec fn holds_directory(bytes: Seq<u8>, layout: Layout) -> bool {
    let frames_at = HEADER_BASE + layout.fields.len() * FIELD_DESC;
    let rules_at = frames_at + layout.frames.len() * FRAME_DESC;
    &&& u32_at(bytes, 12) == layout.fields.len()
    &&& u32_at(bytes, 16) == layout.frames.len()
    &&& u32_at(bytes, 20) == layout.dependencies.len()
    &&& lies_at(bytes, HEADER_BASE as int, field_descs(layout.fields))
    &&& lies_at(bytes, frames_at, frame_descs(layout.frames))
    &&& lies_at(bytes, rules_at, dependency_descs(layout.dependencies))
    &&& forall|i: int|
        0 <= i < layout.fields.len() ==> (#[trigger] layout.fields[i]).id == FieldId(i as usize)
    &&& forall|i: int|
        0 <= i < layout.frames.len() ==> (#[trigger] layout.frames[i]).id == FrameId(i as usize)
            && layout.frames[i].alignment == PAGE_ALIGNMENT
}

proof fn lemma_directory_back(bytes: Seq<u8>, layout: Layout, header: int)
    requires
        holds_directory(bytes, layout),
        describable(layout),
        layout.metadata == FieldId(0),
        layout.file_length == bytes.len(),
        layout_error(layout) is None,
        layout.fields[0].length == header,
        layout.fields[0].location == (FieldLocation::Direct { offset: 0 }),
    ensures
        parsed_layout(bytes, HEADER_BASE as int, header) == Ok::<Layout, Error>(renamed(layout)),
{
    let frames_at = HEADER_BASE + layout.fields.len() * FIELD_DESC;
    let rules_at = frames_at + layout.frames.len() * FRAME_DESC;
    lemma_parsed_fields(bytes, HEADER_BASE as int, layout.fields, layout.fields.len() as int);
    lemma_parsed_frames(bytes, frames_at, layout.frames, layout.frames.len() as int);
    lemma_parsed_dependencies(
        bytes,
        rules_at,
        layout.dependencies,
        layout.dependencies.len() as int,
    );
    assert(layout.frames.take(layout.frames.len() as int) =~= layout.frames);
    assert(layout.dependencies.take(layout.dependencies.len() as int) =~= layout.dependencies);
    law_names_do_not_matter(layout);
    assert(layout.fields.len() > 0);
    assert(renamed(layout).fields[0].length == header);
}

proof fn lemma_holds_directory(plan: PagePlan, header: int)
    requires
        plan_wf(plan),
        planned_header(plan) == Ok::<int, Error>(header),
        header + framed_body(plan.fields, header, plan.groups as int).len() <= usize::MAX,
        layout_error(planned_layout(plan, header)) is None,
        consistent(plan.stated),
        describable(planned_layout(plan, header)),
    ensures
        holds_directory(planned_bytes(plan, header), planned_layout(plan, header)),
        planned_bytes(plan, header).len() == planned_layout(plan, header).file_length,
{
    let layout = planned_layout(plan, header);
    let bytes = planned_bytes(plan, header);
    let body = framed_body(plan.fields, header, plan.groups as int);
    let sum = descriptor_checksum_of(header_with(layout, plan.stated, header, 0));
    lemma_start_back(plan, header);
    lemma_header_len(layout, plan.stated, header, sum);
    lemma_page_parts(layout, plan.stated, header, sum, body);
    assert forall|i: int| 0 <= i < layout.fields.len() implies (#[trigger] layout.fields[i]).id
        == FieldId(i as usize) by {
        assert(layout.fields[i] == planned_field(plan.fields, header, i));
    }
    assert forall|i: int| 0 <= i < layout.frames.len() implies (#[trigger] layout.frames[i]).id
        == FrameId(i as usize) && layout.frames[i].alignment == PAGE_ALIGNMENT by {
        assert(layout.frames[i] == planned_frame(plan.fields, header, i));
    }
}

pub proof fn lemma_metadata_first(plan: PagePlan, header: int)
    requires
        plan_wf(plan),
        planned_header(plan) == Ok::<int, Error>(header),
    ensures
        planned_layout(plan, header).metadata == FieldId(0),
        planned_layout(plan, header).fields[0].length == header,
        planned_layout(plan, header).fields[0].location == (FieldLocation::Direct { offset: 0 }),
{
    let layout = planned_layout(plan, header);
    assert(layout.fields[0] == planned_field(plan.fields, header, 0));
    lemma_header_len(layout, plan.stated, header, 0);
    lemma_aligned(
        HEADER_BASE + plan.fields.len() * FIELD_DESC + plan.groups * FRAME_DESC
            + plan.dependencies.len() * DEPENDENCY_DESC,
        PAGE_ALIGNMENT as int,
    );
}

proof fn lemma_page_back(
    bytes: Seq<u8>,
    layout: Layout,
    stated: CheckedInvariants,
    header: int,
)
    requires
        header_of(bytes) == Ok::<(int, int), Error>((header, HEADER_BASE as int)),
        stated_in(bytes, header) == Ok::<CheckedInvariants, Error>(stated),
        parsed_layout(bytes, HEADER_BASE as int, header) == Ok::<Layout, Error>(renamed(layout)),
    ensures
        parsed_page(bytes) == Ok::<(Layout, CheckedInvariants), Error>((renamed(layout), stated)),
{
}

/// A page that is assembled and then read is accepted. It has the layout that it
/// was assembled with, but for the names of its fields, which a page does not
/// hold, and it states the same about its values. The header has four bytes for
/// some of its numbers, and these are taken to fit.
pub proof fn law_pages_read_back(plan: PagePlan, header: int)
    requires
        plan_wf(plan),
        planned_header(plan) == Ok::<int, Error>(header),
        header + framed_body(plan.fields, header, plan.groups as int).len() <= usize::MAX,
        layout_error(planned_layout(plan, header)) is None,
        consistent(plan.stated),
        describable(planned_layout(plan, header)),
    ensures
        parsed_page(planned_bytes(plan, header)) == Ok::<(Layout, CheckedInvariants), Error>(
            (renamed(planned_layout(plan, header)), plan.stated),
        ),
{
    lemma_head_back(plan, header);
    lemma_holds_directory(plan, header);
    lemma_metadata_first(plan, header);
    lemma_directory_back(planned_bytes(plan, header), planned_layout(plan, header), header);
    lemma_page_back(planned_bytes(plan, header), planned_layout(plan, header), plan.stated, header);
}

proof fn lemma_first_field(bytes: Seq<u8>, base: int, n: int)
    requires
        0 < n,
        parsed_fields(bytes, base, n) is Ok,
    ensures
        parsed_fields(bytes, base, n)->Ok_0.len() == n,
        parsed_field(bytes, base, 0) == Ok::<Field, Error>(parsed_fields(bytes, base, n)->Ok_0[0]),
    decreases n,
{
    if n > 1 {
        lemma_first_field(bytes, base, n - 1);
    } else {
        assert(parsed_fields(bytes, base, 0) == Ok::<Seq<Field>, Error>(Seq::empty()));
    }
}

/// A count that four bytes cannot hold loses at least what they can.
proof fn lemma_cut(count: usize)
    ensures
        count <= u32::MAX ==> count as u32 == count,
        count > u32::MAX ==> count - (count as u32) >= 0x1_0000_0000,
{
    let wide = count as u64;
    assert(wide > 0xffff_ffff ==> wide - (wide as u32) >= 0x1_0000_0000) by (bit_vector);
    assert(count as u32 == wide as u32);
}

/// The first descriptor of an assembled page has the length of the header.
proof fn lemma_header_described(plan: PagePlan, header: int)
    requires
        plan_wf(plan),
        planned_header(plan) == Ok::<int, Error>(header),
    ensures
        u64_at(planned_bytes(plan, header), HEADER_BASE + 16) == header,
        planned_bytes(plan, header).len() == header + framed_body(
            plan.fields,
            header,
            plan.groups as int,
        ).len(),
{
    let layout = planned_layout(plan, header);
    let bytes = planned_bytes(plan, header);
    let body = framed_body(plan.fields, header, plan.groups as int);
    let sum = descriptor_checksum_of(header_with(layout, plan.stated, header, 0));
    lemma_header_len(layout, plan.stated, header, sum);
    lemma_page_parts(layout, plan.stated, header, sum, body);
    lemma_metadata_first(plan, header);
    lemma_field_descs_at(layout.fields, 0);
    let desc = field_desc(layout.fields[0]);
    lemma_lies_in(bytes, HEADER_BASE as int, field_descs(layout.fields), 0, desc);
    lemma_field_desc_len(layout.fields[0]);
    lemma_field_desc_parts(layout.fields[0]);
    lemma_u64_within(bytes, HEADER_BASE as int, desc, 16);
}

/// A page that is accepted has a first descriptor with the length that its counts give
/// the header.
proof fn lemma_header_counted(bytes: Seq<u8>)
    requires
        u32_at(bytes, 8) == VERSION,
        parsed_page(bytes) is Ok,
    ensures
        header_size(
            HEADER_BASE as int,
            u32_at(bytes, 12) as int,
            u32_at(bytes, 16) as int,
            u32_at(bytes, 20) as int,
        ) == Ok::<int, Error>(u64_at(bytes, HEADER_BASE + 16) as int),
        bytes.len() == u64_at(bytes, 24) <= usize::MAX,
{
    lemma_first_field(bytes, HEADER_BASE as int, u32_at(bytes, 12) as int);
}

proof fn lemma_sizes_differ(fields: int, frames: int, rules: int, f: int, g: int, d: int)
    requires
        0 <= f <= fields,
        0 <= g <= frames,
        0 <= d <= rules,
        fields - f >= 2 || frames - g >= 2 || rules - d >= 2,
    ensures
        aligned(
            HEADER_BASE + fields * FIELD_DESC + frames * FRAME_DESC + rules * DEPENDENCY_DESC,
            PAGE_ALIGNMENT as int,
        ) != aligned(
            HEADER_BASE + f * FIELD_DESC + g * FRAME_DESC + d * DEPENDENCY_DESC,
            PAGE_ALIGNMENT as int,
        ),
{
    let raw = HEADER_BASE + fields * FIELD_DESC + frames * FRAME_DESC + rules * DEPENDENCY_DESC;
    let read = HEADER_BASE + f * FIELD_DESC + g * FRAME_DESC + d * DEPENDENCY_DESC;
    lemma_aligned(raw, PAGE_ALIGNMENT as int);
    lemma_aligned(read, PAGE_ALIGNMENT as int);
}

/// The header of an assembled page counts its fields, frames and dependencies in four
/// bytes each. Where the page is accepted, these were enough.
pub proof fn lemma_counts_fit(plan: PagePlan, header: int)
    requires
        plan_wf(plan),
        planned_header(plan) == Ok::<int, Error>(header),
        finish_error(plan) is None,
    ensures
        plan.fields.len() <= u32::MAX,
        plan.groups <= u32::MAX,
        plan.dependencies.len() <= u32::MAX,
        header + framed_body(plan.fields, header, plan.groups as int).len() <= usize::MAX,
{
    let bytes = planned_bytes(plan, header);
    assert(parsed_page(bytes) is Ok);
    lemma_start_back(plan, header);
    lemma_header_described(plan, header);
    lemma_header_counted(bytes);
    let fields = plan.fields.len() as int;
    let rules = plan.dependencies.len() as int;
    lemma_cut(plan.fields.len() as usize);
    lemma_cut(plan.groups);
    lemma_cut(plan.dependencies.len() as usize);
    assert(rules <= usize::MAX);
    if fields > u32::MAX || plan.groups > u32::MAX || rules > u32::MAX {
        lemma_sizes_differ(
            fields,
            plan.groups as int,
            rules,
            u32_at(bytes, 12) as int,
            u32_at(bytes, 16) as int,
            u32_at(bytes, 20) as int,
        );
    }
}

/// An assembled page that is accepted starts with a header of the planned length.
pub proof fn lemma_page_starts(plan: PagePlan, header: int)
    requires
        plan_wf(plan),
        planned_header(plan) == Ok::<int, Error>(header),
        finish_error(plan) is None,
    ensures
        u32_at(planned_bytes(plan, header), 8) == VERSION,
        header_of(planned_bytes(plan, header)) == Ok::<(int, int), Error>(
            (header, HEADER_BASE as int),
        ),
        planned_layout(plan, header).fields[0].length == header,
{
    lemma_counts_fit(plan, header);
    lemma_start_back(plan, header);
    lemma_metadata_first(plan, header);
    lemma_cut(plan.fields.len() as usize);
    lemma_cut(plan.groups);
    lemma_cut(plan.dependencies.len() as usize);
}

} // verus!
