//! What the fields of an assembled page hold.
#[allow(unused_imports)]
use super::builder::{
    decoded_frame, direct_body, direct_error, finish_error, framed_body, frames_fault,
    frames_restore, group_bytes, group_error, header_image, header_with, lemma_header_len, padded, plan_wf,
    planned_bytes, planned_field, planned_frame, planned_header, planned_layout, FieldPlan, PagePlan,
};
#[allow(unused_imports)]
use super::codec::{frame_bytes, zstd_content};
#[allow(unused_imports)]
use super::error::Error;
#[allow(unused_imports)]
use super::format::{aligned, descriptor_checksum_of, lemma_aligned, PAGE_ALIGNMENT};
#[allow(unused_imports)]
use super::ids::FieldId;
#[allow(unused_imports)]
use super::runtime::{decoded, read_bytes, Context};
use vstd::prelude::*;

verus! {

/// Reads give the bytes of the fields after the header.
pub open spec fn holds_fields(context: Context, fields: Seq<FieldPlan>) -> bool {
    forall|f: int, s: int, e: int|
        1 <= f < fields.len() && 0 <= s <= e <= fields[f].bytes.len() ==> #[trigger] read_bytes(
            context,
            FieldId(f as usize),
            s,
            e,
        ) == Ok::<Seq<u8>, Error>(fields[f].bytes.subrange(s, e))
}

proof fn lemma_padded(body: Seq<u8>, start: int, alignment: int)
    requires
        alignment > 0,
        start >= 0,
    ensures
        padded(body, start, alignment).len() == aligned(start + body.len(), alignment) - start,
        body.is_prefix_of(padded(body, start, alignment)),
        aligned(start + body.len(), alignment) >= start + body.len(),
{
    lemma_aligned((start + body.len()) as int, alignment);
    assert(padded(body, start, alignment).subrange(0, body.len() as int) =~= body);
}

proof fn lemma_prefix(a: Seq<u8>, b: Seq<u8>, c: Seq<u8>)
    requires
        a.is_prefix_of(b),
        b.is_prefix_of(c),
    ensures
        a.is_prefix_of(c),
{
    assert(c.subrange(0, a.len() as int) =~= a) by {
        assert(c.subrange(0, b.len() as int) == b);
        assert(b.subrange(0, a.len() as int) == a);
        assert forall|i: int| 0 <= i < a.len() implies c[i] == a[i] by {
            assert(c.subrange(0, b.len() as int)[i] == b[i]);
            assert(b.subrange(0, a.len() as int)[i] == a[i]);
        }
    }
}

proof fn lemma_prefix_sum(a: Seq<u8>, b: Seq<u8>)
    ensures
        a.is_prefix_of(a + b),
{
    assert((a + b).subrange(0, a.len() as int) =~= a);
}

proof fn lemma_direct_prefix(fields: Seq<FieldPlan>, header: int, i: int, n: int)
    requires
        1 <= i <= n <= fields.len(),
        header >= 0,
        forall|k: int| 0 <= k < fields.len() ==> (#[trigger] fields[k]).alignment > 0,
    ensures
        direct_body(fields, header, i).is_prefix_of(direct_body(fields, header, n)),
    decreases n,
{
    if i < n {
        lemma_direct_prefix(fields, header, i, n - 1);
        let before = direct_body(fields, header, n - 1);
        if fields[n - 1].group is None {
            let room = padded(before, header, fields[n - 1].alignment as int);
            lemma_padded(before, header, fields[n - 1].alignment as int);
            lemma_prefix_sum(room, fields[n - 1].bytes);
            lemma_prefix(before, room, room + fields[n - 1].bytes);
            lemma_prefix(direct_body(fields, header, i), before, room + fields[n - 1].bytes);
        }
    } else {
        let body = direct_body(fields, header, i);
        assert(body.subrange(0, body.len() as int) =~= body);
    }
}

proof fn lemma_group_prefix(fields: Seq<FieldPlan>, group: usize, i: int, n: int)
    requires
        1 <= i <= n <= fields.len(),
        forall|k: int| 0 <= k < fields.len() ==> (#[trigger] fields[k]).alignment > 0,
    ensures
        group_bytes(fields, group, i).is_prefix_of(group_bytes(fields, group, n)),
    decreases n,
{
    if i < n {
        lemma_group_prefix(fields, group, i, n - 1);
        let before = group_bytes(fields, group, n - 1);
        if fields[n - 1].group == Some(group) {
            let room = padded(before, 0, fields[n - 1].alignment as int);
            lemma_padded(before, 0, fields[n - 1].alignment as int);
            lemma_prefix_sum(room, fields[n - 1].bytes);
            lemma_prefix(before, room, room + fields[n - 1].bytes);
            lemma_prefix(group_bytes(fields, group, i), before, room + fields[n - 1].bytes);
        }
    } else {
        let body = group_bytes(fields, group, i);
        assert(body.subrange(0, body.len() as int) =~= body);
    }
}

proof fn lemma_framed_prefix(fields: Seq<FieldPlan>, header: int, g: int, n: int)
    requires
        0 <= g <= n,
        header >= 0,
    ensures
        framed_body(fields, header, g).is_prefix_of(framed_body(fields, header, n)),
    decreases n,
{
    if g < n {
        lemma_framed_prefix(fields, header, g, n - 1);
        let before = framed_body(fields, header, n - 1);
        let room = padded(before, header, PAGE_ALIGNMENT as int);
        let frame = frame_bytes(decoded_frame(fields, n - 1));
        lemma_padded(before, header, PAGE_ALIGNMENT as int);
        lemma_prefix_sum(room, frame);
        lemma_prefix(before, room, room + frame);
        lemma_prefix(framed_body(fields, header, g), before, room + frame);
    } else {
        let body = framed_body(fields, header, g);
        assert(body.subrange(0, body.len() as int) =~= body);
    }
}

proof fn lemma_direct_ok(fields: Seq<FieldPlan>, header: int, i: int, n: int)
    requires
        i <= n,
        direct_error(fields, header, n) is None,
    ensures
        direct_error(fields, header, i) is None,
    decreases n - i,
{
    if i < n {
        lemma_direct_ok(fields, header, i, n - 1);
    }
}

proof fn lemma_group_ok(fields: Seq<FieldPlan>, group: usize, i: int, n: int)
    requires
        i <= n,
        group_error(fields, group, n) is None,
    ensures
        group_error(fields, group, i) is None,
    decreases n - i,
{
    if i < n {
        lemma_group_ok(fields, group, i, n - 1);
    }
}

proof fn lemma_frames_ok(fields: Seq<FieldPlan>, header: int, g: int, n: int)
    requires
        g <= n,
        frames_fault(fields, header, n) is None,
    ensures
        frames_fault(fields, header, g) is None,
    decreases n - g,
{
    if g < n {
        lemma_frames_ok(fields, header, g, n - 1);
    }
}

/// The bytes at a place of a prefix are those of the whole.
proof fn lemma_part(a: Seq<u8>, b: Seq<u8>, bytes: Seq<u8>, whole: Seq<u8>, start: int, s: int, e: int)
    requires
        (a + bytes).is_prefix_of(whole),
        a.len() == start,
        0 <= s <= e <= bytes.len(),
    ensures
        start + bytes.len() <= whole.len(),
        whole.subrange(start + s, start + e) == bytes.subrange(s, e),
{
    let ab = a + bytes;
    assert(whole.subrange(0, ab.len() as int) == ab);
    assert forall|i: int| 0 <= i < e - s implies whole.subrange(start + s, start + e)[i]
        == bytes.subrange(s, e)[i] by {
        assert(whole.subrange(0, ab.len() as int)[start + s + i] == ab[start + s + i]);
    }
    assert(whole.subrange(start + s, start + e) =~= bytes.subrange(s, e));
}

/// What follows the header.
proof fn lemma_body(plan: PagePlan, header: int, s: int, e: int)
    requires
        planned_header(plan) == Ok::<int, Error>(header),
        0 <= s <= e <= framed_body(plan.fields, header, plan.groups as int).len(),
    ensures
        planned_bytes(plan, header).subrange(header + s, header + e) == framed_body(
            plan.fields,
            header,
            plan.groups as int,
        ).subrange(s, e),
{
    let layout = planned_layout(plan, header);
    lemma_header_len(
        layout,
        plan.stated,
        header,
        descriptor_checksum_of(header_with(layout, plan.stated, header, 0)),
    );
    let head = header_image(layout, plan.stated, header);
    let body = framed_body(plan.fields, header, plan.groups as int);
    assert((head + body).subrange(header + s, header + e) =~= body.subrange(s, e));
}

proof fn lemma_header_bound(plan: PagePlan, header: int)
    requires
        planned_header(plan) == Ok::<int, Error>(header),
    ensures
        0 <= header,
{
    let layout = planned_layout(plan, header);
    lemma_header_len(layout, plan.stated, header, 0);
}

/// Reads of an assembled page give back what its fields were made of.
pub proof fn law_page_holds_fields(plan: PagePlan, header: int, context: Context)
    requires
        plan_wf(plan),
        planned_header(plan) == Ok::<int, Error>(header),
        finish_error(plan) is None,
        frames_restore(plan),
        context.layout == planned_layout(plan, header),
        context.content == planned_bytes(plan, header),
    ensures
        holds_fields(context, plan.fields),
{
    let fields = plan.fields;
    assert(direct_error(fields, header, fields.len() as int) is None);
    assert(frames_fault(fields, header, plan.groups as int) is None);
    lemma_fields_held(plan, header, context);
}

proof fn lemma_fields_held(plan: PagePlan, header: int, context: Context)
    requires
        plan_wf(plan),
        planned_header(plan) == Ok::<int, Error>(header),
        direct_error(plan.fields, header, plan.fields.len() as int) is None,
        frames_fault(plan.fields, header, plan.groups as int) is None,
        frames_restore(plan),
        context.layout == planned_layout(plan, header),
        context.content == planned_bytes(plan, header),
    ensures
        holds_fields(context, plan.fields),
{
    let fields = plan.fields;
    assert forall|f: int, s: int, e: int|
        1 <= f < fields.len() && 0 <= s <= e <= fields[f].bytes.len() implies #[trigger] read_bytes(
        context,
        FieldId(f as usize),
        s,
        e,
    ) == Ok::<Seq<u8>, Error>(fields[f].bytes.subrange(s, e)) by {
        if fields[f].group is None {
            lemma_direct_field(plan, header, context, f, s, e);
        } else {
            lemma_framed_field(plan, header, context, f, s, e);
        }
    }
}

proof fn lemma_direct_field(plan: PagePlan, header: int, context: Context, f: int, s: int, e: int)
    requires
        plan_wf(plan),
        planned_header(plan) == Ok::<int, Error>(header),
        direct_error(plan.fields, header, plan.fields.len() as int) is None,
        context.layout == planned_layout(plan, header),
        context.content == planned_bytes(plan, header),
        1 <= f < plan.fields.len(),
        plan.fields[f].group is None,
        0 <= s <= e <= plan.fields[f].bytes.len(),
    ensures
        read_bytes(context, FieldId(f as usize), s, e) == Ok::<Seq<u8>, Error>(
            plan.fields[f].bytes.subrange(s, e),
        ),
{
    let fields = plan.fields;
    let field = fields[f];
    let n = fields.len() as int;
    let body = framed_body(fields, header, plan.groups as int);
    lemma_header_bound(plan, header);
    assert(context.layout.fields[f] == planned_field(fields, header, f));
    let before = direct_body(fields, header, f);
    let room = padded(before, header, field.alignment as int);
    lemma_padded(before, header, field.alignment as int);
    lemma_direct_ok(fields, header, f + 1, n);
    lemma_direct_prefix(fields, header, f + 1, n);
    lemma_framed_prefix(fields, header, 0, plan.groups as int);
    assert(direct_body(fields, header, f + 1) == room + field.bytes);
    lemma_prefix(room + field.bytes, direct_body(fields, header, n), body);
    lemma_part(room, room, field.bytes, body, room.len() as int, s, e);
    let offset = aligned(header + before.len(), field.alignment as int);
    assert(offset == header + room.len());
    assert(offset + field.bytes.len() <= usize::MAX);
    lemma_body(plan, header, room.len() + s, room.len() + e);
}

proof fn lemma_group_len(fields: Seq<FieldPlan>, group: usize, n: int)
    requires
        n <= fields.len(),
        group_error(fields, group, n) is None,
        forall|k: int| 0 <= k < fields.len() ==> (#[trigger] fields[k]).alignment > 0,
    ensures
        group_bytes(fields, group, n).len() <= usize::MAX,
    decreases n,
{
    if n > 1 {
        lemma_group_len(fields, group, n - 1);
        if fields[n - 1].group == Some(group) {
            lemma_padded(
                group_bytes(fields, group, n - 1),
                0,
                fields[n - 1].alignment as int,
            );
        }
    }
}

/// A frame decompresses to what it was made of.
proof fn lemma_frame(plan: PagePlan, header: int, context: Context, g: int)
    requires
        plan_wf(plan),
        planned_header(plan) == Ok::<int, Error>(header),
        frames_fault(plan.fields, header, plan.groups as int) is None,
        frames_restore(plan),
        context.layout == planned_layout(plan, header),
        context.content == planned_bytes(plan, header),
        0 <= g < plan.groups,
    ensures
        decoded(context, g) == Some(decoded_frame(plan.fields, g)),
{
    let fields = plan.fields;
    let layout = planned_layout(plan, header);
    let body = framed_body(fields, header, plan.groups as int);
    lemma_header_bound(plan, header);
    let before = framed_body(fields, header, g);
    let room = padded(before, header, PAGE_ALIGNMENT as int);
    let frame = frame_bytes(decoded_frame(fields, g));
    lemma_padded(before, header, PAGE_ALIGNMENT as int);
    lemma_frames_ok(fields, header, g + 1, plan.groups as int);
    lemma_framed_prefix(fields, header, g + 1, plan.groups as int);
    assert(framed_body(fields, header, g + 1) == room + frame);
    lemma_part(room, room, frame, body, room.len() as int, 0, frame.len() as int);
    assert(frame.subrange(0, frame.len() as int) =~= frame);
    assert(layout.frames[g] == planned_frame(fields, header, g));
    let offset = aligned(header + before.len(), PAGE_ALIGNMENT as int);
    assert(offset == header + room.len());
    lemma_body(plan, header, room.len() as int, (room.len() + frame.len()) as int);
    let held = decoded_frame(fields, g);
    assert(zstd_content(frame_bytes(held)) == Some(held));
    lemma_group_ok(fields, g as usize, fields.len() as int, fields.len() as int);
    lemma_group_len(fields, g as usize, fields.len() as int);
}

proof fn lemma_framed_field(plan: PagePlan, header: int, context: Context, f: int, s: int, e: int)
    requires
        plan_wf(plan),
        planned_header(plan) == Ok::<int, Error>(header),
        frames_fault(plan.fields, header, plan.groups as int) is None,
        frames_restore(plan),
        context.layout == planned_layout(plan, header),
        context.content == planned_bytes(plan, header),
        1 <= f < plan.fields.len(),
        plan.fields[f].group is Some,
        0 <= s <= e <= plan.fields[f].bytes.len(),
    ensures
        read_bytes(context, FieldId(f as usize), s, e) == Ok::<Seq<u8>, Error>(
            plan.fields[f].bytes.subrange(s, e),
        ),
{
    let fields = plan.fields;
    let field = fields[f];
    let group = field.group->0;
    let n = fields.len() as int;
    let layout = planned_layout(plan, header);
    assert(layout.fields[f] == planned_field(fields, header, f));
    assert(group < plan.groups);
    lemma_frame(plan, header, context, group as int);
    lemma_frames_ok(fields, header, group + 1, plan.groups as int);
    lemma_group_ok(fields, group, f + 1, n);
    let before = group_bytes(fields, group, f);
    let room = padded(before, 0, field.alignment as int);
    lemma_padded(before, 0, field.alignment as int);
    lemma_group_prefix(fields, group, f + 1, n);
    assert(group_bytes(fields, group, f + 1) == room + field.bytes);
    let whole = decoded_frame(fields, group as int);
    lemma_part(room, room, field.bytes, whole, room.len() as int, s, e);
    assert(aligned(before.len() as int, field.alignment as int) == room.len());
}

} // verus!
