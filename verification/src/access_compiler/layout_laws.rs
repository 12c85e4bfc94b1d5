//! What layouts, closures and deliveries promise of the bytes of a page.
#[allow(unused_imports)]
use super::format::{aligned, header_size};
#[allow(unused_imports)]
use super::ids::FieldId;
#[allow(unused_imports)]
use super::layout::{
    completes, delivery, delivery_touches, dependency_valid, field_error, fields_error, frame_error,
    frames_error, layout_error, lemma_floor, lemma_scale, lemma_scale_next, lemma_valid_field,
    lemma_valid_frame, rule_closed, rule_effects, ByteClosure, DependencyRule, FieldLocation,
    Layout,
};
#[allow(unused_imports)]
use super::runtime::{
    direct_delivery, frame_delivery, lemma_ceil, lemma_ceil_floor, ClosureMode, Context,
};
#[allow(unused_imports)]
use super::span::{covers, lemma_touch_cover, separated, total, touches};
use vstd::prelude::*;

verus! {

// ----- layouts -----

/// Whether a field lies where it may: under its own number, aligned, and inside the file or
/// inside what its frame decodes to.
pub open spec fn field_lies(layout: Layout, i: int) -> bool {
    let field = layout.fields[i];
    &&& field.id.0 == i
    &&& field.alignment > 0
    &&& field.read_granularity > 0
    &&& match field.location {
        FieldLocation::Direct { offset } => offset % field.alignment == 0 && offset + field.length
            <= layout.file_length,
        FieldLocation::Framed { frame, decoded_offset } => frame.0 < layout.frames.len()
            && decoded_offset + field.length <= layout.frames[frame.0 as int].decoded_length,
    }
}

/// Whether a frame lies where it may: under its own number, aligned, inside the file.
pub open spec fn frame_lies(layout: Layout, i: int) -> bool {
    let frame = layout.frames[i];
    &&& frame.id.0 == i
    &&& frame.alignment > 0
    &&& frame.offset % frame.alignment == 0
    &&& frame.offset + frame.compressed_length <= layout.file_length
}

/// Whether a rule speaks of fields of the layout, in steps of some bytes.
pub open spec fn rule_speaks(layout: Layout, rule: DependencyRule) -> bool {
    match rule {
        DependencyRule::DependentField { source, prerequisite } => source.0 < layout.fields.len()
            && prerequisite.0 < layout.fields.len(),
        DependencyRule::IndexedStream { data, index, data_block_bytes, index_entry_bytes } => data.0
            < layout.fields.len() && index.0 < layout.fields.len() && data_block_bytes != 0
            && index_entry_bytes != 0,
        DependencyRule::Restart { data, restarts, data_bytes_per_restart, bytes_per_restart } =>
            data.0 < layout.fields.len() && restarts.0 < layout.fields.len()
                && data_bytes_per_restart != 0 && bytes_per_restart != 0,
    }
}

proof fn lemma_fields_lie(layout: Layout, n: int)
    requires
        0 <= n <= layout.fields.len(),
    ensures
        fields_error(layout, n) is None <==> forall|i: int|
            #![trigger layout.fields[i]]
            0 <= i < n ==> field_lies(layout, i),
    decreases n,
{
    if n > 0 {
        lemma_fields_lie(layout, n - 1);
        assert(field_error(layout, n - 1) is None <==> field_lies(layout, n - 1));
        assert(layout.fields[n - 1] == layout.fields[n - 1]);
    }
}

proof fn lemma_frames_lie(layout: Layout, n: int)
    requires
        0 <= n <= layout.frames.len(),
    ensures
        frames_error(layout, n) is None <==> forall|i: int|
            #![trigger layout.frames[i]]
            0 <= i < n ==> frame_lies(layout, i),
    decreases n,
{
    if n > 0 {
        lemma_frames_lie(layout, n - 1);
        assert(frame_error(layout, n - 1) is None <==> frame_lies(layout, n - 1));
        assert(layout.frames[n - 1] == layout.frames[n - 1]);
    }
}

/// A layout is valid where its description is a field, every field and frame lies where it
/// may, and every rule speaks of its fields.
pub proof fn law_valid_layouts_lie_where_they_may(layout: Layout)
    ensures
        layout_error(layout) is None <==> {
            &&& layout.metadata.0 < layout.fields.len()
            &&& forall|i: int|
                #![trigger layout.fields[i]]
                0 <= i < layout.fields.len() ==> field_lies(layout, i)
            &&& forall|i: int|
                #![trigger layout.frames[i]]
                0 <= i < layout.frames.len() ==> frame_lies(layout, i)
            &&& forall|i: int|
                0 <= i < layout.dependencies.len() ==> rule_speaks(
                    layout,
                    #[trigger] layout.dependencies[i],
                )
        },
{
    lemma_fields_lie(layout, layout.fields.len() as int);
    lemma_frames_lie(layout, layout.frames.len() as int);
    assert forall|i: int| 0 <= i < layout.dependencies.len() implies dependency_valid(
        layout.fields.len() as int,
        #[trigger] layout.dependencies[i],
    ) == rule_speaks(layout, layout.dependencies[i]) by {}
}

/// What is aligned lies at the next multiple, and where it stands where that is one.
pub proof fn law_padding_is_least(value: int, alignment: int)
    requires
        0 <= value,
        0 < alignment,
    ensures
        value <= aligned(value, alignment) < value + alignment,
        aligned(value, alignment) % alignment == 0,
        value % alignment == 0 ==> aligned(value, alignment) == value,
{
    reveal(aligned);
    lemma_ceil(value, alignment);
    let k = (value + (alignment - 1)) / alignment;
    vstd::arithmetic::div_mod::lemma_mod_multiples_basic(k, alignment);
    if value % alignment == 0 {
        let q = value / alignment;
        vstd::arithmetic::div_mod::lemma_fundamental_div_mod(value, alignment);
        vstd::arithmetic::mul::lemma_mul_is_commutative(alignment, q);
        if k > q {
            lemma_scale(q + 1, k, alignment);
            lemma_scale_next(q, alignment);
        }
        if k < q {
            lemma_scale(k + 1, q, alignment);
            lemma_scale_next(k, alignment);
        }
    }
}

/// A header has room for what it starts with and for an entry of 48 bytes for each field, and
/// of 32 for each frame and each rule; it ends at a multiple of 64 and wastes less than that.
pub proof fn law_headers_hold_their_entries(base: int, fields: int, frames: int, rules: int)
    requires
        0 <= base,
        0 <= fields,
        0 <= frames,
        0 <= rules,
        header_size(base, fields, frames, rules) is Ok,
    ensures
        ({
            let size = header_size(base, fields, frames, rules)->Ok_0;
            let needed = base + 48 * fields + 32 * (frames + rules);
            needed <= size < needed + 64 && size % 64 == 0
        }),
{
    law_padding_is_least(base + 48 * fields + 32 * (frames + rules), 64);
}

// ----- closures -----

/// Whether a byte must come with another, by a rule: any byte of what its field depends on,
/// a byte of the entry for its block, or a byte before it since the restart and a byte of
/// that restart.
pub open spec fn comes_with(
    layout: Layout,
    rule: DependencyRule,
    p: (FieldId, int),
    q: (FieldId, int),
) -> bool {
    match rule {
        DependencyRule::DependentField { source, prerequisite } => p.0 == source && q.0
            == prerequisite && 0 <= q.1 < layout.fields[prerequisite.0 as int].length,
        DependencyRule::IndexedStream { data, index, data_block_bytes, index_entry_bytes } => p.0
            == data && q.0 == index && q.1 / index_entry_bytes as int == p.1
            / data_block_bytes as int,
        DependencyRule::Restart { data, restarts, data_bytes_per_restart, bytes_per_restart } => p.0
            == data && ((q.0 == data && q.1 < p.1 && q.1 / data_bytes_per_restart as int == p.1
            / data_bytes_per_restart as int) || (q.0 == restarts && q.1 / bytes_per_restart as int
            == p.1 / data_bytes_per_restart as int)),
    }
}

proof fn lemma_same_step(q: int, k: int, d: int)
    requires
        d > 0,
    ensures
        k * d <= q < (k + 1) * d <==> q / d == k,
{
    vstd::arithmetic::div_mod::lemma_fundamental_div_mod(q, d);
    vstd::arithmetic::div_mod::lemma_mod_bound(q, d);
    vstd::arithmetic::mul::lemma_mul_is_commutative(d, q / d);
    lemma_scale_next(k, d);
    if k * d <= q < (k + 1) * d {
        vstd::arithmetic::div_mod::lemma_fundamental_div_mod_converse(q, d, k, q - k * d);
    }
}

proof fn lemma_effects(layout: Layout, rule: DependencyRule, p: (FieldId, int), q: (FieldId, int))
    requires
        rule_speaks(layout, rule),
    ensures
        rule_effects(rule, layout.fields, p).contains(q) <==> comes_with(layout, rule, p, q),
{
    match rule {
        DependencyRule::DependentField { .. } => {},
        DependencyRule::IndexedStream { data_block_bytes, index_entry_bytes, .. } => {
            lemma_same_step(q.1, p.1 / data_block_bytes as int, index_entry_bytes as int);
        },
        DependencyRule::Restart { data_bytes_per_restart, bytes_per_restart, .. } => {
            let d = data_bytes_per_restart as int;
            let k = p.1 / d;
            lemma_same_step(q.1, k, d);
            lemma_same_step(p.1, k, d);
            lemma_same_step(q.1, k, bytes_per_restart as int);
        },
    }
}

/// A closure holds what was asked for and whatever must come with a byte that it holds.
pub proof fn law_closures_hold_what_must_come(
    layout: Layout,
    seed: Set<(FieldId, int)>,
    closure: ByteClosure,
    i: int,
    p: (FieldId, int),
    q: (FieldId, int),
)
    requires
        layout_error(layout) is None,
        closure.closes(layout, seed),
        0 <= i < layout.dependencies.len(),
    ensures
        seed.contains(p) ==> closure.fields@.contains(p),
        closure.fields@.contains(p) && comes_with(layout, layout.dependencies[i], p, q)
            ==> closure.fields@.contains(q),
{
    law_valid_layouts_lie_where_they_may(layout);
    let s = closure.fields@;
    let rule = layout.dependencies[i];
    lemma_effects(layout, rule, p, q);
    assert(rule_closed(rule, layout.fields, s));
    if s.contains(p) {
        assert(rule_effects(rule, layout.fields, p).subset_of(s));
    }
}

/// Whether some byte that is held makes another come, by some rule of the layout.
pub open spec fn is_called_for(layout: Layout, s: Set<(FieldId, int)>, q: (FieldId, int)) -> bool {
    exists|i: int, p: (FieldId, int)|
        0 <= i < layout.dependencies.len() && s.contains(p) && p != q && #[trigger] comes_with(
            layout,
            layout.dependencies[i],
            p,
            q,
        )
}

/// A closure holds nothing else: each byte was asked for, or comes with another byte that it
/// holds.
pub proof fn law_closures_hold_nothing_else(
    layout: Layout,
    seed: Set<(FieldId, int)>,
    closure: ByteClosure,
    q: (FieldId, int),
)
    requires
        layout_error(layout) is None,
        closure.closes(layout, seed),
        closure.fields@.contains(q),
    ensures
        seed.contains(q) || is_called_for(layout, closure.fields@, q),
{
    law_valid_layouts_lie_where_they_may(layout);
    let s = closure.fields@;
    if !seed.contains(q) && !is_called_for(layout, s, q) {
        let t = s.remove(q);
        assert forall|i: int| 0 <= i < layout.dependencies.len() implies rule_closed(
            #[trigger] layout.dependencies[i],
            layout.fields,
            t,
        ) by {
            let rule = layout.dependencies[i];
            assert(rule_closed(rule, layout.fields, s));
            assert forall|p: (FieldId, int)| t.contains(p) implies (#[trigger] rule_effects(
                rule,
                layout.fields,
                p,
            )).subset_of(t) by {
                assert(rule_effects(rule, layout.fields, p).subset_of(s));
                assert forall|r: (FieldId, int)| #[trigger]
                    rule_effects(rule, layout.fields, p).contains(r) implies t.contains(r) by {
                    assert(s.contains(r));
                    lemma_effects(layout, rule, p, r);
                    if r == q {
                        assert(comes_with(layout, layout.dependencies[i], p, q));
                    }
                }
            }
        }
        assert(completes(layout, seed, t));
        assert(s.subset_of(t));
    }
}

// ----- deliveries -----

/// Whether a byte of the file is delivered with a byte of a field: one of its granule that
/// is in the field, or any of its frame.
pub open spec fn is_delivered_with(layout: Layout, p: (FieldId, int), b: int) -> bool {
    let field = layout.fields[p.0.0 as int];
    match field.location {
        FieldLocation::Direct { offset } => 0 <= b - offset < field.length && (b - offset)
            / field.read_granularity as int == p.1 / field.read_granularity as int,
        FieldLocation::Framed { frame, .. } => layout.frames[frame.0 as int].offset <= b
            < layout.frames[frame.0 as int].offset + layout.frames[frame.0 as int].compressed_length,
    }
}

proof fn lemma_delivery(layout: Layout, p: (FieldId, int), b: int)
    requires
        layout_error(layout) is None,
        p.0.0 < layout.fields.len(),
        0 <= p.1 < layout.fields[p.0.0 as int].length,
    ensures
        delivery(layout, p).0 <= b < delivery(layout, p).1 <==> is_delivered_with(layout, p, b),
{
    lemma_valid_field(layout, p.0.0 as int);
    let field = layout.fields[p.0.0 as int];
    if let FieldLocation::Direct { offset } = field.location {
        let g = field.read_granularity as int;
        lemma_same_step(b - offset, p.1 / g, g);
        vstd::arithmetic::div_mod::lemma_div_pos_is_pos(p.1, g);
        vstd::arithmetic::mul::lemma_mul_nonnegative(p.1 / g, g);
    }
}

/// A closure delivers the granules and the frames of the bytes that it holds, and nothing
/// else, and counts each byte once.
pub proof fn law_closures_deliver_granules_and_frames(
    layout: Layout,
    seed: Set<(FieldId, int)>,
    closure: ByteClosure,
    b: int,
)
    requires
        layout_error(layout) is None,
        closure.closes(layout, seed),
    ensures
        covers(closure.delivered@, b) <==> exists|p: (FieldId, int)|
            closure.fields@.contains(p) && #[trigger] is_delivered_with(layout, p, b),
        separated(closure.delivered@),
        closure.delivered_bytes == total(closure.delivered@),
        closure.logical_bytes == closure.fields@.len(),
{
    let s = closure.fields@;
    closure.fields.lemma_places();
    lemma_touch_cover(closure.delivered@, b);
    assert(touches(closure.delivered@, 2 * b + 1) == delivery_touches(layout, s, 2 * b + 1));
    assert forall|p: (FieldId, int)| #[trigger] s.contains(p) implies p.0.0 < layout.fields.len()
        && p.1 < layout.fields[p.0.0 as int].length by {
        assert(super::layout::within_field(layout, s, p.0.0 as int));
        assert(s.contains((FieldId(p.0.0 as int as usize), p.1)));
    }
    if delivery_touches(layout, s, 2 * b + 1) {
        let p = choose|p: (FieldId, int)|
            #[trigger] s.contains(p) && 2 * delivery(layout, p).0 <= 2 * b + 1 <= 2 * delivery(
                layout,
                p,
            ).1;
        lemma_delivery(layout, p, b);
        assert(is_delivered_with(layout, p, b));
    }
    if exists|p: (FieldId, int)| s.contains(p) && #[trigger] is_delivered_with(layout, p, b) {
        let p = choose|p: (FieldId, int)|
            s.contains(p) && #[trigger] is_delivered_with(layout, p, b);
        lemma_delivery(layout, p, b);
    }
}

/// What a session delivers for a byte is what a closure states for it.
pub proof fn law_sessions_deliver_what_closures_state(context: Context, p: (FieldId, int))
    requires
        layout_error(context.layout) is None,
        context.mode == ClosureMode::Selective,
        p.0.0 < context.layout.fields.len(),
        0 <= p.1 < context.layout.fields[p.0.0 as int].length,
    ensures
        ({
            let span = match context.layout.fields[p.0.0 as int].location {
                FieldLocation::Direct { .. } => direct_delivery(
                    context,
                    p.0.0 as int,
                    p.1,
                    p.1 + 1,
                ),
                FieldLocation::Framed { frame, .. } => frame_delivery(context, frame.0 as int),
            };
            delivery(context.layout, p) == (span.start as int, span.end as int)
        }),
{
    let layout = context.layout;
    lemma_valid_field(layout, p.0.0 as int);
    let field = layout.fields[p.0.0 as int];
    match field.location {
        FieldLocation::Direct { offset } => {
            let g = field.read_granularity as int;
            lemma_ceil_floor(p.1 + 1, g);
            lemma_floor(p.1, g);
            vstd::arithmetic::div_mod::lemma_div_pos_is_pos(p.1, g);
            vstd::arithmetic::mul::lemma_mul_nonnegative(p.1 / g, g);
            lemma_scale_next(p.1 / g, g);
        },
        FieldLocation::Framed { frame, .. } => {
            lemma_valid_frame(layout, frame.0 as int);
        },
    }
}

} // verus!
