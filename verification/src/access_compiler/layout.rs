//! Where fields lie in a file, which bytes depend on which, and the closure of
//! an access under those dependencies.
use super::access::AccessSet;
#[allow(unused_imports)]
use super::access::{entries_canonical, entries_hold, field_bytes, lemma_field_bytes_len};
use super::error::Error;
use super::ids::{FieldId, FrameId};
use super::span::{merge_spans, Span};
#[allow(unused_imports)]
use super::span::{all_wf, canonical, covers, separated, total, touches};
use vstd::prelude::*;

verus! {

#[derive(Clone, Copy, Debug, PartialEq, Eq, Structural)]
pub enum FrameCodec {
    Zstd,
}

/// Where a field's bytes are: in the file itself, or inside a decoded frame.
#[derive(Clone, Copy, Debug, PartialEq, Eq, Structural)]
pub enum FieldLocation {
    Direct { offset: usize },
    Framed { frame: FrameId, decoded_offset: usize },
}

#[derive(Clone, Debug, PartialEq, Eq)]
pub struct FieldLayout {
    pub id: FieldId,
    pub name: String,
    pub length: usize,
    pub alignment: usize,
    pub read_granularity: usize,
    pub location: FieldLocation,
}

#[derive(Clone, Copy, Debug, PartialEq, Eq, Structural)]
pub struct FrameLayout {
    pub id: FrameId,
    pub codec: FrameCodec,
    pub offset: usize,
    pub compressed_length: usize,
    pub decoded_length: usize,
    pub alignment: usize,
}

/// Bytes that have to be read because others are.
#[derive(Clone, Copy, Debug, PartialEq, Eq, Structural)]
pub enum DependencyRule {
    /// Any byte of `source` needs the whole of `prerequisite`.
    DependentField { source: FieldId, prerequisite: FieldId },
    /// A byte of block `k` of `data` needs entry `k` of `index`.
    IndexedStream {
        data: FieldId,
        index: FieldId,
        data_block_bytes: usize,
        index_entry_bytes: usize,
    },
    /// A byte of `data` needs its block from the block's start, and the block's
    /// restart entry.
    Restart {
        data: FieldId,
        restarts: FieldId,
        data_bytes_per_restart: usize,
        bytes_per_restart: usize,
    },
}

#[derive(Clone, Debug, PartialEq, Eq)]
pub struct LayoutIr {
    pub metadata: FieldId,
    pub fields: Vec<FieldLayout>,
    pub frames: Vec<FrameLayout>,
    pub dependencies: Vec<DependencyRule>,
    pub file_length: usize,
}

/// A field as a value.
pub struct Field {
    pub id: FieldId,
    pub name: Seq<char>,
    pub length: usize,
    pub alignment: usize,
    pub read_granularity: usize,
    pub location: FieldLocation,
}

/// A layout as a value.
pub struct Layout {
    pub metadata: FieldId,
    pub fields: Seq<Field>,
    pub frames: Seq<FrameLayout>,
    pub dependencies: Seq<DependencyRule>,
    pub file_length: usize,
}

impl View for FieldLayout {
    type V = Field;

    open spec fn view(&self) -> Field {
        Field {
            id: self.id,
            name: self.name@,
            length: self.length,
            alignment: self.alignment,
            read_granularity: self.read_granularity,
            location: self.location,
        }
    }
}

impl View for LayoutIr {
    type V = Layout;

    open spec fn view(&self) -> Layout {
        Layout {
            metadata: self.metadata,
            fields: Seq::new(self.fields@.len(), |i: int| self.fields@[i]@),
            frames: self.frames@,
            dependencies: self.dependencies@,
            file_length: self.file_length,
        }
    }
}

/// All bytes that an access needs, and the ranges of the file that deliver them.
#[derive(Clone, Debug, PartialEq, Eq)]
pub struct ByteClosure {
    pub fields: AccessSet,
    pub delivered: Vec<Span>,
    pub logical_bytes: usize,
    pub delivered_bytes: usize,
}

// ----- what makes a layout valid -----

pub open spec fn field_error(layout: Layout, i: int) -> Option<Error> {
    let field = layout.fields[i];
    if field.id.0 != i || field.alignment == 0 || field.read_granularity == 0 {
        Some(Error::InvalidField(i as usize))
    } else {
        match field.location {
            FieldLocation::Direct { offset } => if offset % field.alignment != 0 || offset
                + field.length > layout.file_length {
                Some(Error::FieldOutsideLayout(i as usize))
            } else {
                None
            },
            FieldLocation::Framed { frame, decoded_offset } => if frame.0 >= layout.frames.len() {
                Some(Error::FieldFrameAbsent(i as usize))
            } else if decoded_offset + field.length > layout.frames[frame.0 as int].decoded_length {
                Some(Error::FieldExceedsFrame(i as usize))
            } else {
                None
            },
        }
    }
}

pub open spec fn frame_error(layout: Layout, i: int) -> Option<Error> {
    let frame = layout.frames[i];
    if frame.id.0 != i || frame.alignment == 0 || frame.offset % frame.alignment != 0
        || frame.offset + frame.compressed_length > layout.file_length {
        Some(Error::InvalidFrame(i as usize))
    } else {
        None
    }
}

pub open spec fn dependency_valid(fields: int, rule: DependencyRule) -> bool {
    match rule {
        DependencyRule::DependentField { source, prerequisite } => source.0 < fields
            && prerequisite.0 < fields,
        DependencyRule::IndexedStream { data, index, data_block_bytes, index_entry_bytes } => data.0
            < fields && index.0 < fields && data_block_bytes > 0 && index_entry_bytes > 0,
        DependencyRule::Restart { data, restarts, data_bytes_per_restart, bytes_per_restart } =>
            data.0 < fields && restarts.0 < fields && data_bytes_per_restart > 0
                && bytes_per_restart > 0,
    }
}

/// The first fault among the first `n` fields.
pub open spec fn fields_error(layout: Layout, n: int) -> Option<Error>
    decreases n,
{
    if n <= 0 {
        None
    } else {
        match fields_error(layout, n - 1) {
            Some(e) => Some(e),
            None => field_error(layout, n - 1),
        }
    }
}

/// The first fault among the first `n` frames.
pub open spec fn frames_error(layout: Layout, n: int) -> Option<Error>
    decreases n,
{
    if n <= 0 {
        None
    } else {
        match frames_error(layout, n - 1) {
            Some(e) => Some(e),
            None => frame_error(layout, n - 1),
        }
    }
}

/// The first fault of a layout: its metadata field, then its fields, its frames
/// and its dependencies, each in order.
pub open spec fn layout_error(layout: Layout) -> Option<Error> {
    if layout.metadata.0 >= layout.fields.len() {
        Some(Error::MetadataAbsent)
    } else if fields_error(layout, layout.fields.len() as int) is Some {
        fields_error(layout, layout.fields.len() as int)
    } else if frames_error(layout, layout.frames.len() as int) is Some {
        frames_error(layout, layout.frames.len() as int)
    } else if exists|i: int|
        0 <= i < layout.dependencies.len() && !dependency_valid(
            layout.fields.len() as int,
            #[trigger] layout.dependencies[i],
        ) {
        Some(Error::InvalidDependency)
    } else {
        None
    }
}

// ----- the closure of an access -----

/// The bytes that one rule asks for because of one byte.
pub open spec fn rule_effects(
    rule: DependencyRule,
    fields: Seq<Field>,
    p: (FieldId, int),
) -> Set<(FieldId, int)> {
    match rule {
        DependencyRule::DependentField { source, prerequisite } => if p.0 == source {
            field_bytes(prerequisite, 0, fields[prerequisite.0 as int].length as int)
        } else {
            Set::empty()
        },
        DependencyRule::IndexedStream { data, index, data_block_bytes, index_entry_bytes } =>
            if p.0 == data {
                let k = p.1 / (data_block_bytes as int);
                field_bytes(index, k * index_entry_bytes, (k + 1) * index_entry_bytes)
            } else {
                Set::empty()
            },
        DependencyRule::Restart { data, restarts, data_bytes_per_restart, bytes_per_restart } =>
            if p.0 == data {
                let k = p.1 / (data_bytes_per_restart as int);
                field_bytes(data, k * data_bytes_per_restart, p.1).union(
                    field_bytes(restarts, k * bytes_per_restart, (k + 1) * bytes_per_restart),
                )
            } else {
                Set::empty()
            },
    }
}

pub open spec fn rule_closed(
    rule: DependencyRule,
    fields: Seq<Field>,
    s: Set<(FieldId, int)>,
) -> bool {
    forall|p: (FieldId, int)| s.contains(p) ==> (#[trigger] rule_effects(rule, fields, p)).subset_of(s)
}

/// Every byte's dependencies are in the set.
pub open spec fn closed_under(layout: Layout, s: Set<(FieldId, int)>) -> bool {
    forall|i: int|
        0 <= i < layout.dependencies.len() ==> rule_closed(
            #[trigger] layout.dependencies[i],
            layout.fields,
            s,
        )
}

/// `s` holds the seed and all its dependencies.
pub open spec fn completes(layout: Layout, seed: Set<(FieldId, int)>, s: Set<(FieldId, int)>) -> bool {
    seed.subset_of(s) && closed_under(layout, s)
}

/// `s` is the least set that holds the seed and all its dependencies.
pub open spec fn is_closure(layout: Layout, seed: Set<(FieldId, int)>, s: Set<(FieldId, int)>) -> bool {
    &&& completes(layout, seed, s)
    &&& forall|t: Set<(FieldId, int)>| #[trigger] completes(layout, seed, t) ==> s.subset_of(t)
}

/// The bytes of field `f` in the set lie inside the field.
pub open spec fn within_field(layout: Layout, s: Set<(FieldId, int)>, f: int) -> bool {
    forall|b: int|
        #[trigger] s.contains((FieldId(f as usize), b)) ==> f < layout.fields.len() && b
            < layout.fields[f].length
}

pub open spec fn within_fields(layout: Layout, s: Set<(FieldId, int)>) -> bool {
    forall|f: int| 0 <= f <= usize::MAX ==> #[trigger] within_field(layout, s, f)
}

/// Field `f` is the first that the set reaches beyond.
pub open spec fn first_beyond(layout: Layout, s: Set<(FieldId, int)>, f: int) -> bool {
    &&& !within_field(layout, s, f)
    &&& forall|g: int| 0 <= g < f ==> #[trigger] within_field(layout, s, g)
}

/// The file range that delivers one byte: its read granule inside a direct field,
/// or the whole of its compressed frame.
pub open spec fn delivery(layout: Layout, p: (FieldId, int)) -> (int, int) {
    let field = layout.fields[p.0.0 as int];
    match field.location {
        FieldLocation::Direct { offset } => {
            let k = p.1 / (field.read_granularity as int);
            let end = (k + 1) * field.read_granularity;
            (
                offset + k * field.read_granularity,
                offset + if end < field.length { end } else { field.length as int },
            )
        },
        FieldLocation::Framed { frame, .. } => {
            let frame = layout.frames[frame.0 as int];
            (frame.offset as int, frame.offset + frame.compressed_length)
        },
    }
}

/// Half position `x` of the file is touched by the delivery of some byte.
pub open spec fn delivery_touches(layout: Layout, s: Set<(FieldId, int)>, x: int) -> bool {
    exists|p: (FieldId, int)|
        #[trigger] s.contains(p) && 2 * delivery(layout, p).0 <= x <= 2 * delivery(layout, p).1
}

/// Why no closure could be given.
pub open spec fn closure_error(layout: Layout, seed: Set<(FieldId, int)>, e: Error) -> bool {
    match e {
        Error::AccessFieldAbsent(f) => exists|s: Set<(FieldId, int)>| #[trigger]
            is_closure(layout, seed, s) && first_beyond(layout, s, f as int) && f >= layout.fields.len(),
        Error::AccessExceedsField(f) => exists|s: Set<(FieldId, int)>| #[trigger]
            is_closure(layout, seed, s) && first_beyond(layout, s, f as int) && f < layout.fields.len(),
        Error::AccessUnaddressable(f) => f < layout.fields.len() && forall|t: Set<(FieldId, int)>| #[trigger]
            completes(layout, seed, t) ==> exists|b: int|
                b >= usize::MAX && #[trigger] t.contains((FieldId(f), b)),
        Error::AccessUncountable => exists|s: Set<(FieldId, int)>| #[trigger]
            is_closure(layout, seed, s) && within_fields(layout, s) && s.len() > usize::MAX,
        _ => false,
    }
}

impl ByteClosure {
    /// This is the closure of the seed, with the ranges that deliver it.
    pub open spec fn closes(&self, layout: Layout, seed: Set<(FieldId, int)>) -> bool {
        &&& self.fields.wf()
        &&& is_closure(layout, seed, self.fields@)
        &&& within_fields(layout, self.fields@)
        &&& separated(self.delivered@)
        &&& forall|x: int| #[trigger]
            touches(self.delivered@, x) == delivery_touches(layout, self.fields@, x)
        &&& self.fields@.finite()
        &&& self.logical_bytes == self.fields@.len()
        &&& self.delivered_bytes == total(self.delivered@)
    }
}

impl LayoutIr {
    pub fn validate(&self) -> (r: Result<(), Error>)
        ensures
            match layout_error(self@) {
                None => r == Ok::<(), Error>(()),
                Some(e) => r == Err::<(), Error>(e),
            },
    {
        if self.metadata.0 >= self.fields.len() {
            return Err(Error::MetadataAbsent);
        }
        let mut index: usize = 0;
        while index < self.fields.len()
            invariant
                index <= self.fields@.len(),
                self.metadata.0 < self.fields@.len(),
                fields_error(self@, index as int) is None,
            decreases self.fields@.len() - index,
        {
            match self.check_field(index) {
                Ok(()) => {},
                Err(e) => {
                    proof {
                        lemma_fields_error(self@, index as int, self.fields@.len() as int);
                    }
                    return Err(e);
                },
            }
            index = index + 1;
        }
        let mut index: usize = 0;
        while index < self.frames.len()
            invariant
                index <= self.frames@.len(),
                self.metadata.0 < self.fields@.len(),
                fields_error(self@, self.fields@.len() as int) is None,
                frames_error(self@, index as int) is None,
            decreases self.frames@.len() - index,
        {
            let frame = self.frames[index];
            if frame.id.0 != index || frame.alignment == 0 || frame.offset % frame.alignment != 0
                || frame.offset > self.file_length || frame.compressed_length > self.file_length
                - frame.offset {
                proof {
                    lemma_frames_error(self@, index as int, self.frames@.len() as int);
                }
                return Err(Error::InvalidFrame(index));
            }
            index = index + 1;
        }
        let mut index: usize = 0;
        while index < self.dependencies.len()
            invariant
                index <= self.dependencies@.len(),
                self.metadata.0 < self.fields@.len(),
                fields_error(self@, self.fields@.len() as int) is None,
                frames_error(self@, self.frames@.len() as int) is None,
                forall|i: int|
                    0 <= i < index ==> dependency_valid(
                        self.fields@.len() as int,
                        #[trigger] self@.dependencies[i],
                    ),
            decreases self.dependencies@.len() - index,
        {
            let (source, prerequisite, valid_parameters) = match self.dependencies[index] {
                DependencyRule::DependentField { source, prerequisite } => (
                    source,
                    prerequisite,
                    true,
                ),
                DependencyRule::IndexedStream { data, index, data_block_bytes, index_entry_bytes } =>
                (data, index, data_block_bytes > 0 && index_entry_bytes > 0),
                DependencyRule::Restart {
                    data,
                    restarts,
                    data_bytes_per_restart,
                    bytes_per_restart,
                } => (data, restarts, data_bytes_per_restart > 0 && bytes_per_restart > 0),
            };
            if source.0 >= self.fields.len() || prerequisite.0 >= self.fields.len()
                || !valid_parameters {
                assert(!dependency_valid(
                    self.fields@.len() as int,
                    self@.dependencies[index as int],
                ));
                return Err(Error::InvalidDependency);
            }
            index = index + 1;
        }
        Ok(())
    }

    fn check_field(&self, index: usize) -> (r: Result<(), Error>)
        requires
            index < self.fields@.len(),
        ensures
            match field_error(self@, index as int) {
                None => r == Ok::<(), Error>(()),
                Some(e) => r == Err::<(), Error>(e),
            },
    {
        let field = &self.fields[index];
        if field.id.0 != index || field.alignment == 0 || field.read_granularity == 0 {
            return Err(Error::InvalidField(index));
        }
        match field.location {
            FieldLocation::Direct { offset } => {
                if offset % field.alignment != 0 || offset > self.file_length || field.length
                    > self.file_length - offset {
                    return Err(Error::FieldOutsideLayout(index));
                }
            },
            FieldLocation::Framed { frame, decoded_offset } => {
                if frame.0 >= self.frames.len() {
                    return Err(Error::FieldFrameAbsent(index));
                }
                let decoded_length: usize = self.frames[frame.0].decoded_length;
                if decoded_offset > decoded_length || field.length > decoded_length
                    - decoded_offset {
                    return Err(Error::FieldExceedsFrame(index));
                }
            },
        }
        Ok(())
    }

    /// The least set of bytes that holds the seed and everything its bytes depend
    /// on, with the file ranges that deliver it.
    pub fn closure(&self, seed: &AccessSet) -> (r: Result<ByteClosure, Error>)
        requires
            seed.wf(),
        ensures
            match r {
                Ok(closure) => layout_error(self@) is None && closure.closes(self@, seed@),
                Err(e) => match layout_error(self@) {
                    Some(fault) => e == fault,
                    None => closure_error(self@, seed@, e),
                },
            },
    {
        match self.validate() {
            Ok(()) => {},
            Err(e) => {
                return Err(e);
            },
        }
        let fields = match self.complete(seed) {
            Ok(fields) => fields,
            Err(e) => {
                return Err(e);
            },
        };
        let mut delivered = match self.deliveries(&fields, Ghost(seed@)) {
            Ok(delivered) => delivered,
            Err(e) => {
                return Err(e);
            },
        };
        let ghost given = delivered@;
        merge_spans(&mut delivered);
        let logical_bytes: usize = match fields.checked_bytes() {
            Some(n) => n,
            None => {
                return Err(Error::AccessUncountable);
            },
        };
        proof {
            assert forall|x: int| #[trigger]
                touches(delivered@, x) == delivery_touches(self@, fields@, x) by {
                assert(touches(given, x) == delivery_touches(self@, fields@, x));
            }
            assert(all_below(delivered@, self.file_length as int)) by {
                assert forall|i: int| 0 <= i < delivered@.len() implies (#[trigger] delivered@[i]).end
                    <= self.file_length by {
                    let x = 2 * delivered@[i].end as int;
                    assert(delivered@[i].touches(x));
                    assert(touches(delivered@, x));
                    assert(touches(given, x));
                    let k = choose|k: int| 0 <= k < given.len() && (#[trigger] given[k]).touches(x);
                    assert(given[k].end <= self.file_length);
                }
            }
        }
        let delivered_bytes: usize = sum_below(&delivered, self.file_length);
        Ok(ByteClosure { fields, delivered, logical_bytes, delivered_bytes })
    }

    /// Follows the dependencies until nothing is added.
    fn complete(&self, seed: &AccessSet) -> (r: Result<AccessSet, Error>)
        requires
            seed.wf(),
            layout_error(self@) is None,
        ensures
            match r {
                Ok(fields) => fields.wf() && is_closure(self@, seed@, fields@),
                Err(e) => closure_error(self@, seed@, e),
            },
    {
        let mut fields = seed.clone();
        let ghost universe = addressable(self@.fields.len() as int);
        proof {
            lemma_addressable_finite(self@.fields.len() as int);
        }
        let mut changed: bool = true;
        while changed
            invariant
                layout_error(self@) is None,
                fields.wf(),
                seed@.subset_of(fields@),
                forall|t: Set<(FieldId, int)>| #[trigger]
                    completes(self@, seed@, t) ==> fields@.subset_of(t),
                universe == addressable(self@.fields.len() as int),
                universe.finite(),
                !changed ==> closed_under(self@, fields@),
            decreases universe.difference(fields@).len(), if changed { 1int } else { 0int },
        {
            let ghost start = fields@;
            changed = false;
            let mut next: usize = 0;
            while next < self.dependencies.len()
                invariant
                    layout_error(self@) is None,
                    next <= self@.dependencies.len(),
                    fields.wf(),
                    seed@.subset_of(start),
                    start.subset_of(fields@),
                    forall|t: Set<(FieldId, int)>| #[trigger]
                        completes(self@, seed@, t) ==> fields@.subset_of(t),
                    universe == addressable(self@.fields.len() as int),
                    changed ==> exists|p: (FieldId, int)| #[trigger]
                        fields@.contains(p) && !start.contains(p) && universe.contains(p),
                    !changed ==> fields@ == start,
                    !changed ==> forall|i: int|
                        0 <= i < next ==> rule_closed(
                            #[trigger] self@.dependencies[i],
                            self@.fields,
                            start,
                        ),
                decreases self@.dependencies.len() - next,
            {
                let ghost before = fields@;
                let rule = self.dependencies[next];
                proof {
                    assert(dependency_valid(self@.fields.len() as int, self@.dependencies[next as int]));
                    assert forall|t: Set<(FieldId, int)>| #[trigger] completes(self@, seed@, t) implies before.subset_of(
                        t,
                    ) && rule_closed(rule, self@.fields, t) by {
                        assert(rule_closed(self@.dependencies[next as int], self@.fields, t));
                    }
                }
                match self.apply_dependency(&rule, &mut fields) {
                    Ok(more) => {
                        changed = changed || more;
                    },
                    Err(e) => {
                        proof {
                            assert(closure_error(self@, seed@, e)) by {
                                let f = e->AccessUnaddressable_0;
                                assert forall|t: Set<(FieldId, int)>| #[trigger]
                                    completes(self@, seed@, t) implies exists|b: int|
                                    b >= usize::MAX && #[trigger] t.contains((FieldId(f), b)) by {
                                    assert(before.subset_of(t) && rule_closed(rule, self@.fields, t));
                                }
                            }
                        }
                        return Err(e);
                    },
                }
                next = next + 1;
            }
            proof {
                if changed {
                    let p = choose|p: (FieldId, int)| #[trigger]
                        fields@.contains(p) && !start.contains(p) && universe.contains(p);
                    let less = universe.difference(fields@);
                    let more = universe.difference(start);
                    assert(less.subset_of(more.remove(p)));
                    assert(more.contains(p));
                    vstd::set_lib::lemma_len_subset(less, more.remove(p));
                } else {
                    assert(closed_under(self@, fields@));
                }
            }
        }
        Ok(fields)
    }

    /// Adds what one rule asks for because of the bytes that are there.
    fn apply_dependency(&self, rule: &DependencyRule, fields: &mut AccessSet) -> (r: Result<bool, Error>)
        requires
            old(fields).wf(),
            dependency_valid(self@.fields.len() as int, *rule),
        ensures
            final(fields).wf(),
            old(fields)@.subset_of(final(fields)@),
            forall|t: Set<(FieldId, int)>|
                old(fields)@.subset_of(t) && #[trigger] rule_closed(*rule, self@.fields, t) ==> final(fields)@.subset_of(
                    t,
                ),
            match r {
                Ok(changed) => {
                    &&& changed ==> exists|p: (FieldId, int)| #[trigger]
                        final(fields)@.contains(p) && !old(fields)@.contains(p) && addressable(
                            self@.fields.len() as int,
                        ).contains(p)
                    &&& !changed ==> final(fields)@ == old(fields)@ && rule_closed(
                        *rule,
                        self@.fields,
                        old(fields)@,
                    )
                },
                Err(e) => e matches Error::AccessUnaddressable(f) && f < self@.fields.len()
                    && forces_unaddressable(*rule, self@.fields, old(fields)@, FieldId(f)),
            },
    {
        let ghost given = fields@;
        match *rule {
            DependencyRule::DependentField { source, prerequisite } => {
                let spans = fields.spans(source);
                if spans.len() == 0 {
                    proof {
                        assert forall|p: (FieldId, int)| given.contains(p) implies (
                        #[trigger] rule_effects(*rule, self@.fields, p)).subset_of(given) by {
                            if p.0 == source {
                                assert(covers(spans@, p.1));
                            }
                        }
                    }
                    return Ok(false);
                }
                let ghost seen = spans@[0].start as int;
                proof {
                    assert(spans@[0].has(seen));
                    assert(covers(spans@, seen));
                    assert(given.contains((source, seen)));
                }
                let length: usize = self.fields[prerequisite.0].length;
                let changed: bool = fields.insert(prerequisite, Span { start: 0, end: length });
                proof {
                    let whole = field_bytes(prerequisite, 0, length as int);
                    assert forall|t: Set<(FieldId, int)>|
                        given.subset_of(t) && #[trigger] rule_closed(*rule, self@.fields, t) implies fields@.subset_of(
                        t,
                    ) by {
                        assert(rule_effects(*rule, self@.fields, (source, seen)).subset_of(t));
                    }
                    if changed {
                        let p = choose|p: (FieldId, int)| whole.contains(p) && !given.contains(p);
                        assert(fields@.contains(p) && addressable(self@.fields.len() as int).contains(p));
                    } else {
                        assert(fields@ =~= given);
                        assert forall|p: (FieldId, int)| given.contains(p) implies (
                        #[trigger] rule_effects(*rule, self@.fields, p)).subset_of(given) by {}
                    }
                }
                Ok(changed)
            },
            DependencyRule::IndexedStream { data, index, data_block_bytes, index_entry_bytes } => {
                let spans = slice_copy(fields.spans(data));
                let mut changed: bool = false;
                let mut i: usize = 0;
                while i < spans.len()
                    invariant
                        fields.wf(),
                        given == old(fields)@,
                        *rule == (DependencyRule::IndexedStream {
                            data,
                            index,
                            data_block_bytes,
                            index_entry_bytes,
                        }),
                        dependency_valid(self@.fields.len() as int, *rule),
                        canonical(spans@),
                        forall|b: int| #[trigger] covers(spans@, b) == given.contains((data, b)),
                        i <= spans@.len(),
                        given.subset_of(fields@),
                        forall|t: Set<(FieldId, int)>|
                            given.subset_of(t) && #[trigger] rule_closed(*rule, self@.fields, t)
                                ==> fields@.subset_of(t),
                        changed ==> exists|p: (FieldId, int)| #[trigger]
                            fields@.contains(p) && !given.contains(p) && addressable(
                                self@.fields.len() as int,
                            ).contains(p),
                        !changed ==> fields@ == given,
                        !changed ==> forall|j: int, b: int|
                            0 <= j < i && (#[trigger] spans@[j]).has(b) ==> (#[trigger] rule_effects(
                                *rule,
                                self@.fields,
                                (data, b),
                            )).subset_of(given),
                    decreases spans@.len() - i,
                {
                    let span = spans[i];
                    let first: usize = span.start / data_block_bytes;
                    let last: usize = (span.end - 1) / data_block_bytes;
                    proof {
                        assert forall|b: int| span.has(b) implies given.contains((data, b)) by {
                            assert(spans@[i as int].has(b));
                            assert(covers(spans@, b));
                        }
                        lemma_entries_of(
                            *rule,
                            self@.fields,
                            given,
                            data,
                            index,
                            data_block_bytes as int,
                            index_entry_bytes as int,
                            span,
                        );
                    }
                    let range = match entry_range(first, last, index_entry_bytes) {
                        Some(range) => range,
                        None => {
                            proof {
                                assert(FieldId(index.0) == index);
                                assert(forces_unaddressable(*rule, self@.fields, given, index));
                            }
                            return Err(Error::AccessUnaddressable(index.0));
                        },
                    };
                    let ghost entered = fields@;
                    let more: bool = fields.insert(index, range);
                    proof {
                        if changed {
                            let p = choose|p: (FieldId, int)| #[trigger]
                                entered.contains(p) && !given.contains(p) && addressable(
                                    self@.fields.len() as int,
                                ).contains(p);
                            assert(fields@.contains(p));
                        }
                        let entries = field_bytes(index, range.start as int, range.end as int);
                        if more && !changed {
                            let p = choose|p: (FieldId, int)| entries.contains(p) && !given.contains(p);
                            assert(fields@.contains(p) && addressable(self@.fields.len() as int).contains(p));
                        } else if !more && !changed {
                            assert(fields@ =~= given);
                            assert forall|b: int| span.has(b) implies (#[trigger] rule_effects(
                                *rule,
                                self@.fields,
                                (data, b),
                            )).subset_of(given) by {
                                assert(entry_bytes(
                                    index,
                                    b,
                                    data_block_bytes as int,
                                    index_entry_bytes as int,
                                ).subset_of(entries));
                            }
                        }
                    }
                    changed = changed || more;
                    i = i + 1;
                }
                proof {
                    if !changed {
                        assert forall|p: (FieldId, int)| given.contains(p) implies (
                        #[trigger] rule_effects(*rule, self@.fields, p)).subset_of(given) by {
                            if p.0 == data {
                                assert(covers(spans@, p.1));
                                let j = choose|j: int| 0 <= j < spans@.len() && (#[trigger] spans@[j]).has(p.1);
                                assert(rule_effects(*rule, self@.fields, (data, p.1)).subset_of(given));
                            }
                        }
                    }
                }
                Ok(changed)
            },
            DependencyRule::Restart { data, restarts, data_bytes_per_restart, bytes_per_restart } => {
                let spans = slice_copy(fields.spans(data));
                let mut changed: bool = false;
                let mut i: usize = 0;
                while i < spans.len()
                    invariant
                        fields.wf(),
                        given == old(fields)@,
                        *rule == (DependencyRule::Restart {
                            data,
                            restarts,
                            data_bytes_per_restart,
                            bytes_per_restart,
                        }),
                        dependency_valid(self@.fields.len() as int, *rule),
                        canonical(spans@),
                        forall|b: int| #[trigger] covers(spans@, b) == given.contains((data, b)),
                        i <= spans@.len(),
                        given.subset_of(fields@),
                        forall|t: Set<(FieldId, int)>|
                            given.subset_of(t) && #[trigger] rule_closed(*rule, self@.fields, t)
                                ==> fields@.subset_of(t),
                        changed ==> exists|p: (FieldId, int)| #[trigger]
                            fields@.contains(p) && !given.contains(p) && addressable(
                                self@.fields.len() as int,
                            ).contains(p),
                        !changed ==> fields@ == given,
                        !changed ==> forall|j: int, b: int|
                            0 <= j < i && (#[trigger] spans@[j]).has(b) ==> (#[trigger] rule_effects(
                                *rule,
                                self@.fields,
                                (data, b),
                            )).subset_of(given),
                    decreases spans@.len() - i,
                {
                    let span = spans[i];
                    let first: usize = span.start / data_bytes_per_restart;
                    let last: usize = (span.end - 1) / data_bytes_per_restart;
                    proof {
                        assert forall|b: int| span.has(b) implies given.contains((data, b)) by {
                            assert(spans@[i as int].has(b));
                            assert(covers(spans@, b));
                        }
                        lemma_entries_of(
                            *rule,
                            self@.fields,
                            given,
                            data,
                            restarts,
                            data_bytes_per_restart as int,
                            bytes_per_restart as int,
                            span,
                        );
                        lemma_floor(span.start as int, data_bytes_per_restart as int);
                    }
                    let start: usize = first * data_bytes_per_restart;
                    let ghost entered = fields@;
                    let back: bool = fields.insert(data, Span { start, end: span.end });
                    proof {
                        let block = field_bytes(data, start as int, span.end as int);
                        assert forall|t: Set<(FieldId, int)>|
                            given.subset_of(t) && #[trigger] rule_closed(*rule, self@.fields, t) implies fields@.subset_of(
                            t,
                        ) by {
                            assert(entered.subset_of(t));
                            assert(span.has(span.start as int));
                            assert(given.contains((data, span.start as int)));
                            assert(rule_effects(*rule, self@.fields, (data, span.start as int)).subset_of(t));
                            assert(block.subset_of(t)) by {
                                assert forall|p: (FieldId, int)| block.contains(p) implies t.contains(p) by {
                                    if p.1 < span.start {
                                        assert(rule_effects(
                                            *rule,
                                            self@.fields,
                                            (data, span.start as int),
                                        ).contains(p));
                                    } else {
                                        assert(span.has(p.1));
                                        assert(given.contains((data, p.1)));
                                    }
                                }
                            }
                        }
                        if back && !changed {
                            let p = choose|p: (FieldId, int)| block.contains(p) && !given.contains(p);
                            assert(fields@.contains(p) && addressable(self@.fields.len() as int).contains(p));
                        } else if !back && !changed {
                            assert(fields@ =~= given);
                        }
                    }
                    let range = match entry_range(first, last, bytes_per_restart) {
                        Some(range) => range,
                        None => {
                            proof {
                                assert(FieldId(restarts.0) == restarts);
                                assert(forces_unaddressable(*rule, self@.fields, given, restarts));
                            }
                            return Err(Error::AccessUnaddressable(restarts.0));
                        },
                    };
                    let ghost middle = fields@;
                    proof {
                        if changed {
                            let p = choose|p: (FieldId, int)| #[trigger]
                                entered.contains(p) && !given.contains(p) && addressable(
                                    self@.fields.len() as int,
                                ).contains(p);
                            assert(middle.contains(p));
                        }
                    }
                    let more: bool = fields.insert(restarts, range);
                    proof {
                        let entries = field_bytes(restarts, range.start as int, range.end as int);
                        if more && !changed && !back {
                            let p = choose|p: (FieldId, int)| entries.contains(p) && !given.contains(p);
                            assert(fields@.contains(p) && addressable(self@.fields.len() as int).contains(p));
                        } else if !more && !changed && !back {
                            assert(fields@ =~= given);
                            assert forall|b: int| span.has(b) implies (#[trigger] rule_effects(
                                *rule,
                                self@.fields,
                                (data, b),
                            )).subset_of(given) by {
                                let d = data_bytes_per_restart as int;
                                lemma_floor(b, d);
                                vstd::arithmetic::div_mod::lemma_div_is_ordered(span.start as int, b, d);
                                lemma_scale(span.start as int / d, b / d, d);
                                let block = field_bytes(data, start as int, span.end as int);
                                assert(block.subset_of(given));
                                assert(field_bytes(data, b / d * d, b).subset_of(block));
                                assert(entry_bytes(restarts, b, d, bytes_per_restart as int).subset_of(
                                    entries,
                                ));
                            }
                        }
                        if changed || back {
                            let p = choose|p: (FieldId, int)| #[trigger]
                                middle.contains(p) && !given.contains(p) && addressable(
                                    self@.fields.len() as int,
                                ).contains(p);
                            assert(fields@.contains(p));
                        }
                    }
                    changed = changed || back || more;
                    i = i + 1;
                }
                proof {
                    if !changed {
                        assert forall|p: (FieldId, int)| given.contains(p) implies (
                        #[trigger] rule_effects(*rule, self@.fields, p)).subset_of(given) by {
                            if p.0 == data {
                                assert(covers(spans@, p.1));
                                let j = choose|j: int| 0 <= j < spans@.len() && (#[trigger] spans@[j]).has(p.1);
                                assert(rule_effects(*rule, self@.fields, (data, p.1)).subset_of(given));
                            }
                        }
                    }
                }
                Ok(changed)
            },
        }
    }

    /// The file ranges that deliver each range of the access, in order.
    fn deliveries(&self, fields: &AccessSet, Ghost(seed): Ghost<Set<(FieldId, int)>>) -> (r: Result<
        Vec<Span>,
        Error,
    >)
        requires
            fields.wf(),
            layout_error(self@) is None,
            is_closure(self@, seed, fields@),
        ensures
            match r {
                Ok(delivered) => {
                    &&& within_fields(self@, fields@)
                    &&& all_wf(delivered@)
                    &&& all_below(delivered@, self.file_length as int)
                    &&& forall|x: int| #[trigger]
                        touches(delivered@, x) == delivery_touches(self@, fields@, x)
                },
                Err(e) => closure_error(self@, seed, e),
            },
    {
        let entries = fields.iter();
        let mut delivered: Vec<Span> = Vec::new();
        let mut k: usize = 0;
        while k < entries.len()
            invariant
                layout_error(self@) is None,
                is_closure(self@, seed, fields@),
                entries_canonical(entries@),
                forall|p: (FieldId, int)| fields@.contains(p) == #[trigger] entries_hold(entries@, p),
                k <= entries@.len(),
                forall|i: int|
                    0 <= i < k ==> entry_within(self@, #[trigger] entries@[i]),
                all_wf(delivered@),
                all_below(delivered@, self.file_length as int),
                forall|x: int| #[trigger]
                    touches(delivered@, x) == entries_touch(self@, entries@.take(k as int), x),
            decreases entries@.len() - k,
        {
            let field_id = entries[k].0;
            let spans = &entries[k].1;
            let ghost taken = entries@.take(k as int);
            let ghost grown = entries@.take(k + 1);
            if field_id.0 >= self.fields.len() {
                proof {
                    let b = spans@[0].start as int;
                    assert(spans@[0].has(b));
                    assert(covers(spans@, b));
                    assert(entries_hold(entries@, (field_id, b)));
                    assert(fields@.contains((FieldId(field_id.0 as int as usize), b)));
                    lemma_before_within(self@, fields@, entries@, k as int);
                    assert(first_beyond(self@, fields@, field_id.0 as int));
                }
                return Err(Error::AccessFieldAbsent(field_id.0));
            }
            let field = &self.fields[field_id.0];
            proof {
                lemma_valid_field(self@, field_id.0 as int);
            }
            let ghost base = delivered@;
            let mut i: usize = 0;
            while i < spans.len()
                invariant
                    layout_error(self@) is None,
                    is_closure(self@, seed, fields@),
                    entries_canonical(entries@),
                    forall|p: (FieldId, int)| fields@.contains(p) == #[trigger] entries_hold(entries@, p),
                    k < entries@.len(),
                    field_id == entries@[k as int].0,
                    spans@ == entries@[k as int].1@,
                    forall|j: int| 0 <= j < k ==> entry_within(self@, #[trigger] entries@[j]),
                    field_id.0 < self.fields@.len(),
                    *field == self.fields@[field_id.0 as int],
                    field@ == self@.fields[field_id.0 as int],
                    field_error(self@, field_id.0 as int) is None,
                    i <= spans@.len(),
                    forall|j: int| 0 <= j < i ==> (#[trigger] spans@[j]).end <= field.length,
                    all_wf(delivered@),
                    all_below(delivered@, self.file_length as int),
                    forall|x: int| #[trigger]
                        touches(delivered@, x) == (touches(base, x) || spans_touch(
                            self@,
                            field_id,
                            spans@.take(i as int),
                            x,
                        )),
                decreases spans@.len() - i,
            {
                let span = spans[i];
                let ghost taken_spans = spans@.take(i as int);
                let ghost grown_spans = spans@.take(i + 1);
                if span.end > field.length {
                    proof {
                        let b = span.end - 1;
                        assert(spans@[i as int].has(b));
                        assert(covers(spans@, b));
                        assert(entries_hold(entries@, (field_id, b)));
                        assert(fields@.contains((FieldId(field_id.0 as int as usize), b)));
                        lemma_before_within(self@, fields@, entries@, k as int);
                        assert(first_beyond(self@, fields@, field_id.0 as int));
                    }
                    return Err(Error::AccessExceedsField(field_id.0));
                }
                let range = self.delivery_of(field_id, span);
                let ghost before = delivered@;
                delivered.push(range);
                proof {
                    assert forall|x: int| #[trigger]
                        touches(delivered@, x) == (touches(base, x) || spans_touch(
                            self@,
                            field_id,
                            grown_spans,
                            x,
                        )) by {
                        assert(touches(before, x) == (touches(base, x) || spans_touch(
                            self@,
                            field_id,
                            taken_spans,
                            x,
                        )));
                        lemma_touches_push(before, range, x);
                        lemma_spans_touch_step(self@, field_id, spans@, i as int, x);
                    }
                }
                i = i + 1;
            }
            proof {
                assert(spans@.take(i as int) =~= spans@);
                assert(entry_within(self@, entries@[k as int])) by {
                    assert forall|b: int| covers(spans@, b) implies b < self.fields@[field_id.0 as int].length by {
                        let j = choose|j: int| 0 <= j < spans@.len() && (#[trigger] spans@[j]).has(b);
                        assert(spans@[j].end <= field.length);
                    }
                }
                assert forall|x: int| #[trigger]
                    touches(delivered@, x) == entries_touch(self@, grown, x) by {
                    assert(touches(base, x) == entries_touch(self@, taken, x));
                    lemma_entries_touch_step(self@, entries@, k as int, x);
                }
            }
            k = k + 1;
        }
        proof {
            assert(entries@.take(k as int) =~= entries@);
            assert forall|f: int| 0 <= f <= usize::MAX implies #[trigger] within_field(self@, fields@, f) by {
                assert forall|b: int| #[trigger]
                    fields@.contains((FieldId(f as usize), b)) implies f < self.fields@.len() && b
                    < self.fields@[f].length by {
                    assert(entries_hold(entries@, (FieldId(f as usize), b)));
                    let j = choose|j: int|
                        0 <= j < entries@.len() && (#[trigger] entries@[j]).0 == FieldId(f as usize)
                            && covers(entries@[j].1@, b);
                    assert(entry_within(self@, entries@[j]));
                }
            }
            assert forall|x: int| #[trigger]
                touches(delivered@, x) == delivery_touches(self@, fields@, x) by {
                lemma_entries_touch(self@, fields@, entries@, x);
            }
        }
        Ok(delivered)
    }

    /// The file range that delivers one range of a field.
    fn delivery_of(&self, field_id: FieldId, span: Span) -> (r: Span)
        requires
            layout_error(self@) is None,
            field_id.0 < self.fields@.len(),
            field_error(self@, field_id.0 as int) is None,
            span.start < span.end <= self.fields@[field_id.0 as int].length,
        ensures
            r.wf(),
            r.end <= self.file_length,
            forall|x: int| #[trigger] r.touches(x) == span_touch(self@, field_id, span, x),
    {
        let field = &self.fields[field_id.0];
        match field.location {
            FieldLocation::Direct { offset } => {
                let granule: usize = field.read_granularity;
                let last: usize = (span.end - 1) / granule;
                proof {
                    lemma_floor(span.start as int, granule as int);
                    lemma_floor(span.end - 1, granule as int);
                    vstd::arithmetic::div_mod::lemma_div_is_ordered(
                        span.start as int,
                        span.end - 1,
                        granule as int,
                    );
                    lemma_scale(span.start as int / granule as int, last as int, granule as int);
                    lemma_scale_next(last as int, granule as int);
                }
                let start: usize = span.start / granule * granule;
                let reached: usize = last * granule;
                let end: usize = if field.length - reached < granule {
                    field.length
                } else {
                    reached + granule
                };
                let r = Span { start: offset + start, end: offset + end };
                proof {
                    assert forall|x: int| #[trigger] r.touches(x) == span_touch(
                        self@,
                        field_id,
                        span,
                        x,
                    ) by {
                        lemma_granules(self@, field_id, span, offset as int, start as int, end as int, x);
                    }
                }
                r
            },
            FieldLocation::Framed { frame, .. } => {
                let frame = self.frames[frame.0];
                proof {
                    lemma_valid_frame(self@, frame_index(field@));
                }
                let r = Span { start: frame.offset, end: frame.offset + frame.compressed_length };
                proof {
                    assert forall|x: int| #[trigger] r.touches(x) == span_touch(
                        self@,
                        field_id,
                        span,
                        x,
                    ) by {
                        if r.touches(x) {
                            assert(span.has(span.start as int));
                            assert(byte_touch(self@, (field_id, span.start as int), x));
                        }
                    }
                }
                r
            },
        }
    }
}

pub(crate) open spec fn frame_index(field: Field) -> int {
    match field.location {
        FieldLocation::Framed { frame, .. } => frame.0 as int,
        FieldLocation::Direct { .. } => 0,
    }
}

pub open spec fn all_below(spans: Seq<Span>, limit: int) -> bool {
    forall|i: int| 0 <= i < spans.len() ==> (#[trigger] spans[i]).end <= limit
}

spec fn byte_touch(layout: Layout, p: (FieldId, int), x: int) -> bool {
    2 * delivery(layout, p).0 <= x <= 2 * delivery(layout, p).1
}

spec fn span_touch(layout: Layout, f: FieldId, span: Span, x: int) -> bool {
    exists|b: int| span.has(b) && #[trigger] byte_touch(layout, (f, b), x)
}

spec fn spans_touch(layout: Layout, f: FieldId, spans: Seq<Span>, x: int) -> bool {
    exists|i: int| 0 <= i < spans.len() && span_touch(layout, f, #[trigger] spans[i], x)
}

spec fn entries_touch(layout: Layout, entries: Seq<(FieldId, Vec<Span>)>, x: int) -> bool {
    exists|k: int|
        0 <= k < entries.len() && spans_touch(
            layout,
            (#[trigger] entries[k]).0,
            entries[k].1@,
            x,
        )
}

spec fn entry_within(layout: Layout, entry: (FieldId, Vec<Span>)) -> bool {
    entry.0.0 < layout.fields.len() && forall|b: int| #[trigger]
        covers(entry.1@, b) ==> b < layout.fields[entry.0.0 as int].length
}

proof fn lemma_touches_push(spans: Seq<Span>, span: Span, x: int)
    ensures
        touches(spans.push(span), x) == (touches(spans, x) || span.touches(x)),
{
    let grown = spans.push(span);
    if touches(spans, x) {
        let i = choose|i: int| 0 <= i < spans.len() && (#[trigger] spans[i]).touches(x);
        assert(grown[i].touches(x));
    }
    if span.touches(x) {
        assert(grown[spans.len() as int].touches(x));
    }
    if touches(grown, x) {
        let i = choose|i: int| 0 <= i < grown.len() && (#[trigger] grown[i]).touches(x);
        if i < spans.len() {
            assert(spans[i].touches(x));
        }
    }
}

proof fn lemma_spans_touch_step(layout: Layout, f: FieldId, spans: Seq<Span>, i: int, x: int)
    requires
        0 <= i < spans.len(),
    ensures
        spans_touch(layout, f, spans.take(i + 1), x) == (spans_touch(layout, f, spans.take(i), x)
            || span_touch(layout, f, spans[i], x)),
{
    let taken = spans.take(i);
    let grown = spans.take(i + 1);
    if spans_touch(layout, f, taken, x) {
        let k = choose|k: int| 0 <= k < taken.len() && span_touch(layout, f, #[trigger] taken[k], x);
        assert(grown[k] == taken[k]);
    }
    if span_touch(layout, f, spans[i], x) {
        assert(grown[i] == spans[i]);
    }
    if spans_touch(layout, f, grown, x) {
        let k = choose|k: int| 0 <= k < grown.len() && span_touch(layout, f, #[trigger] grown[k], x);
        if k < i {
            assert(grown[k] == taken[k]);
        }
    }
}

proof fn lemma_entries_touch_step(
    layout: Layout,
    entries: Seq<(FieldId, Vec<Span>)>,
    i: int,
    x: int,
)
    requires
        0 <= i < entries.len(),
    ensures
        entries_touch(layout, entries.take(i + 1), x) == (entries_touch(layout, entries.take(i), x)
            || spans_touch(layout, entries[i].0, entries[i].1@, x)),
{
    let taken = entries.take(i);
    let grown = entries.take(i + 1);
    if entries_touch(layout, taken, x) {
        let k = choose|k: int|
            0 <= k < taken.len() && spans_touch(layout, (#[trigger] taken[k]).0, taken[k].1@, x);
        assert(grown[k] == taken[k]);
    }
    if spans_touch(layout, entries[i].0, entries[i].1@, x) {
        assert(grown[i] == entries[i]);
    }
    if entries_touch(layout, grown, x) {
        let k = choose|k: int|
            0 <= k < grown.len() && spans_touch(layout, (#[trigger] grown[k]).0, grown[k].1@, x);
        if k < i {
            assert(grown[k] == taken[k]);
        }
    }
}

proof fn lemma_entries_touch(
    layout: Layout,
    s: Set<(FieldId, int)>,
    entries: Seq<(FieldId, Vec<Span>)>,
    x: int,
)
    requires
        forall|p: (FieldId, int)| s.contains(p) == #[trigger] entries_hold(entries, p),
    ensures
        entries_touch(layout, entries, x) == delivery_touches(layout, s, x),
{
    if entries_touch(layout, entries, x) {
        let k = choose|k: int|
            0 <= k < entries.len() && spans_touch(layout, (#[trigger] entries[k]).0, entries[k].1@, x);
        let spans = entries[k].1@;
        let i = choose|i: int|
            0 <= i < spans.len() && span_touch(layout, entries[k].0, #[trigger] spans[i], x);
        let b = choose|b: int|
            spans[i].has(b) && #[trigger] byte_touch(layout, (entries[k].0, b), x);
        assert(covers(spans, b));
        assert(entries_hold(entries, (entries[k].0, b)));
        assert(s.contains((entries[k].0, b)));
    }
    if delivery_touches(layout, s, x) {
        let p = choose|p: (FieldId, int)| #[trigger]
            s.contains(p) && 2 * delivery(layout, p).0 <= x <= 2 * delivery(layout, p).1;
        assert(entries_hold(entries, p));
        let k = choose|k: int|
            0 <= k < entries.len() && (#[trigger] entries[k]).0 == p.0 && covers(entries[k].1@, p.1);
        let spans = entries[k].1@;
        let i = choose|i: int| 0 <= i < spans.len() && (#[trigger] spans[i]).has(p.1);
        assert(byte_touch(layout, (entries[k].0, p.1), x));
        assert(span_touch(layout, entries[k].0, spans[i], x));
        assert(spans_touch(layout, entries[k].0, spans, x));
    }
}

proof fn lemma_before_within(
    layout: Layout,
    s: Set<(FieldId, int)>,
    entries: Seq<(FieldId, Vec<Span>)>,
    k: int,
)
    requires
        0 <= k < entries.len(),
        entries_canonical(entries),
        forall|p: (FieldId, int)| s.contains(p) == #[trigger] entries_hold(entries, p),
        forall|i: int| 0 <= i < k ==> entry_within(layout, #[trigger] entries[i]),
    ensures
        forall|g: int| 0 <= g < entries[k].0.0 ==> #[trigger] within_field(layout, s, g),
{
    assert forall|g: int| 0 <= g < entries[k].0.0 implies #[trigger] within_field(layout, s, g) by {
        assert forall|b: int| #[trigger] s.contains((FieldId(g as usize), b)) implies g
            < layout.fields.len() && b < layout.fields[g].length by {
            assert(entries_hold(entries, (FieldId(g as usize), b)));
            let j = choose|j: int|
                0 <= j < entries.len() && (#[trigger] entries[j]).0 == FieldId(g as usize) && covers(
                    entries[j].1@,
                    b,
                );
            if j > k {
                assert(entries[k].0.0 < entries[j].0.0);
            }
            assert(entry_within(layout, entries[j]));
        }
    }
}

// ----- arithmetic -----

pub proof fn lemma_floor(a: int, d: int)
    requires
        d > 0,
        0 <= a,
    ensures
        0 <= a / d,
        (a / d) * d <= a < (a / d) * d + d,
{
    vstd::arithmetic::div_mod::lemma_fundamental_div_mod(a, d);
    vstd::arithmetic::mul::lemma_mul_is_commutative(d, a / d);
    vstd::arithmetic::div_mod::lemma_mod_bound(a, d);
    vstd::arithmetic::div_mod::lemma_div_pos_is_pos(a, d);
}

pub proof fn lemma_scale(a: int, b: int, d: int)
    requires
        a <= b,
        d >= 0,
    ensures
        a * d <= b * d,
{
    vstd::arithmetic::mul::lemma_mul_inequality(a, b, d);
}

pub proof fn lemma_scale_next(a: int, d: int)
    ensures
        (a + 1) * d == a * d + d,
{
    vstd::arithmetic::mul::lemma_mul_is_distributive_add_other_way(d, a, 1);
}

/// `k` is the quotient when `a` lies in block `k`.
pub proof fn lemma_quotient(a: int, k: int, d: int)
    requires
        d > 0,
        0 <= k,
        k * d <= a < k * d + d,
    ensures
        a / d == k,
{
    vstd::arithmetic::div_mod::lemma_fundamental_div_mod_converse(a, d, k, a - k * d);
}

proof fn lemma_granules(
    layout: Layout,
    f: FieldId,
    span: Span,
    offset: int,
    start: int,
    end: int,
    x: int,
)
    requires
        f.0 < layout.fields.len(),
        field_error(layout, f.0 as int) is None,
        layout.fields[f.0 as int].location == (FieldLocation::Direct { offset: offset as usize }),
        0 <= offset <= usize::MAX,
        span.start < span.end <= layout.fields[f.0 as int].length,
        ({
            let g = layout.fields[f.0 as int].read_granularity as int;
            let length = layout.fields[f.0 as int].length as int;
            let reached = (span.end - 1) / g * g + g;
            &&& start == span.start as int / g * g
            &&& end == if reached < length { reached } else { length }
        }),
    ensures
        (2 * (offset + start) <= x <= 2 * (offset + end)) == span_touch(layout, f, span, x),
{
    let g = layout.fields[f.0 as int].read_granularity as int;
    let length = layout.fields[f.0 as int].length as int;
    let first = span.start as int / g;
    let last = (span.end - 1) / g;
    lemma_floor(span.start as int, g);
    lemma_floor(span.end - 1, g);
    lemma_scale_next(last, g);
    if 2 * (offset + start) <= x <= 2 * (offset + end) {
        let y = x / 2 - offset;
        let (k, b) = if y == end {
            (last, span.end - 1)
        } else {
            lemma_floor(y, g);
            let k = y / g;
            (k, if k * g < span.start { span.start as int } else { k * g })
        };
        if y != end {
            if k > last {
                lemma_scale(last + 1, k, g);
            }
            if k < first {
                lemma_scale(k + 1, first, g);
                lemma_scale_next(k, g);
            }
            if k < last {
                lemma_scale(k, last, g);
            }
            lemma_scale_next(k, g);
            if k == first {
            } else {
                lemma_scale(first + 1, k, g);
                lemma_scale_next(first, g);
            }
            lemma_quotient(b, k, g);
        }
        lemma_scale_next(k, g);
        assert(span.has(b));
        assert(byte_touch(layout, (f, b), x));
    }
    if span_touch(layout, f, span, x) {
        let b = choose|b: int| span.has(b) && #[trigger] byte_touch(layout, (f, b), x);
        lemma_floor(b, g);
        vstd::arithmetic::div_mod::lemma_div_is_ordered(span.start as int, b, g);
        vstd::arithmetic::div_mod::lemma_div_is_ordered(b, span.end - 1, g);
        lemma_scale(first, b / g, g);
        lemma_scale(b / g + 1, last + 1, g);
        lemma_scale_next(b / g, g);
    }
}

proof fn lemma_fields_error(layout: Layout, i: int, n: int)
    requires
        0 <= i < n,
        fields_error(layout, i) is None,
        field_error(layout, i) is Some,
    ensures
        fields_error(layout, n) == field_error(layout, i),
    decreases n,
{
    if n > i + 1 {
        lemma_fields_error(layout, i, n - 1);
    }
}

proof fn lemma_frames_error(layout: Layout, i: int, n: int)
    requires
        0 <= i < n,
        frames_error(layout, i) is None,
        frame_error(layout, i) is Some,
    ensures
        frames_error(layout, n) == frame_error(layout, i),
    decreases n,
{
    if n > i + 1 {
        lemma_frames_error(layout, i, n - 1);
    }
}

pub proof fn lemma_fields_valid(layout: Layout, i: int, n: int)
    requires
        0 <= i < n,
        fields_error(layout, n) is None,
    ensures
        field_error(layout, i) is None,
    decreases n,
{
    if i < n - 1 {
        lemma_fields_valid(layout, i, n - 1);
    }
}

proof fn lemma_frames_valid(layout: Layout, i: int, n: int)
    requires
        0 <= i < n,
        frames_error(layout, n) is None,
    ensures
        frame_error(layout, i) is None,
    decreases n,
{
    if i < n - 1 {
        lemma_frames_valid(layout, i, n - 1);
    }
}

/// Every field of a valid layout is valid.
pub proof fn lemma_valid_field(layout: Layout, i: int)
    requires
        layout_error(layout) is None,
        0 <= i < layout.fields.len(),
    ensures
        field_error(layout, i) is None,
{
    lemma_fields_valid(layout, i, layout.fields.len() as int);
}

/// Every frame of a valid layout is valid.
pub proof fn lemma_valid_frame(layout: Layout, i: int)
    requires
        layout_error(layout) is None,
        0 <= i < layout.frames.len(),
    ensures
        frame_error(layout, i) is None,
{
    lemma_frames_valid(layout, i, layout.frames.len() as int);
}

/// The bytes that a layout with `n` fields can be asked for.
spec fn addressable(n: int) -> Set<(FieldId, int)> {
    Set::new(|p: (FieldId, int)| p.0.0 < n && 0 <= p.1 < usize::MAX)
}

proof fn lemma_addressable_finite(n: int)
    requires
        0 <= n <= usize::MAX + 1,
    ensures
        addressable(n).finite(),
    decreases n,
{
    if n == 0 {
        assert(addressable(0) =~= Set::empty());
    } else {
        lemma_addressable_finite(n - 1);
        let last = field_bytes(FieldId((n - 1) as usize), 0, usize::MAX as int);
        lemma_field_bytes_len(FieldId((n - 1) as usize), 0, usize::MAX as int);
        assert(addressable(n) =~= addressable(n - 1).union(last));
    }
}

/// The positions in ranges that are apart and below a limit.
pub(crate) fn sum_below(spans: &Vec<Span>, limit: usize) -> (r: usize)
    requires
        separated(spans@),
        all_below(spans@, limit as int),
    ensures
        r == total(spans@),
{
    let mut sum: usize = 0;
    let mut i: usize = 0;
    while i < spans.len()
        invariant
            i <= spans@.len(),
            separated(spans@),
            all_below(spans@, limit as int),
            sum == total(spans@.take(i as int)),
            i > 0 ==> sum <= spans@[i - 1].end,
            i == 0 ==> sum == 0,
        decreases spans@.len() - i,
    {
        assert(spans@.take(i + 1).drop_last() =~= spans@.take(i as int));
        if i > 0 {
            assert(spans@[i - 1].end < spans@[i as int].start);
        }
        sum = sum + spans[i].len();
        i = i + 1;
    }
    assert(spans@.take(i as int) =~= spans@);
    sum
}

/// Every set that is closed under the rule and holds `given` has a byte of the
/// field that no machine address reaches.
spec fn forces_unaddressable(
    rule: DependencyRule,
    layouts: Seq<Field>,
    given: Set<(FieldId, int)>,
    f: FieldId,
) -> bool {
    forall|t: Set<(FieldId, int)>|
        given.subset_of(t) && #[trigger] rule_closed(rule, layouts, t) ==> exists|b: int|
            b >= usize::MAX && #[trigger] t.contains((f, b))
}

/// The entry of an index for the block of byte `b`.
spec fn entry_bytes(index: FieldId, b: int, block: int, entry: int) -> Set<(FieldId, int)> {
    field_bytes(index, (b / block) * entry, (b / block + 1) * entry)
}

/// The entries of all blocks that a range meets are one range, each of whose
/// bytes is asked for by a byte of the range.
proof fn lemma_entries_of(
    rule: DependencyRule,
    layouts: Seq<Field>,
    given: Set<(FieldId, int)>,
    data: FieldId,
    index: FieldId,
    block: int,
    entry: int,
    span: Span,
)
    requires
        block > 0,
        entry > 0,
        span.start < span.end,
        forall|b: int| span.has(b) ==> given.contains((data, b)),
        forall|b: int|
            span.has(b) ==> entry_bytes(index, b, block, entry).subset_of(
                #[trigger] rule_effects(rule, layouts, (data, b)),
            ),
    ensures
        ({
            let first = span.start as int / block;
            let last = (span.end - 1) / block;
            let entries = field_bytes(index, first * entry, (last + 1) * entry);
            &&& 0 <= first <= last
            &&& forall|t: Set<(FieldId, int)>|
                given.subset_of(t) && #[trigger] rule_closed(rule, layouts, t) ==> entries.subset_of(t)
            &&& forall|b: int|
                span.has(b) ==> (#[trigger] entry_bytes(index, b, block, entry)).subset_of(entries)
            &&& (last + 1) * entry > usize::MAX ==> forall|t: Set<(FieldId, int)>|
                given.subset_of(t) && #[trigger] rule_closed(rule, layouts, t) ==> exists|b: int|
                    b >= usize::MAX && #[trigger] t.contains((index, b))
        }),
{
    let first = span.start as int / block;
    let last = (span.end - 1) / block;
    let entries = field_bytes(index, first * entry, (last + 1) * entry);
    lemma_floor(span.start as int, block);
    lemma_floor(span.end - 1, block);
    vstd::arithmetic::div_mod::lemma_div_is_ordered(span.start as int, span.end - 1, block);
    assert forall|t: Set<(FieldId, int)>| given.subset_of(t) && #[trigger] rule_closed(rule, layouts, t) implies entries.subset_of(
        t,
    ) by {
        assert forall|p: (FieldId, int)| entries.contains(p) implies t.contains(p) by {
            vstd::arithmetic::mul::lemma_mul_nonnegative(first, entry);
            lemma_floor(p.1, entry);
            let k = p.1 / entry;
            lemma_scale_next(k, entry);
            if k < first {
                lemma_scale(k + 1, first, entry);
            }
            if k > last {
                lemma_scale(last + 1, k, entry);
            }
            let b = if k * block < span.start { span.start as int } else { k * block };
            lemma_scale(k, last, block);
            if k > first {
                lemma_scale(first + 1, k, block);
                lemma_scale_next(first, block);
            }
            lemma_quotient(b, k, block);
            assert(span.has(b));
            assert(entry_bytes(index, b, block, entry).contains(p));
            assert(rule_effects(rule, layouts, (data, b)).subset_of(t));
        }
    }
    assert forall|b: int| span.has(b) implies (#[trigger] entry_bytes(index, b, block, entry)).subset_of(
        entries,
    ) by {
        vstd::arithmetic::div_mod::lemma_div_is_ordered(span.start as int, b, block);
        vstd::arithmetic::div_mod::lemma_div_is_ordered(b, span.end - 1, block);
        lemma_scale(first, b / block, entry);
        lemma_scale(b / block + 1, last + 1, entry);
    }
    if (last + 1) * entry > usize::MAX {
        assert forall|t: Set<(FieldId, int)>|
            given.subset_of(t) && #[trigger] rule_closed(rule, layouts, t) implies exists|b: int|
            b >= usize::MAX && #[trigger] t.contains((index, b)) by {
            let b = span.end - 1;
            assert(span.has(b));
            assert(given.contains((data, b)));
            let top = (last + 1) * entry - 1;
            lemma_scale_next(last, entry);
            assert(entry_bytes(index, b, block, entry).contains((index, top)));
            assert(rule_effects(rule, layouts, (data, b)).subset_of(t));
            assert(t.contains((index, top)));
        }
    }
}

/// The bytes of entries `first..=last`, if they are addressable.
fn entry_range(first: usize, last: usize, entry: usize) -> (r: Option<Span>)
    requires
        first <= last,
        entry > 0,
        last < usize::MAX,
    ensures
        match r {
            Some(range) => range.start == first * entry && range.end == (last + 1) * entry
                && range.wf(),
            None => (last + 1) * entry > usize::MAX,
        },
{
    proof {
        lemma_scale(first as int, last + 1, entry as int);
    }
    match (last + 1).checked_mul(entry) {
        Some(end) => Some(Span { start: first * entry, end }),
        None => None,
    }
}

fn slice_copy(spans: &[Span]) -> (r: Vec<Span>)
    ensures
        r@ == spans@,
{
    let mut r: Vec<Span> = Vec::new();
    let mut i: usize = 0;
    while i < spans.len()
        invariant
            i <= spans@.len(),
            r@ == spans@.take(i as int),
        decreases spans@.len() - i,
    {
        r.push(spans[i]);
        i = i + 1;
        assert(r@ =~= spans@.take(i as int));
    }
    assert(r@ =~= spans@);
    r
}

} // verus!
