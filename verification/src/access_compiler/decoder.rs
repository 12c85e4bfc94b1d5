//! Trees of decoder primitives, kept in an arena where children come first.
use super::error::Error;
use super::ids::{FieldId, NodeId};
use vstd::prelude::*;

verus! {

#[derive(Clone, Copy, Debug, PartialEq, Eq, Structural)]
pub enum DeltaCoding {
    ZigZag,
    Unsigned,
}

#[derive(Clone, Copy, Debug, PartialEq, Eq, Structural)]
pub enum DecoderNode {
    BitUnpack {
        stream: FieldId,
        width: u8,
        len: usize,
        miniblock_rows: usize,
        miniblock_bytes: usize,
    },
    Rle {
        values: NodeId,
        run_lengths: FieldId,
        run_index: FieldId,
        len: usize,
        runs: usize,
        index_interval: usize,
    },
    Dictionary { ids: NodeId, dictionary: FieldId, entries: usize, sorted_unique: bool },
    Delta {
        deltas: NodeId,
        restarts: FieldId,
        restart_interval: usize,
        len: usize,
        coding: DeltaCoding,
    },
    For { base: FieldId, values: NodeId },
    Patch {
        values: NodeId,
        positions: FieldId,
        position_index: FieldId,
        exceptions: FieldId,
        count: usize,
        index_interval: usize,
    },
    Nullable {
        validity: FieldId,
        rank_index: FieldId,
        values: NodeId,
        logical_len: usize,
        nonnull_len: usize,
        rank_interval: usize,
    },
}

/// The child that a node decodes from.
pub open spec fn child_of(node: DecoderNode) -> Option<NodeId> {
    match node {
        DecoderNode::BitUnpack { .. } => None,
        DecoderNode::Rle { values, .. } => Some(values),
        DecoderNode::Dictionary { ids, .. } => Some(ids),
        DecoderNode::Delta { deltas, .. } => Some(deltas),
        DecoderNode::For { values, .. } => Some(values),
        DecoderNode::Patch { values, .. } => Some(values),
        DecoderNode::Nullable { values, .. } => Some(values),
    }
}

/// The length that a node states itself, or the child whose length it has.
pub open spec fn own_len(node: DecoderNode) -> Result<usize, NodeId> {
    match node {
        DecoderNode::BitUnpack { len, .. } => Ok(len),
        DecoderNode::Rle { len, .. } => Ok(len),
        DecoderNode::Delta { len, .. } => Ok(len),
        DecoderNode::Nullable { logical_len, .. } => Ok(logical_len),
        DecoderNode::Dictionary { ids, .. } => Err(ids),
        DecoderNode::For { values, .. } => Err(values),
        DecoderNode::Patch { values, .. } => Err(values),
    }
}

/// The number of rows of a node, found along at most `steps` children.
pub open spec fn len_within(nodes: Seq<DecoderNode>, node: DecoderNode, steps: nat) -> Result<
    usize,
    Error,
>
    decreases steps,
{
    match own_len(node) {
        Ok(len) => Ok(len),
        Err(child) => if child.0 >= nodes.len() {
            Err(Error::ChildAbsent(child.0))
        } else if steps == 0 {
            Err(Error::ChildCycle(child.0))
        } else {
            len_within(nodes, nodes[child.0 as int], (steps - 1) as nat)
        },
    }
}

/// The number of rows of a node of an arena.
pub open spec fn node_len(nodes: Seq<DecoderNode>, node: DecoderNode) -> Result<usize, Error> {
    len_within(nodes, node, nodes.len())
}

/// Every child of the first `n` nodes comes before its parent.
pub open spec fn children_first(nodes: Seq<DecoderNode>, n: int) -> bool {
    forall|i: int|
        0 <= i < n ==> (child_of(#[trigger] nodes[i]) matches Some(child) ==> child.0 < i)
}

/// Where children come first, `i` steps are enough for node `i`.
pub proof fn lemma_len_steps(nodes: Seq<DecoderNode>, i: int, a: nat, b: nat)
    requires
        children_first(nodes, i + 1),
        0 <= i < nodes.len(),
        i <= a,
        i <= b,
    ensures
        len_within(nodes, nodes[i], a) == len_within(nodes, nodes[i], b),
        len_within(nodes, nodes[i], a) is Ok,
    decreases i,
{
    match own_len(nodes[i]) {
        Ok(_) => {},
        Err(child) => {
            assert(child_of(nodes[i]) == Some(child));
            lemma_len_steps(nodes, child.0 as int, (a - 1) as nat, (b - 1) as nat);
        },
    }
}

/// The length of node `i` does not depend on what follows it.
pub proof fn lemma_len_prefix(nodes: Seq<DecoderNode>, more: Seq<DecoderNode>, i: int)
    requires
        children_first(nodes, i + 1),
        0 <= i < nodes.len(),
        nodes.len() <= more.len(),
        forall|k: int| 0 <= k <= i ==> more[k] == nodes[k],
    ensures
        node_len(more, more[i]) == node_len(nodes, nodes[i]),
    decreases i,
{
    match own_len(nodes[i]) {
        Ok(_) => {},
        Err(child) => {
            assert(child_of(nodes[i]) == Some(child));
            let c = child.0 as int;
            lemma_len_prefix(nodes, more, c);
            lemma_len_steps(nodes, c, nodes.len(), (nodes.len() - 1) as nat);
            assert(children_first(more, c + 1));
            lemma_len_steps(more, c, more.len(), (more.len() - 1) as nat);
        },
    }
}

/// The parameters of a node agree with its child's length.
pub open spec fn node_error(nodes: Seq<DecoderNode>, index: usize) -> Option<Error> {
    let node = nodes[index as int];
    match node {
        DecoderNode::BitUnpack { width, miniblock_rows, miniblock_bytes, .. } => if width > 64
            || miniblock_rows == 0 || miniblock_bytes == 0 {
            Some(Error::InvalidBitUnpack(index))
        } else {
            None
        },
        DecoderNode::Rle { values, runs, index_interval, .. } => if runs == 0 || index_interval == 0 {
            Some(Error::InvalidRle(index))
        } else {
            match node_len(nodes, nodes[values.0 as int]) {
                Err(e) => Some(e),
                Ok(n) => if n != runs {
                    Some(Error::InvalidRle(index))
                } else {
                    None
                },
            }
        },
        DecoderNode::Dictionary { ids, entries, .. } => if entries == 0 {
            Some(Error::InvalidDictionary(index))
        } else {
            match node_len(nodes, nodes[ids.0 as int]) {
                Err(e) => Some(e),
                Ok(n) => if n == 0 {
                    Some(Error::InvalidDictionary(index))
                } else {
                    None
                },
            }
        },
        DecoderNode::Delta { deltas, restart_interval, len, .. } => if restart_interval == 0 {
            Some(Error::InvalidDelta(index))
        } else {
            match node_len(nodes, nodes[deltas.0 as int]) {
                Err(e) => Some(e),
                Ok(n) => if n != len {
                    Some(Error::InvalidDelta(index))
                } else {
                    None
                },
            }
        },
        DecoderNode::For { values, .. } => match node_len(nodes, nodes[values.0 as int]) {
            Err(e) => Some(e),
            Ok(n) => if n == 0 {
                Some(Error::InvalidFor(index))
            } else {
                None
            },
        },
        DecoderNode::Patch { values, count, index_interval, .. } => match node_len(
            nodes,
            nodes[values.0 as int],
        ) {
            Err(e) => Some(e),
            Ok(n) => if count > n || index_interval == 0 {
                Some(Error::InvalidPatch(index))
            } else {
                None
            },
        },
        DecoderNode::Nullable { values, logical_len, nonnull_len, rank_interval, .. } =>
            if logical_len == 0 || nonnull_len > logical_len || rank_interval == 0 {
                Some(Error::InvalidNullable(index))
            } else {
                match node_len(nodes, nodes[values.0 as int]) {
                    Err(e) => Some(e),
                    Ok(n) => if n != nonnull_len {
                        Some(Error::InvalidNullable(index))
                    } else {
                        None
                    },
                }
            },
    }
}

/// The first fault among the first `n` nodes.
pub open spec fn arena_error(nodes: Seq<DecoderNode>, n: int) -> Option<Error>
    decreases n,
{
    if n <= 0 {
        None
    } else {
        match arena_error(nodes, n - 1) {
            Some(e) => Some(e),
            None => match child_of(nodes[n - 1]) {
                Some(child) => if child.0 >= n - 1 {
                    Some(Error::ChildOutOfOrder { node: (n - 1) as usize, child: child.0 })
                } else {
                    node_error(nodes, (n - 1) as usize)
                },
                None => node_error(nodes, (n - 1) as usize),
            },
        }
    }
}

pub open spec fn decoder_error(nodes: Seq<DecoderNode>, root: NodeId) -> Option<Error> {
    if root.0 >= nodes.len() {
        Some(Error::RootOutsideArena)
    } else {
        arena_error(nodes, nodes.len() as int)
    }
}

/// A sound arena has its children first and its parameters right.
pub proof fn lemma_arena(nodes: Seq<DecoderNode>, n: int)
    requires
        0 <= n <= nodes.len() <= usize::MAX,
        arena_error(nodes, n) is None,
    ensures
        children_first(nodes, n),
        forall|i: int| #![trigger nodes[i]] 0 <= i < n ==> node_error(nodes, i as usize) is None,
    decreases n,
{
    if n > 0 {
        lemma_arena(nodes, n - 1);
    }
}

proof fn lemma_arena_error(nodes: Seq<DecoderNode>, i: int, n: int)
    requires
        0 < i <= n,
        arena_error(nodes, i) is Some,
    ensures
        arena_error(nodes, n) == arena_error(nodes, i),
    decreases n,
{
    if i < n {
        lemma_arena_error(nodes, i, n - 1);
    }
}

impl DecoderNode {
    /// The number of rows, which some nodes have from a child.
    pub fn len(&self, nodes: &[DecoderNode]) -> (r: Result<usize, Error>)
        ensures
            r == node_len(nodes@, *self),
    {
        let mut node: DecoderNode = *self;
        let mut steps: usize = nodes.len();
        loop
            invariant
                node_len(nodes@, *self) == len_within(nodes@, node, steps as nat),
            decreases steps,
        {
            let child: NodeId = match node {
                DecoderNode::BitUnpack { len, .. } => {
                    return Ok(len);
                },
                DecoderNode::Rle { len, .. } => {
                    return Ok(len);
                },
                DecoderNode::Delta { len, .. } => {
                    return Ok(len);
                },
                DecoderNode::Nullable { logical_len, .. } => {
                    return Ok(logical_len);
                },
                DecoderNode::Dictionary { ids, .. } => ids,
                DecoderNode::For { values, .. } => values,
                DecoderNode::Patch { values, .. } => values,
            };
            if child.0 >= nodes.len() {
                return Err(Error::ChildAbsent(child.0));
            }
            if steps == 0 {
                return Err(Error::ChildCycle(child.0));
            }
            node = nodes[child.0];
            steps = steps - 1;
        }
    }

    /// The children: none or one.
    pub fn children(&self) -> (r: Vec<NodeId>)
        ensures
            r@ == (match child_of(*self) {
                Some(child) => seq![child],
                None => Seq::<NodeId>::empty(),
            }),
    {
        let mut r: Vec<NodeId> = Vec::new();
        match self.child() {
            Some(child) => {
                r.push(child);
            },
            None => {},
        }
        assert(r@ =~= (match child_of(*self) {
            Some(child) => seq![child],
            None => Seq::<NodeId>::empty(),
        }));
        r
    }

    pub(crate) fn child(&self) -> (r: Option<NodeId>)
        ensures
            r == child_of(*self),
    {
        match *self {
            DecoderNode::BitUnpack { .. } => None,
            DecoderNode::Rle { values, .. } => Some(values),
            DecoderNode::Dictionary { ids, .. } => Some(ids),
            DecoderNode::Delta { deltas, .. } => Some(deltas),
            DecoderNode::For { values, .. } => Some(values),
            DecoderNode::Patch { values, .. } => Some(values),
            DecoderNode::Nullable { values, .. } => Some(values),
        }
    }
}

#[derive(Clone, Debug, PartialEq, Eq)]
pub struct DecoderIr {
    nodes: Vec<DecoderNode>,
    root: NodeId,
}

impl DecoderIr {
    pub closed spec fn arena(&self) -> Seq<DecoderNode> {
        self.nodes@
    }

    pub closed spec fn top(&self) -> NodeId {
        self.root
    }

    /// The arena is sound and holds the root.
    pub open spec fn wf(&self) -> bool {
        decoder_error(self.arena(), self.top()) is None && self.arena().len() <= usize::MAX
    }

    pub fn new(nodes: Vec<DecoderNode>, root: NodeId) -> (r: Result<DecoderIr, Error>)
        ensures
            match decoder_error(nodes@, root) {
                None => r matches Ok(decoder) && decoder.arena() == nodes@ && decoder.top() == root
                    && decoder.wf(),
                Some(e) => r == Err::<DecoderIr, Error>(e),
            },
    {
        if root.0 >= nodes.len() {
            return Err(Error::RootOutsideArena);
        }
        let mut index: usize = 0;
        while index < nodes.len()
            invariant
                index <= nodes@.len(),
                root.0 < nodes@.len(),
                arena_error(nodes@, index as int) is None,
            decreases nodes@.len() - index,
        {
            match nodes[index].child() {
                Some(child) => {
                    if child.0 >= index {
                        proof {
                            lemma_arena_error(nodes@, index + 1, nodes@.len() as int);
                        }
                        return Err(Error::ChildOutOfOrder { node: index, child: child.0 });
                    }
                },
                None => {},
            }
            match validate_node(index, &nodes) {
                Ok(()) => {},
                Err(e) => {
                    proof {
                        lemma_arena_error(nodes@, index + 1, nodes@.len() as int);
                    }
                    return Err(e);
                },
            }
            index = index + 1;
        }
        Ok(DecoderIr { nodes, root })
    }

    pub fn nodes(&self) -> (r: &[DecoderNode])
        ensures
            r@ == self.arena(),
    {
        self.nodes.as_slice()
    }

    pub fn root(&self) -> (r: NodeId)
        ensures
            r == self.top(),
    {
        self.root
    }

    pub fn node(&self, id: NodeId) -> (r: Result<&DecoderNode, Error>)
        ensures
            id.0 < self.arena().len() ==> (r matches Ok(node) && *node == self.arena()[id.0 as int]),
            id.0 >= self.arena().len() ==> r == Err::<&DecoderNode, Error>(
                Error::NodeAbsent(id.0),
            ),
    {
        if id.0 < self.nodes.len() {
            Ok(&self.nodes[id.0])
        } else {
            Err(Error::NodeAbsent(id.0))
        }
    }

    /// The number of rows.
    pub fn len(&self) -> (r: Result<usize, Error>)
        requires
            self.wf(),
        ensures
            r is Ok,
            r == node_len(self.arena(), self.arena()[self.top().0 as int]),
    {
        proof {
            lemma_arena(self.nodes@, self.nodes@.len() as int);
            lemma_len_steps(
                self.nodes@,
                self.root.0 as int,
                self.nodes@.len(),
                self.nodes@.len(),
            );
        }
        match self.node(self.root) {
            Ok(node) => node.len(self.nodes.as_slice()),
            Err(e) => Err(e),
        }
    }

    pub fn is_empty(&self) -> (r: Result<bool, Error>)
        requires
            self.wf(),
        ensures
            r is Ok,
            r->Ok_0 == (node_len(self.arena(), self.arena()[self.top().0 as int]) == Ok::<usize, Error>(0)),
    {
        match self.len() {
            Ok(len) => Ok(len == 0),
            Err(e) => Err(e),
        }
    }

    /// The same nodes and root.
    pub(crate) fn copy(&self) -> (r: DecoderIr)
        ensures
            r.arena() == self.arena(),
            r.top() == self.top(),
    {
        let mut nodes: Vec<DecoderNode> = Vec::new();
        let mut i: usize = 0;
        while i < self.nodes.len()
            invariant
                i <= self.nodes@.len(),
                nodes@ == self.nodes@.take(i as int),
            decreases self.nodes@.len() - i,
        {
            nodes.push(self.nodes[i]);
            i = i + 1;
            assert(nodes@ =~= self.nodes@.take(i as int));
        }
        assert(nodes@ =~= self.nodes@);
        DecoderIr { nodes, root: self.root }
    }
}

fn validate_node(index: usize, nodes: &Vec<DecoderNode>) -> (r: Result<(), Error>)
    requires
        index < nodes@.len(),
        child_of(nodes@[index as int]) matches Some(child) ==> child.0 < index,
    ensures
        match node_error(nodes@, index) {
            None => r == Ok::<(), Error>(()),
            Some(e) => r == Err::<(), Error>(e),
        },
{
    match nodes[index] {
        DecoderNode::BitUnpack { width, miniblock_rows, miniblock_bytes, .. } => {
            if width > 64 || miniblock_rows == 0 || miniblock_bytes == 0 {
                return Err(Error::InvalidBitUnpack(index));
            }
        },
        DecoderNode::Rle { values, runs, index_interval, .. } => {
            if runs == 0 || index_interval == 0 {
                return Err(Error::InvalidRle(index));
            }
            let len: usize = match nodes[values.0].len(nodes.as_slice()) {
                Ok(len) => len,
                Err(e) => {
                    return Err(e);
                },
            };
            if len != runs {
                return Err(Error::InvalidRle(index));
            }
        },
        DecoderNode::Dictionary { ids, entries, .. } => {
            if entries == 0 {
                return Err(Error::InvalidDictionary(index));
            }
            let len: usize = match nodes[ids.0].len(nodes.as_slice()) {
                Ok(len) => len,
                Err(e) => {
                    return Err(e);
                },
            };
            if len == 0 {
                return Err(Error::InvalidDictionary(index));
            }
        },
        DecoderNode::Delta { deltas, restart_interval, len, .. } => {
            if restart_interval == 0 {
                return Err(Error::InvalidDelta(index));
            }
            let codes: usize = match nodes[deltas.0].len(nodes.as_slice()) {
                Ok(len) => len,
                Err(e) => {
                    return Err(e);
                },
            };
            if codes != len {
                return Err(Error::InvalidDelta(index));
            }
        },
        DecoderNode::For { values, .. } => {
            let len: usize = match nodes[values.0].len(nodes.as_slice()) {
                Ok(len) => len,
                Err(e) => {
                    return Err(e);
                },
            };
            if len == 0 {
                return Err(Error::InvalidFor(index));
            }
        },
        DecoderNode::Patch { values, count, index_interval, .. } => {
            let len: usize = match nodes[values.0].len(nodes.as_slice()) {
                Ok(len) => len,
                Err(e) => {
                    return Err(e);
                },
            };
            if count > len || index_interval == 0 {
                return Err(Error::InvalidPatch(index));
            }
        },
        DecoderNode::Nullable { values, logical_len, nonnull_len, rank_interval, .. } => {
            if logical_len == 0 || nonnull_len > logical_len || rank_interval == 0 {
                return Err(Error::InvalidNullable(index));
            }
            let len: usize = match nodes[values.0].len(nodes.as_slice()) {
                Ok(len) => len,
                Err(e) => {
                    return Err(e);
                },
            };
            if len != nonnull_len {
                return Err(Error::InvalidNullable(index));
            }
        },
    }
    Ok(())
}

} // verus!
