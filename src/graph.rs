use vstd::prelude::*;

verus! {

/// The operation of a node, with the arena indices of its operands in the
/// order in which they were given.
///
/// The number a leaf wraps, and the exponent of a power, are kept by the
/// numeric layer beside the arena, under the node's index.
#[derive(Clone, Copy, Debug, PartialEq, Eq, Structural)]
pub enum Op {
    Leaf,
    Add(usize, usize),
    Multiply(usize, usize),
    Power(usize),
    Relu(usize),
}

/// The operands of an operation, in order.
pub open spec fn children_of(op: Op) -> Seq<usize> {
    match op {
        Op::Leaf => seq![],
        Op::Add(a, b) => seq![a, b],
        Op::Multiply(a, b) => seq![a, b],
        Op::Power(a) => seq![a],
        Op::Relu(a) => seq![a],
    }
}

/// Every operand of the node at `i` was built before it.
pub open spec fn operands_precede(ops: Seq<Op>, i: int) -> bool {
    forall|j: int| 0 <= j < children_of(ops[i]).len() ==> children_of(ops[i])[j] < i
}

/// A sequence of operations forms an arena: each node refers only to
/// nodes that come before it.
pub open spec fn is_arena(ops: Seq<Op>) -> bool {
    forall|i: int| 0 <= i < ops.len() ==> #[trigger] operands_precede(ops, i)
}

/// An arena of computation nodes; a node reference is an index into it.
pub struct Graph {
    nodes: Vec<Op>,
}

impl View for Graph {
    type V = Seq<Op>;

    closed spec fn view(&self) -> Seq<Op> {
        self.nodes@
    }
}

impl Graph {
    pub open spec fn wf(&self) -> bool {
        is_arena(self@)
    }

    /// An empty arena.
    pub fn new() -> (r: Graph)
        ensures
            r.wf(),
            r@ == Seq::<Op>::empty(),
    {
        Graph { nodes: Vec::new() }
    }

    /// The number of nodes built so far.
    pub fn len(&self) -> (r: usize)
        ensures
            r == self@.len(),
    {
        self.nodes.len()
    }

    /// The operation of node `i`.
    pub fn op(&self, i: usize) -> (r: Op)
        requires
            i < self@.len(),
        ensures
            r == self@[i as int],
    {
        self.nodes[i]
    }

    /// The operands of node `i`, in order.
    pub fn children(&self, i: usize) -> (r: Vec<usize>)
        requires
            i < self@.len(),
        ensures
            r@ == children_of(self@[i as int]),
    {
        let r = match self.nodes[i] {
            Op::Leaf => Vec::new(),
            Op::Add(a, b) => vec![a, b],
            Op::Multiply(a, b) => vec![a, b],
            Op::Power(a) => vec![a],
            Op::Relu(a) => vec![a],
        };
        assert(r@ =~= children_of(self@[i as int]));
        r
    }

    fn push(&mut self, op: Op) -> (r: usize)
        requires
            old(self).wf(),
            old(self)@.len() < usize::MAX,
            forall|j: int|
                0 <= j < children_of(op).len() ==> children_of(op)[j] < old(self)@.len(),
        ensures
            final(self).wf(),
            final(self)@ == old(self)@.push(op),
            r == old(self)@.len(),
    {
        let r = self.nodes.len();
        self.nodes.push(op);
        assert forall|i: int| 0 <= i < self@.len() implies #[trigger] operands_precede(self@, i) by {
            if i < r {
                assert(operands_precede(old(self)@, i));
            }
        }
        r
    }

    /// Adds a leaf: a node with no operands.
    pub fn leaf(&mut self) -> (r: usize)
        requires
            old(self).wf(),
            old(self)@.len() < usize::MAX,
        ensures
            final(self).wf(),
            final(self)@ == old(self)@.push(Op::Leaf),
            r == old(self)@.len(),
    {
        self.push(Op::Leaf)
    }

    /// Adds the node `a + b`.
    pub fn add(&mut self, a: usize, b: usize) -> (r: usize)
        requires
            old(self).wf(),
            old(self)@.len() < usize::MAX,
            a < old(self)@.len(),
            b < old(self)@.len(),
        ensures
            final(self).wf(),
            final(self)@ == old(self)@.push(Op::Add(a, b)),
            r == old(self)@.len(),
    {
        self.push(Op::Add(a, b))
    }

    /// Adds the node `a * b`.
    pub fn multiply(&mut self, a: usize, b: usize) -> (r: usize)
        requires
            old(self).wf(),
            old(self)@.len() < usize::MAX,
            a < old(self)@.len(),
            b < old(self)@.len(),
        ensures
            final(self).wf(),
            final(self)@ == old(self)@.push(Op::Multiply(a, b)),
            r == old(self)@.len(),
    {
        self.push(Op::Multiply(a, b))
    }

    /// Adds the node `a ^ k`; the constant exponent `k` is kept beside the arena.
    pub fn power(&mut self, a: usize) -> (r: usize)
        requires
            old(self).wf(),
            old(self)@.len() < usize::MAX,
            a < old(self)@.len(),
        ensures
            final(self).wf(),
            final(self)@ == old(self)@.push(Op::Power(a)),
            r == old(self)@.len(),
    {
        self.push(Op::Power(a))
    }

    /// Adds the node `max(0, a)`.
    pub fn relu(&mut self, a: usize) -> (r: usize)
        requires
            old(self).wf(),
            old(self)@.len() < usize::MAX,
            a < old(self)@.len(),
        ensures
            final(self).wf(),
            final(self)@ == old(self)@.push(Op::Relu(a)),
            r == old(self)@.len(),
    {
        self.push(Op::Relu(a))
    }
}

} // verus!
