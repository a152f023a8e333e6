//! The node arena: handles, nodes, operation tags, backward rules, and the
//! operations that grow a computation graph.

use vstd::prelude::*;

verus! {

/// Encoding of the zero scalar.  Scalar payloads are opaque 64-bit encodings
/// in the standard binary64 interchange format; the engine never computes
/// with them, but its contracts pin the three distinguished values that the
/// rules mention.
pub const SCALAR_ZERO: u64 = 0;

/// Encoding of the unit scalar, the seed of every backward pass.
pub const SCALAR_ONE: u64 = 0x3FF0_0000_0000_0000;

/// Encoding of the negated unit scalar, the constant factor behind negation
/// and the exponent behind division.
pub const SCALAR_NEG_ONE: u64 = 0xBFF0_0000_0000_0000;

/// Tag recording which operation produced a node.  Informational only: the
/// backward pass dispatches on the stored rule, never on this tag.
#[derive(Clone, Copy, Debug, PartialEq, Eq, Structural)]
pub enum Operation {
    Init,
    Add,
    Sub,
    Mul,
    Neg,
    Div,
    Pow,
    ReLU,
}

/// A handle to one node of a graph.  Handles are freely copyable; two handles
/// are equal exactly when they name the same node of the arena.
#[derive(Clone, Copy, Debug, PartialEq, Eq, Hash, Structural)]
pub struct Parameter {
    pub id: usize,
}

/// The set of nodes a node depends on: none for a leaf, one for a unary
/// operation, two for a binary operation.  A binary operation applied to the
/// same handle twice collapses to a single entry, as a set would.
#[derive(Clone, Copy, Debug, PartialEq, Eq, Structural)]
pub enum Parents {
    Leaf,
    One(Parameter),
    Two(Parameter, Parameter),
}

/// The deferred backward action of a non-leaf node: which parents receive a
/// gradient contribution, and with which locally captured operands.
///
/// The interpretation of each variant, when the backward pass of an output
/// node `out` runs, is:
/// - `AddBack`: `lhs` and `rhs` each accumulate the gradient of `out`.
/// - `MulBack`: `lhs` accumulates `rhs_data` times the gradient of `out`,
///   and `rhs` accumulates `lhs_data` times it; the factors are the operand
///   payloads captured when the node was built.
/// - `PowBack`: `base` accumulates `exponent` times the current payload of
///   `base` raised to one less than `exponent`, times the gradient of `out`.
/// - `ReluBack`: `arg` accumulates the gradient of `out` if the payload of
///   `out` is strictly positive, and the zero scalar otherwise.
#[derive(Clone, Copy, Debug, PartialEq, Eq, Structural)]
pub enum Rule {
    AddBack { lhs: Parameter, rhs: Parameter },
    MulBack { lhs: Parameter, rhs: Parameter, lhs_data: u64, rhs_data: u64 },
    PowBack { base: Parameter, exponent: u64 },
    ReluBack { arg: Parameter },
}

/// One differentiable scalar node: its payload, its accumulated gradient,
/// the tag of the operation that produced it, its parents, and its one-shot
/// backward rule (present on non-leaf nodes until the backward pass drains
/// it).
#[derive(Clone, Copy, Debug)]
pub struct Node {
    pub data: u64,
    pub grad: u64,
    pub op: Operation,
    pub parents: Parents,
    pub rule: Option<Rule>,
}

/// The parents of a node, in construction order.
pub open spec fn parents_seq(ps: Parents) -> Seq<Parameter> {
    match ps {
        Parents::Leaf => seq![],
        Parents::One(a) => seq![a],
        Parents::Two(a, b) => seq![a, b],
    }
}

/// The parents of a node, as a set of handles.
pub open spec fn parents_set(ps: Parents) -> Set<Parameter> {
    match ps {
        Parents::Leaf => set![],
        Parents::One(a) => set![a],
        Parents::Two(a, b) => set![a, b],
    }
}

/// The handles a rule pushes gradient onto.
pub open spec fn rule_targets(r: Rule) -> Set<Parameter> {
    match r {
        Rule::AddBack { lhs, rhs } => set![lhs, rhs],
        Rule::MulBack { lhs, rhs, .. } => set![lhs, rhs],
        Rule::PowBack { base, .. } => set![base],
        Rule::ReluBack { arg } => set![arg],
    }
}

/// The parent set of a binary operation: the two operands, collapsed to one
/// entry when they are the same handle.
pub open spec fn pair_parents(lhs: Parameter, rhs: Parameter) -> Parents {
    if lhs == rhs {
        Parents::One(lhs)
    } else {
        Parents::Two(lhs, rhs)
    }
}

/// Well-formedness of one node at arena index `i`: parents strictly precede
/// the node in the arena (so a graph is acyclic by construction), a two-entry
/// parent set holds distinct handles, and a rule, when present, targets
/// exactly the parents.
pub open spec fn node_wf(n: Node, i: int) -> bool {
    &&& forall|k: int|
        0 <= k < parents_seq(n.parents).len() ==> (#[trigger] parents_seq(n.parents)[k]).id < i
    &&& (n.parents matches Parents::Two(a, b) ==> a != b)
    &&& (n.rule matches Some(r) ==> rule_targets(r) == parents_set(n.parents))
}

/// `n` with its operation tag replaced.
pub open spec fn with_op(n: Node, op: Operation) -> Node {
    Node { op, ..n }
}

/// `n` with its gradient payload replaced.
pub open spec fn with_grad(n: Node, grad: u64) -> Node {
    Node { grad, ..n }
}

/// `n` with its data payload replaced.
pub open spec fn with_data(n: Node, data: u64) -> Node {
    Node { data, ..n }
}

/// `n` with its backward rule drained.
pub open spec fn without_rule(n: Node) -> Node {
    Node { rule: None, ..n }
}

/// A fresh node, as every graph operation appends it: gradient zeroed, rule
/// installed.
pub open spec fn fresh_node(data: u64, op: Operation, parents: Parents, rule: Option<Rule>) -> Node {
    Node { data, grad: SCALAR_ZERO, op, parents, rule }
}

/// `g` with the gradient of node `i` reset to the zero scalar.
pub open spec fn grad_cleared(g: Seq<Node>, i: int) -> Seq<Node> {
    g.update(i, with_grad(g[i], SCALAR_ZERO))
}

/// Resetting a gradient is idempotent: a second reset changes nothing, and
/// the outcome never depends on what the gradient had accumulated before.
pub proof fn lemma_zero_grad_idempotent(g: Seq<Node>, i: int)
    requires
        0 <= i < g.len(),
    ensures
        grad_cleared(grad_cleared(g, i), i) == grad_cleared(g, i),
{
    assert(grad_cleared(grad_cleared(g, i), i) =~= grad_cleared(g, i));
}

/// A computation graph: an arena of nodes, grown append-only by the operator
/// methods, so a node's parents always lie strictly below it.
pub struct Graph {
    nodes: Vec<Node>,
}

impl View for Graph {
    type V = Seq<Node>;

    closed spec fn view(&self) -> Seq<Node> {
        self.nodes@
    }
}

impl Graph {
    /// Every node of the arena is well formed.
    pub open spec fn wf(self) -> bool {
        forall|i: int| 0 <= i < self@.len() ==> node_wf(#[trigger] self@[i], i)
    }

    /// An empty graph.
    pub fn new() -> (g: Graph)
        ensures
            g@ == Seq::<Node>::empty(),
            g.wf(),
    {
        Graph { nodes: Vec::new() }
    }

    /// The number of nodes in the arena.
    pub fn node_count(&self) -> (n: usize)
        ensures
            n == self@.len(),
    {
        self.nodes.len()
    }

    /// A copy of the node a handle names.
    pub fn node(&self, p: Parameter) -> (n: Node)
        requires
            p.id < self@.len(),
        ensures
            n == self@[p.id as int],
    {
        self.nodes[p.id]
    }

    /// The scalar payload of a node.
    pub fn data(&self, p: Parameter) -> (d: u64)
        requires
            p.id < self@.len(),
        ensures
            d == self@[p.id as int].data,
    {
        self.nodes[p.id].data
    }

    /// The accumulated gradient payload of a node.
    pub fn grad(&self, p: Parameter) -> (d: u64)
        requires
            p.id < self@.len(),
        ensures
            d == self@[p.id as int].grad,
    {
        self.nodes[p.id].grad
    }

    /// Overwrite one node of the arena.
    fn put(&mut self, i: usize, n: Node)
        requires
            i < old(self)@.len(),
        ensures
            final(self)@ == old(self)@.update(i as int, n),
    {
        self.nodes[i] = n;
    }

    /// Drain the backward rule of one node, leaving everything else as it
    /// was.  The backward pass drains each rule the one time it runs it.
    pub(crate) fn take_rule(&mut self, i: usize)
        requires
            old(self).wf(),
            i < old(self)@.len(),
        ensures
            final(self).wf(),
            final(self)@ == old(self)@.update(i as int, without_rule(old(self)@[i as int])),
    {
        let mut n = self.nodes[i];
        n.rule = None;
        self.put(i, n);
        proof {
            assert forall|i: int| 0 <= i < self@.len() implies node_wf(#[trigger] self@[i], i) by {
                assert(node_wf(old(self)@[i], i));
            }
        }
    }

    /// Retag one node of the arena, as negation, subtraction and division do
    /// to the composite node they return.
    fn set_op(&mut self, i: usize, op: Operation)
        requires
            i < old(self)@.len(),
        ensures
            final(self)@ == old(self)@.update(i as int, with_op(old(self)@[i as int], op)),
    {
        let mut n = self.nodes[i];
        n.op = op;
        self.put(i, n);
    }

    /// Append a node, returning its handle.
    fn push_node(&mut self, n: Node) -> (p: Parameter)
        ensures
            final(self)@ == old(self)@.push(n),
            p.id == old(self)@.len(),
    {
        let id = self.nodes.len();
        self.nodes.push(n);
        Parameter { id }
    }

    /// Create a fresh leaf node holding the given scalar payload: zero
    /// gradient, no parents, no backward rule, and a fresh identity.
    pub fn from_scalar(&mut self, data: u64) -> (p: Parameter)
        requires
            old(self).wf(),
        ensures
            final(self).wf(),
            p.id == old(self)@.len(),
            final(self)@ == old(self)@.push(fresh_node(data, Operation::Init, Parents::Leaf, None)),
    {
        self.push_node(Node {
            data,
            grad: SCALAR_ZERO,
            op: Operation::Init,
            parents: Parents::Leaf,
            rule: None,
        })
    }

    /// Reset the gradient of a node to the zero scalar, whatever it held.
    pub fn zero_grad(&mut self, p: Parameter)
        requires
            old(self).wf(),
            p.id < old(self)@.len(),
        ensures
            final(self).wf(),
            final(self)@ == grad_cleared(old(self)@, p.id as int),
    {
        let mut n = self.nodes[p.id];
        n.grad = SCALAR_ZERO;
        self.put(p.id, n);
        proof {
            assert forall|i: int| 0 <= i < self@.len() implies node_wf(#[trigger] self@[i], i) by {
                assert(node_wf(old(self)@[i], i));
            }
        }
    }

    /// Overwrite the gradient payload of a node.  This is the write channel
    /// of the driver that interprets a backward schedule: the engine decides
    /// which node accumulates what, the driver performs the scalar arithmetic
    /// and stores each result through this method.
    pub fn set_grad(&mut self, p: Parameter, grad: u64)
        requires
            old(self).wf(),
            p.id < old(self)@.len(),
        ensures
            final(self).wf(),
            final(self)@ == old(self)@.update(p.id as int, with_grad(old(self)@[p.id as int], grad)),
    {
        let mut n = self.nodes[p.id];
        n.grad = grad;
        self.put(p.id, n);
        proof {
            assert forall|i: int| 0 <= i < self@.len() implies node_wf(#[trigger] self@[i], i) by {
                assert(node_wf(old(self)@[i], i));
            }
        }
    }

    /// Add two nodes.  The caller hands over the payload of the sum of the
    /// two operand payloads; the engine wires the node: both operands become
    /// parents (collapsed when they are the same handle), and the backward
    /// rule forwards the output gradient to each operand once.
    pub fn add(&mut self, lhs: Parameter, rhs: Parameter, data: u64) -> (p: Parameter)
        requires
            old(self).wf(),
            lhs.id < old(self)@.len(),
            rhs.id < old(self)@.len(),
        ensures
            final(self).wf(),
            p.id == old(self)@.len(),
            final(self)@ == old(self)@.push(
                fresh_node(
                    data,
                    Operation::Add,
                    pair_parents(lhs, rhs),
                    Some(Rule::AddBack { lhs, rhs }),
                ),
            ),
    {
        let parents = if lhs.id == rhs.id {
            Parents::One(lhs)
        } else {
            Parents::Two(lhs, rhs)
        };
        let p = self.push_node(Node {
            data,
            grad: SCALAR_ZERO,
            op: Operation::Add,
            parents,
            rule: Some(Rule::AddBack { lhs, rhs }),
        });
        proof {
            let i = old(self)@.len() as int;
            assert(self@[i].rule matches Some(r) ==> rule_targets(r) =~= parents_set(
                self@[i].parents,
            ));
            assert(node_wf(self@[i], i));
            self.lemma_wf_after_push(old(self)@);
        }
        p
    }

    /// Multiply two nodes.  The caller hands over the payload of the product
    /// of the two operand payloads; the backward rule captures both operand
    /// payloads, so that each operand later accumulates the other's payload
    /// times the output gradient.
    pub fn mul(&mut self, lhs: Parameter, rhs: Parameter, data: u64) -> (p: Parameter)
        requires
            old(self).wf(),
            lhs.id < old(self)@.len(),
            rhs.id < old(self)@.len(),
        ensures
            final(self).wf(),
            p.id == old(self)@.len(),
            final(self)@ == old(self)@.push(
                fresh_node(
                    data,
                    Operation::Mul,
                    pair_parents(lhs, rhs),
                    Some(
                        Rule::MulBack {
                            lhs,
                            rhs,
                            lhs_data: old(self)@[lhs.id as int].data,
                            rhs_data: old(self)@[rhs.id as int].data,
                        },
                    ),
                ),
            ),
    {
        let lhs_data = self.nodes[lhs.id].data;
        let rhs_data = self.nodes[rhs.id].data;
        let parents = if lhs.id == rhs.id {
            Parents::One(lhs)
        } else {
            Parents::Two(lhs, rhs)
        };
        let p = self.push_node(Node {
            data,
            grad: SCALAR_ZERO,
            op: Operation::Mul,
            parents,
            rule: Some(Rule::MulBack { lhs, rhs, lhs_data, rhs_data }),
        });
        proof {
            let i = old(self)@.len() as int;
            assert(self@[i].rule matches Some(r) ==> rule_targets(r) =~= parents_set(
                self@[i].parents,
            ));
            assert(node_wf(self@[i], i));
            self.lemma_wf_after_push(old(self)@);
        }
        p
    }

    /// Raise a node to a fixed scalar exponent (the exponent is a plain
    /// scalar, not a differentiable node).  The caller hands over the payload
    /// of the operand payload raised to the exponent.
    pub fn pow(&mut self, base: Parameter, exponent: u64, data: u64) -> (p: Parameter)
        requires
            old(self).wf(),
            base.id < old(self)@.len(),
        ensures
            final(self).wf(),
            p.id == old(self)@.len(),
            final(self)@ == old(self)@.push(
                fresh_node(
                    data,
                    Operation::Pow,
                    Parents::One(base),
                    Some(Rule::PowBack { base, exponent }),
                ),
            ),
    {
        let p = self.push_node(Node {
            data,
            grad: SCALAR_ZERO,
            op: Operation::Pow,
            parents: Parents::One(base),
            rule: Some(Rule::PowBack { base, exponent }),
        });
        proof {
            let i = old(self)@.len() as int;
            assert(self@[i].rule matches Some(r) ==> rule_targets(r) =~= parents_set(
                self@[i].parents,
            ));
            assert(node_wf(self@[i], i));
            self.lemma_wf_after_push(old(self)@);
        }
        p
    }

    /// Pass a node through the rectifier.  The caller reports whether the
    /// operand payload is strictly negative; the engine selects the payload
    /// of the new node itself: the zero scalar for a negative operand, the
    /// operand payload unchanged otherwise.
    pub fn relu(&mut self, arg: Parameter, negative: bool) -> (p: Parameter)
        requires
            old(self).wf(),
            arg.id < old(self)@.len(),
        ensures
            final(self).wf(),
            p.id == old(self)@.len(),
            final(self)@ == old(self)@.push(
                fresh_node(
                    if negative {
                        SCALAR_ZERO
                    } else {
                        old(self)@[arg.id as int].data
                    },
                    Operation::ReLU,
                    Parents::One(arg),
                    Some(Rule::ReluBack { arg }),
                ),
            ),
    {
        let data = if negative {
            SCALAR_ZERO
        } else {
            self.nodes[arg.id].data
        };
        let p = self.push_node(Node {
            data,
            grad: SCALAR_ZERO,
            op: Operation::ReLU,
            parents: Parents::One(arg),
            rule: Some(Rule::ReluBack { arg }),
        });
        proof {
            let i = old(self)@.len() as int;
            assert(self@[i].rule matches Some(r) ==> rule_targets(r) =~= parents_set(
                self@[i].parents,
            ));
            assert(node_wf(self@[i], i));
            self.lemma_wf_after_push(old(self)@);
        }
        p
    }

    /// Negate a node: a multiplication by a fresh constant leaf holding the
    /// negated unit scalar, retagged as a negation.  The caller hands over
    /// the payload of the negated operand payload.  Two nodes are appended:
    /// the constant leaf, then the product.
    pub fn neg(&mut self, arg: Parameter, data: u64) -> (p: Parameter)
        requires
            old(self).wf(),
            arg.id < old(self)@.len(),
        ensures
            final(self).wf(),
            p.id == old(self)@.len() + 1,
            final(self)@ == old(self)@.push(
                fresh_node(SCALAR_NEG_ONE, Operation::Init, Parents::Leaf, None),
            ).push(
                fresh_node(
                    data,
                    Operation::Neg,
                    Parents::Two(arg, (Parameter { id: old(self)@.len() as usize })),
                    Some(
                        Rule::MulBack {
                            lhs: arg,
                            rhs: (Parameter { id: old(self)@.len() as usize }),
                            lhs_data: old(self)@[arg.id as int].data,
                            rhs_data: SCALAR_NEG_ONE,
                        },
                    ),
                ),
            ),
    {
        let unit = self.from_scalar(SCALAR_NEG_ONE);
        let p = self.mul(arg, unit, data);
        self.set_op(p.id, Operation::Neg);
        proof {
            assert(final(self)@ =~= old(self)@.push(
                fresh_node(SCALAR_NEG_ONE, Operation::Init, Parents::Leaf, None),
            ).push(
                fresh_node(
                    data,
                    Operation::Neg,
                    Parents::Two(arg, unit),
                    Some(
                        Rule::MulBack {
                            lhs: arg,
                            rhs: unit,
                            lhs_data: old(self)@[arg.id as int].data,
                            rhs_data: SCALAR_NEG_ONE,
                        },
                    ),
                ),
            ));
            assert forall|i: int| 0 <= i < final(self)@.len() implies node_wf(
                #[trigger] final(self)@[i],
                i,
            ) by {}
        }
        p
    }

    /// Subtract `rhs` from `lhs`: the negation of `rhs` followed by an
    /// addition, retagged as a subtraction.  The caller hands over the
    /// payload of the negated `rhs` payload and the payload of the final sum.
    /// Three nodes are appended: the constant leaf and the product of the
    /// negation, then the sum.
    pub fn sub(&mut self, lhs: Parameter, rhs: Parameter, neg_data: u64, data: u64) -> (p:
        Parameter)
        requires
            old(self).wf(),
            lhs.id < old(self)@.len(),
            rhs.id < old(self)@.len(),
        ensures
            final(self).wf(),
            p.id == old(self)@.len() + 2,
            final(self)@ == old(self)@.push(
                fresh_node(SCALAR_NEG_ONE, Operation::Init, Parents::Leaf, None),
            ).push(
                fresh_node(
                    neg_data,
                    Operation::Neg,
                    Parents::Two(rhs, (Parameter { id: old(self)@.len() as usize })),
                    Some(
                        Rule::MulBack {
                            lhs: rhs,
                            rhs: (Parameter { id: old(self)@.len() as usize }),
                            lhs_data: old(self)@[rhs.id as int].data,
                            rhs_data: SCALAR_NEG_ONE,
                        },
                    ),
                ),
            ).push(
                fresh_node(
                    data,
                    Operation::Sub,
                    Parents::Two(lhs, (Parameter { id: (old(self)@.len() + 1) as usize })),
                    Some(
                        Rule::AddBack {
                            lhs,
                            rhs: (Parameter { id: (old(self)@.len() + 1) as usize }),
                        },
                    ),
                ),
            ),
    {
        let n = self.neg(rhs, neg_data);
        let p = self.add(lhs, n, data);
        self.set_op(p.id, Operation::Sub);
        proof {
            assert(final(self)@ =~= old(self)@.push(
                fresh_node(SCALAR_NEG_ONE, Operation::Init, Parents::Leaf, None),
            ).push(
                fresh_node(
                    neg_data,
                    Operation::Neg,
                    Parents::Two(rhs, (Parameter { id: old(self)@.len() as usize })),
                    Some(
                        Rule::MulBack {
                            lhs: rhs,
                            rhs: (Parameter { id: old(self)@.len() as usize }),
                            lhs_data: old(self)@[rhs.id as int].data,
                            rhs_data: SCALAR_NEG_ONE,
                        },
                    ),
                ),
            ).push(
                fresh_node(
                    data,
                    Operation::Sub,
                    Parents::Two(lhs, n),
                    Some(Rule::AddBack { lhs, rhs: n }),
                ),
            ));
            assert forall|i: int| 0 <= i < final(self)@.len() implies node_wf(
                #[trigger] final(self)@[i],
                i,
            ) by {}
        }
        p
    }

    /// Divide `lhs` by `rhs`: `rhs` raised to the negated unit exponent,
    /// multiplied into `lhs`, retagged as a division.  The caller hands over
    /// the payload of the reciprocal of the `rhs` payload and the payload of
    /// the final product.  Two nodes are appended: the reciprocal, then the
    /// product.
    pub fn div(&mut self, lhs: Parameter, rhs: Parameter, recip_data: u64, data: u64) -> (p:
        Parameter)
        requires
            old(self).wf(),
            lhs.id < old(self)@.len(),
            rhs.id < old(self)@.len(),
        ensures
            final(self).wf(),
            p.id == old(self)@.len() + 1,
            final(self)@ == old(self)@.push(
                fresh_node(
                    recip_data,
                    Operation::Pow,
                    Parents::One(rhs),
                    Some(Rule::PowBack { base: rhs, exponent: SCALAR_NEG_ONE }),
                ),
            ).push(
                fresh_node(
                    data,
                    Operation::Div,
                    Parents::Two(lhs, (Parameter { id: old(self)@.len() as usize })),
                    Some(
                        Rule::MulBack {
                            lhs,
                            rhs: (Parameter { id: old(self)@.len() as usize }),
                            lhs_data: old(self)@[lhs.id as int].data,
                            rhs_data: recip_data,
                        },
                    ),
                ),
            ),
    {
        let r = self.pow(rhs, SCALAR_NEG_ONE, recip_data);
        let p = self.mul(lhs, r, data);
        self.set_op(p.id, Operation::Div);
        proof {
            assert(final(self)@ =~= old(self)@.push(
                fresh_node(
                    recip_data,
                    Operation::Pow,
                    Parents::One(rhs),
                    Some(Rule::PowBack { base: rhs, exponent: SCALAR_NEG_ONE }),
                ),
            ).push(
                fresh_node(
                    data,
                    Operation::Div,
                    Parents::Two(lhs, r),
                    Some(
                        Rule::MulBack {
                            lhs,
                            rhs: r,
                            lhs_data: old(self)@[lhs.id as int].data,
                            rhs_data: recip_data,
                        },
                    ),
                ),
            ));
            assert forall|i: int| 0 <= i < final(self)@.len() implies node_wf(
                #[trigger] final(self)@[i],
                i,
            ) by {}
        }
        p
    }

    /// Appending a well-formed node keeps the whole arena well formed.
    proof fn lemma_wf_after_push(&self, prior: Seq<Node>)
        requires
            self@.len() == prior.len() + 1,
            self@ == prior.push(self@[prior.len() as int]),
            forall|i: int| 0 <= i < prior.len() ==> node_wf(#[trigger] prior[i], i),
            node_wf(self@[prior.len() as int], prior.len() as int),
        ensures
            self.wf(),
    {
        assert forall|i: int| 0 <= i < self@.len() implies node_wf(#[trigger] self@[i], i) by {
            if i < prior.len() {
                assert(self@[i] == prior[i]);
            }
        }
    }

    /// Apply an optimizer step to a node: overwrite its payload with the
    /// stepped payload the caller computed from the learning rate and the
    /// accumulated gradient.  The only mutation of a payload after
    /// construction.
    pub fn lr_step(&mut self, p: Parameter, stepped: u64)
        requires
            old(self).wf(),
            p.id < old(self)@.len(),
        ensures
            final(self).wf(),
            final(self)@ == old(self)@.update(p.id as int, with_data(old(self)@[p.id as int], stepped)),
    {
        let mut n = self.nodes[p.id];
        n.data = stepped;
        self.put(p.id, n);
        proof {
            assert forall|i: int| 0 <= i < self@.len() implies node_wf(#[trigger] self@[i], i) by {
                assert(node_wf(old(self)@[i], i));
            }
        }
    }
}

} // verus!
