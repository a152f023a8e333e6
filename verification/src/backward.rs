//! The backward pass: seed the terminal gradient, walk the topological order
//! in reverse, and drain each node's one-shot rule into a schedule of
//! gradient accumulations.
//!
//! The engine cannot perform the scalar arithmetic itself (payloads are
//! opaque to it), so the pass returns the exact schedule it decided on: the
//! driver interprets each step, reading and writing payloads through the
//! graph's accessors.  Everything else — which contributions happen, from
//! which node onto which parent, with which captured operands, in which
//! order, and that every rule runs exactly once — is decided and proved here.

use vstd::prelude::*;

use crate::graph::{
    node_wf, parents_seq, parents_set, rule_targets, Graph, Node, Parameter, Parents, Rule,
    SCALAR_ONE,
};
use crate::topo::{appears_before, distinct, is_topo_order, parents_first, reaches};

verus! {

/// One scheduled gradient accumulation, `grad[target] += c`, where the
/// contribution `c` is computed by the driver from the payloads named here:
/// - `AddAcc`: `c` is the gradient of `out`.
/// - `MulAcc`: `c` is `factor` times the gradient of `out`.
/// - `PowAcc`: `c` is `exponent` times the payload of `target` raised to one
///   less than `exponent`, times the gradient of `out`.
/// - `ReluAcc`: `c` is the gradient of `out` if the payload of `out` is
///   strictly positive, and the zero scalar otherwise.
#[derive(Clone, Copy, Debug, PartialEq, Eq, Structural)]
pub enum GradStep {
    AddAcc { target: Parameter, out: Parameter },
    MulAcc { target: Parameter, factor: u64, out: Parameter },
    PowAcc { target: Parameter, exponent: u64, out: Parameter },
    ReluAcc { target: Parameter, out: Parameter },
}

/// The node whose backward rule emitted a step.
pub open spec fn step_out(s: GradStep) -> Parameter {
    match s {
        GradStep::AddAcc { out, .. } => out,
        GradStep::MulAcc { out, .. } => out,
        GradStep::PowAcc { out, .. } => out,
        GradStep::ReluAcc { out, .. } => out,
    }
}

/// The node a step accumulates into.
pub open spec fn step_target(s: GradStep) -> Parameter {
    match s {
        GradStep::AddAcc { target, .. } => target,
        GradStep::MulAcc { target, .. } => target,
        GradStep::PowAcc { target, .. } => target,
        GradStep::ReluAcc { target, .. } => target,
    }
}

/// The steps a rule emits when it runs for the output node `out`: one
/// contribution per parent slot, so an operand used twice receives two.
pub open spec fn rule_steps(r: Rule, out: Parameter) -> Seq<GradStep> {
    match r {
        Rule::AddBack { lhs, rhs } => seq![
            GradStep::AddAcc { target: lhs, out },
            GradStep::AddAcc { target: rhs, out },
        ],
        Rule::MulBack { lhs, rhs, lhs_data, rhs_data } => seq![
            GradStep::MulAcc { target: lhs, factor: rhs_data, out },
            GradStep::MulAcc { target: rhs, factor: lhs_data, out },
        ],
        Rule::PowBack { base, exponent } => seq![
            GradStep::PowAcc { target: base, exponent, out },
        ],
        Rule::ReluBack { arg } => seq![GradStep::ReluAcc { target: arg, out }],
    }
}

/// The steps a node emits: those of its rule, or none once the rule is
/// drained (and none for a leaf, which never had one).
pub open spec fn node_steps(n: Node, out: Parameter) -> Seq<GradStep> {
    match n.rule {
        None => seq![],
        Some(r) => rule_steps(r, out),
    }
}

/// The schedule of a backward pass over `order`: the steps of each listed
/// node, walking the order in reverse (terminal first, leaves last).
pub open spec fn tape_for(g: Seq<Node>, order: Seq<Parameter>) -> Seq<GradStep>
    decreases order.len(),
{
    if order.len() == 0 {
        seq![]
    } else {
        node_steps(g[order.last().id as int], order.last()) + tape_for(g, order.drop_last())
    }
}

/// How many steps of `tape` were emitted by the rule of `out`.
pub open spec fn steps_from(tape: Seq<GradStep>, out: Parameter) -> nat
    decreases tape.len(),
{
    if tape.len() == 0 {
        0
    } else {
        (if step_out(tape.last()) == out {
            1nat
        } else {
            0nat
        }) + steps_from(tape.drop_last(), out)
    }
}

/// How many contributions `tape` pushes from `out` onto `target`.
pub open spec fn contributions(tape: Seq<GradStep>, target: Parameter, out: Parameter) -> nat
    decreases tape.len(),
{
    if tape.len() == 0 {
        0
    } else {
        (if step_out(tape.last()) == out && step_target(tape.last()) == target {
            1nat
        } else {
            0nat
        }) + contributions(tape.drop_last(), target, out)
    }
}

/// Prepending one node to an order appends its steps to the schedule.
proof fn lemma_tape_for_cons(g: Seq<Node>, x: Parameter, s: Seq<Parameter>)
    ensures
        tape_for(g, seq![x] + s) == tape_for(g, s) + node_steps(g[x.id as int], x),
    decreases s.len(),
{
    reveal_with_fuel(tape_for, 3);
    let xs = seq![x] + s;
    if s.len() == 0 {
        assert(xs =~= seq![x]);
        assert(xs.last() == x);
        assert(xs.drop_last() =~= Seq::<Parameter>::empty());
        assert(tape_for(g, xs) =~= tape_for(g, s) + node_steps(g[x.id as int], x));
    } else {
        assert(xs.last() == s.last());
        assert(xs.drop_last() =~= seq![x] + s.drop_last());
        lemma_tape_for_cons(g, x, s.drop_last());
        assert(tape_for(g, xs) =~= tape_for(g, s) + node_steps(g[x.id as int], x));
    }
}

/// Step counts add over concatenation.
proof fn lemma_steps_from_add(a: Seq<GradStep>, b: Seq<GradStep>, out: Parameter)
    ensures
        steps_from(a + b, out) == steps_from(a, out) + steps_from(b, out),
    decreases b.len(),
{
    if b.len() == 0 {
        assert(a + b =~= a);
    } else {
        assert((a + b).last() == b.last());
        assert((a + b).drop_last() =~= a + b.drop_last());
        lemma_steps_from_add(a, b.drop_last(), out);
    }
}

/// Contribution counts add over concatenation.
proof fn lemma_contributions_add(
    a: Seq<GradStep>,
    b: Seq<GradStep>,
    target: Parameter,
    out: Parameter,
)
    ensures
        contributions(a + b, target, out) == contributions(a, target, out) + contributions(
            b,
            target,
            out,
        ),
    decreases b.len(),
{
    if b.len() == 0 {
        assert(a + b =~= a);
    } else {
        assert((a + b).last() == b.last());
        assert((a + b).drop_last() =~= a + b.drop_last());
        lemma_contributions_add(a, b.drop_last(), target, out);
    }
}

/// Every step of a node's block carries that node as its output, so the
/// block's own step count is its length, and a foreign node contributes
/// nothing to it.
proof fn lemma_block_counts(n: Node, q: Parameter, p: Parameter)
    ensures
        steps_from(node_steps(n, q), p) == if p == q {
            node_steps(n, q).len()
        } else {
            0nat
        },
{
    reveal_with_fuel(steps_from, 4);
    match n.rule {
        None => {},
        Some(r) => {
            let s = rule_steps(r, q);
            match r {
                Rule::AddBack { .. } | Rule::MulBack { .. } => {
                    assert(s.len() == 2);
                    assert(s.drop_last() =~= seq![s[0]]);
                    assert(seq![s[0]].drop_last() =~= Seq::<GradStep>::empty());
                    assert(step_out(s[0]) == q && step_out(s[1]) == q);
                },
                Rule::PowBack { .. } | Rule::ReluBack { .. } => {
                    assert(s.len() == 1);
                    assert(s.drop_last() =~= Seq::<GradStep>::empty());
                    assert(step_out(s[0]) == q);
                },
            }
        },
    }
}

/// As `lemma_block_counts`, for the contributions onto one target.
proof fn lemma_block_contributions(n: Node, q: Parameter, target: Parameter, p: Parameter)
    ensures
        p != q ==> contributions(node_steps(n, q), target, p) == 0,
{
    reveal_with_fuel(contributions, 4);
    match n.rule {
        None => {},
        Some(r) => {
            let s = rule_steps(r, q);
            match r {
                Rule::AddBack { .. } | Rule::MulBack { .. } => {
                    assert(s.len() == 2);
                    assert(s.drop_last() =~= seq![s[0]]);
                    assert(seq![s[0]].drop_last() =~= Seq::<GradStep>::empty());
                    assert(step_out(s[0]) == q && step_out(s[1]) == q);
                },
                Rule::PowBack { .. } | Rule::ReluBack { .. } => {
                    assert(s.len() == 1);
                    assert(s.drop_last() =~= Seq::<GradStep>::empty());
                    assert(step_out(s[0]) == q);
                },
            }
        },
    }
}

/// Each listed node's rule runs exactly once in a backward schedule: the
/// steps carrying output node `p` are exactly the steps of `p`'s own block;
/// a node that is not listed emits nothing.
pub proof fn lemma_rule_runs_once(g: Seq<Node>, order: Seq<Parameter>, p: Parameter)
    requires
        distinct(order),
    ensures
        order.contains(p) ==> steps_from(tape_for(g, order), p) == node_steps(
            g[p.id as int],
            p,
        ).len(),
        !order.contains(p) ==> steps_from(tape_for(g, order), p) == 0,
    decreases order.len(),
{
    if order.len() > 0 {
        let q = order.last();
        let rest = order.drop_last();
        lemma_steps_from_add(node_steps(g[q.id as int], q), tape_for(g, rest), p);
        lemma_block_counts(g[q.id as int], q, p);
        lemma_rule_runs_once(g, rest, p);
        if p == q {
            assert(!rest.contains(p)) by {
                if rest.contains(p) {
                    let j = choose|j: int| 0 <= j < rest.len() && rest[j] == p;
                    assert(order[j] == p);
                    assert(order[order.len() - 1] == p);
                }
            }
        } else {
            if order.contains(p) {
                let j = choose|j: int| 0 <= j < order.len() && order[j] == p;
                assert(rest[j] == p);
                assert(rest.contains(p));
            } else {
                if rest.contains(p) {
                    let j = choose|j: int| 0 <= j < rest.len() && rest[j] == p;
                    assert(order[j] == p);
                }
            }
        }
    }
}

/// The contributions a backward schedule pushes from node `p` onto `target`
/// are exactly those of `p`'s own block, and none if `p` is not listed.
pub proof fn lemma_contributions_once(
    g: Seq<Node>,
    order: Seq<Parameter>,
    target: Parameter,
    p: Parameter,
)
    requires
        distinct(order),
    ensures
        order.contains(p) ==> contributions(tape_for(g, order), target, p) == contributions(
            node_steps(g[p.id as int], p),
            target,
            p,
        ),
        !order.contains(p) ==> contributions(tape_for(g, order), target, p) == 0,
    decreases order.len(),
{
    if order.len() > 0 {
        let q = order.last();
        let rest = order.drop_last();
        lemma_contributions_add(node_steps(g[q.id as int], q), tape_for(g, rest), target, p);
        lemma_block_contributions(g[q.id as int], q, target, p);
        lemma_contributions_once(g, rest, target, p);
        if p == q {
            assert(!rest.contains(p)) by {
                if rest.contains(p) {
                    let j = choose|j: int| 0 <= j < rest.len() && rest[j] == p;
                    assert(order[j] == p);
                    assert(order[order.len() - 1] == p);
                }
            }
        } else {
            if order.contains(p) {
                let j = choose|j: int| 0 <= j < order.len() && order[j] == p;
                assert(rest[j] == p);
                assert(rest.contains(p));
            } else {
                if rest.contains(p) {
                    let j = choose|j: int| 0 <= j < rest.len() && rest[j] == p;
                    assert(order[j] == p);
                }
            }
        }
    }
}

/// A handle used on both sides of a multiplication accumulates both partial
/// contributions: the backward schedule of any order that lists the product
/// node `n` exactly pushes two contributions from `n` onto the shared
/// operand `a`, not one.
pub proof fn lemma_shared_operand_contributes_twice(
    g: Seq<Node>,
    order: Seq<Parameter>,
    n: Parameter,
    a: Parameter,
)
    requires
        distinct(order),
        order.contains(n),
        g[n.id as int].rule matches Some(r) && (r matches Rule::MulBack { lhs, rhs, .. } && lhs
            == a && rhs == a),
    ensures
        contributions(tape_for(g, order), a, n) == 2,
        steps_from(tape_for(g, order), n) == 2,
{
    reveal_with_fuel(steps_from, 4);
    reveal_with_fuel(contributions, 4);
    lemma_contributions_once(g, order, a, n);
    lemma_rule_runs_once(g, order, n);
    let s = node_steps(g[n.id as int], n);
    assert(s.len() == 2);
    assert(s.drop_last() =~= seq![s[0]]);
    assert(seq![s[0]].drop_last() =~= Seq::<GradStep>::empty());
    assert(step_out(s[0]) == n && step_target(s[0]) == a);
    assert(step_out(s[1]) == n && step_target(s[1]) == a);
}

/// Every step of a node's block names that node as its emitter.
proof fn lemma_block_outs(n: Node, q: Parameter)
    ensures
        forall|j: int|
            0 <= j < node_steps(n, q).len() ==> step_out(#[trigger] node_steps(n, q)[j]) == q,
{
    match n.rule {
        None => {},
        Some(r) => {
            let s = rule_steps(r, q);
            assert forall|j: int| 0 <= j < s.len() implies step_out(#[trigger] s[j]) == q by {
                match r {
                    Rule::AddBack { .. } | Rule::MulBack { .. } => {
                        assert(step_out(s[0]) == q && step_out(s[1]) == q);
                    },
                    Rule::PowBack { .. } | Rule::ReluBack { .. } => {
                        assert(step_out(s[0]) == q);
                    },
                }
            }
        },
    }
}

/// Every step of a schedule was emitted by some listed node.
proof fn lemma_tape_outs_listed(g: Seq<Node>, order: Seq<Parameter>, j: int)
    requires
        0 <= j < tape_for(g, order).len(),
    ensures
        exists|i: int|
            0 <= i < order.len() && order[i] == step_out(#[trigger] tape_for(g, order)[j]),
    decreases order.len(),
{
    if order.len() > 0 {
        let q = order.last();
        let block = node_steps(g[q.id as int], q);
        let rest = order.drop_last();
        if j < block.len() {
            lemma_block_outs(g[q.id as int], q);
            assert(tape_for(g, order)[j] == block[j]);
            assert(order[order.len() - 1] == q && q == step_out(tape_for(g, order)[j]));
        } else {
            lemma_tape_outs_listed(g, rest, j - block.len());
            assert(tape_for(g, order)[j] == tape_for(g, rest)[j - block.len()]);
            let i = choose|i: int|
                0 <= i < rest.len() && rest[i] == step_out(tape_for(g, rest)[j - block.len()]);
            assert(order[i] == step_out(tape_for(g, order)[j]));
        }
    }
}

/// Along a schedule, the emitting nodes walk the order backwards: an earlier
/// step's emitter never stands earlier in the order than a later step's.
proof fn lemma_tape_outs_descend(
    g: Seq<Node>,
    order: Seq<Parameter>,
    j1: int,
    j2: int,
    i1: int,
    i2: int,
)
    requires
        distinct(order),
        0 <= j1 <= j2 < tape_for(g, order).len(),
        0 <= i1 < order.len(),
        order[i1] == step_out(tape_for(g, order)[j1]),
        0 <= i2 < order.len(),
        order[i2] == step_out(tape_for(g, order)[j2]),
    ensures
        i1 >= i2,
    decreases order.len(),
{
    let q = order.last();
    let block = node_steps(g[q.id as int], q);
    let rest = order.drop_last();
    let tape = tape_for(g, order);
    lemma_block_outs(g[q.id as int], q);
    if j1 < block.len() {
        assert(tape[j1] == block[j1]);
        assert(order[i1] == q);
        assert(i1 == order.len() - 1);
    } else {
        // both steps lie in the rest of the schedule, whose emitters are
        // listed in the shorter order
        assert(tape[j1] == tape_for(g, rest)[j1 - block.len()]);
        assert(tape[j2] == tape_for(g, rest)[j2 - block.len()]);
        lemma_tape_outs_listed(g, rest, j1 - block.len());
        lemma_tape_outs_listed(g, rest, j2 - block.len());
        let r1 = choose|i: int|
            0 <= i < rest.len() && rest[i] == step_out(tape_for(g, rest)[j1 - block.len()]);
        let r2 = choose|i: int|
            0 <= i < rest.len() && rest[i] == step_out(tape_for(g, rest)[j2 - block.len()]);
        lemma_tape_outs_descend(g, rest, j1 - block.len(), j2 - block.len(), r1, r2);
        assert(order[r1] == order[i1] && order[r2] == order[i2]);
        assert(i1 == r1 && i2 == r2);
    }
}

/// A node backward-propagates only after all of its consumers have: in a
/// backward schedule over a duplicate-free, parents-first order, every step
/// emitted by a consumer `c` of a node `n` (a node that has `n` among its
/// parents) stands strictly before every step emitted by `n` itself, so by
/// the time `n`'s rule runs, `n`'s gradient has received every contribution.
pub proof fn lemma_consumers_scheduled_first(
    g: Seq<Node>,
    order: Seq<Parameter>,
    c: Parameter,
    n: Parameter,
    jc: int,
    jn: int,
)
    requires
        distinct(order),
        parents_first(g, order),
        parents_set(g[c.id as int].parents).contains(n),
        0 <= jc < tape_for(g, order).len(),
        0 <= jn < tape_for(g, order).len(),
        step_out(tape_for(g, order)[jc]) == c,
        step_out(tape_for(g, order)[jn]) == n,
    ensures
        jc < jn,
{
    let tape = tape_for(g, order);
    lemma_tape_outs_listed(g, order, jc);
    lemma_tape_outs_listed(g, order, jn);
    let ic = choose|i: int| 0 <= i < order.len() && order[i] == step_out(tape[jc]);
    let i_n = choose|i: int| 0 <= i < order.len() && order[i] == step_out(tape[jn]);
    // `n` is a parent of `c`, so it appears before `c` in the order
    let k: int = match g[c.id as int].parents {
        Parents::Leaf => 0,
        Parents::One(a) => 0,
        Parents::Two(a, b) => if a == n {
            0
        } else {
            1
        },
    };
    assert(parents_seq(g[c.id as int].parents)[k] == n && 0 <= k < parents_seq(
        g[c.id as int].parents,
    ).len());
    assert(appears_before(order, n, ic));
    let jb = choose|j: int| 0 <= j < ic && order[j] == n;
    assert(jb == i_n);
    if jn <= jc {
        lemma_tape_outs_descend(g, order, jn, jc, i_n, ic);
    }
}

/// A rule only targets parents of its node, which lie strictly below it.
proof fn lemma_rule_target_below(n: Node, i: int, t: Parameter)
    requires
        node_wf(n, i),
        n.rule matches Some(r) && rule_targets(r).contains(t),
    ensures
        t.id < i,
{
    assert(parents_set(n.parents).contains(t));
    match n.parents {
        Parents::Leaf => {},
        Parents::One(a) => {
            assert(t == a);
            assert(parents_seq(n.parents)[0] == a);
        },
        Parents::Two(a, b) => {
            assert(t == a || t == b);
            assert(parents_seq(n.parents)[0] == a);
            assert(parents_seq(n.parents)[1] == b);
        },
    }
}

/// Every step of a well-formed graph's backward schedule is executable: it
/// accumulates into a node that lies strictly below the node that emitted it,
/// and both lie inside the arena.
pub proof fn lemma_tape_executable(g: Seq<Node>, order: Seq<Parameter>)
    requires
        forall|i: int| 0 <= i < g.len() ==> node_wf(#[trigger] g[i], i),
        forall|j: int| 0 <= j < order.len() ==> (#[trigger] order[j]).id < g.len(),
    ensures
        forall|j: int|
            0 <= j < tape_for(g, order).len() ==> step_target(
                #[trigger] tape_for(g, order)[j],
            ).id < step_out(tape_for(g, order)[j]).id && step_out(tape_for(g, order)[j]).id
                < g.len(),
    decreases order.len(),
{
    if order.len() > 0 {
        let q = order.last();
        let n = g[q.id as int];
        let block = node_steps(n, q);
        let rest = order.drop_last();
        lemma_tape_executable(g, rest);
        assert(node_wf(n, q.id as int));
        assert forall|j: int| 0 <= j < block.len() implies step_target(#[trigger] block[j]).id
            < step_out(block[j]).id && step_out(block[j]).id < g.len() by {
            match n.rule {
                None => {
                    assert(false);
                },
                Some(r) => {
                    assert(step_out(block[j]) == q);
                    assert(rule_targets(r).contains(step_target(block[j])));
                    lemma_rule_target_below(n, q.id as int, step_target(block[j]));
                },
            }
        }
        assert forall|j: int| 0 <= j < tape_for(g, order).len() implies step_target(
            #[trigger] tape_for(g, order)[j],
        ).id < step_out(tape_for(g, order)[j]).id && step_out(tape_for(g, order)[j]).id
            < g.len() by {
            if j < block.len() {
                assert(tape_for(g, order)[j] == block[j]);
            } else {
                assert(tape_for(g, order)[j] == tape_for(g, rest)[j - block.len()]);
            }
        }
    }
}

/// `id` occurs among positions `k` and above of `order`.
pub open spec fn listed_from(order: Seq<Parameter>, k: int, id: int) -> bool {
    exists|j: int| k <= j < order.len() && (#[trigger] order[j]).id == id
}

impl Graph {
    /// Perform a backward pass from the terminal `t`: list everything `t`
    /// reaches in topological order, seed the gradient of `t` with the unit
    /// scalar, and walk the order in reverse, draining each node's one-shot
    /// rule into the returned schedule.  Payloads, tags and parent sets are
    /// untouched; no gradient other than the seed is written — accumulating
    /// the scheduled contributions is the driver's part.  A node whose rule
    /// was already drained by an earlier pass emits nothing.
    pub fn backward(&mut self, t: Parameter) -> (tape: Vec<GradStep>)
        requires
            old(self).wf(),
            t.id < old(self)@.len(),
        ensures
            final(self).wf(),
            final(self)@.len() == old(self)@.len(),
            forall|i: int|
                0 <= i < old(self)@.len() ==> (#[trigger] final(self)@[i]).data == old(
                    self,
                )@[i].data && final(self)@[i].op == old(self)@[i].op && final(self)@[i].parents
                    == old(self)@[i].parents,
            forall|i: int|
                0 <= i < old(self)@.len() && i != t.id ==> (#[trigger] final(self)@[i]).grad
                    == old(self)@[i].grad,
            final(self)@[t.id as int].grad == SCALAR_ONE,
            forall|p: Parameter|
                p.id < old(self)@.len() ==> (#[trigger] final(self)@[p.id as int]).rule == (
                if reaches(old(self)@, t, p) {
                    None
                } else {
                    old(self)@[p.id as int].rule
                }),
            exists|order: Seq<Parameter>|
                #[trigger] is_topo_order(old(self)@, t, order) && tape@ == tape_for(
                    old(self)@,
                    order,
                ),
            forall|j: int|
                0 <= j < tape@.len() ==> step_target(#[trigger] tape@[j]).id < step_out(
                    tape@[j],
                ).id && step_out(tape@[j]).id < old(self)@.len(),
    {
        let ghost g0 = self@;
        let order = self.build_topo(t);
        self.set_grad(t, SCALAR_ONE);
        let ghost g1 = self@;
        let mut tape: Vec<GradStep> = Vec::new();
        let mut k: usize = order.len();
        proof {
            assert(order@.skip(k as int) =~= Seq::<Parameter>::empty());
        }
        while k > 0
            invariant
                self.wf(),
                is_topo_order(g0, t, order@),
                k <= order@.len(),
                g1.len() == g0.len(),
                self@.len() == g1.len(),
                forall|i: int|
                    0 <= i < g1.len() ==> (#[trigger] g1[i]).data == g0[i].data && g1[i].op
                        == g0[i].op && g1[i].parents == g0[i].parents && g1[i].rule == g0[i].rule,
                forall|i: int|
                    0 <= i < g1.len() ==> (#[trigger] self@[i]).data == g1[i].data && self@[i].op
                        == g1[i].op && self@[i].parents == g1[i].parents && self@[i].grad
                        == g1[i].grad,
                forall|i: int|
                    0 <= i < g1.len() ==> (#[trigger] self@[i]).rule == (if listed_from(
                        order@,
                        k as int,
                        i,
                    ) {
                        None
                    } else {
                        g1[i].rule
                    }),
                tape@ == tape_for(g0, order@.skip(k as int)),
            decreases k,
        {
            k = k - 1;
            let p = order[k];
            proof {
                assert(order@[k as int].id < g0.len());
                assert(!listed_from(order@, k as int + 1, p.id as int)) by {
                    if listed_from(order@, k as int + 1, p.id as int) {
                        let j = choose|j: int|
                            k as int + 1 <= j < order@.len() && (#[trigger] order@[j]).id == p.id
                                as int;
                        assert(order@[j] == p);
                        assert(order@[k as int] == p);
                    }
                }
                assert(self@[p.id as int].rule == g0[p.id as int].rule);
            }
            let node = self.node(p);
            let ghost tape_before = tape@;
            match node.rule {
                None => {},
                Some(r) => {
                    match r {
                        Rule::AddBack { lhs, rhs } => {
                            tape.push(GradStep::AddAcc { target: lhs, out: p });
                            tape.push(GradStep::AddAcc { target: rhs, out: p });
                        },
                        Rule::MulBack { lhs, rhs, lhs_data, rhs_data } => {
                            tape.push(GradStep::MulAcc { target: lhs, factor: rhs_data, out: p });
                            tape.push(GradStep::MulAcc { target: rhs, factor: lhs_data, out: p });
                        },
                        Rule::PowBack { base, exponent } => {
                            tape.push(GradStep::PowAcc { target: base, exponent, out: p });
                        },
                        Rule::ReluBack { arg } => {
                            tape.push(GradStep::ReluAcc { target: arg, out: p });
                        },
                    }
                },
            }
            proof {
                assert(tape@ =~= tape_before + node_steps(g0[p.id as int], p));
            }
            self.take_rule(p.id);
            proof {
                // The schedule now covers the suffix from `k`.
                assert(order@.skip(k as int) =~= seq![order@[k as int]] + order@.skip(
                    k as int + 1,
                ));
                lemma_tape_for_cons(g0, p, order@.skip(k as int + 1));
                // The drained set now covers the suffix from `k`.
                assert forall|i: int| 0 <= i < g1.len() implies (#[trigger] self@[i]).rule == (
                if listed_from(order@, k as int, i) {
                    None
                } else {
                    g1[i].rule
                }) by {
                    if i == p.id as int {
                        assert(order@[k as int].id == i);
                        assert(listed_from(order@, k as int, i));
                    } else {
                        if listed_from(order@, k as int, i) {
                            let j = choose|j: int|
                                k as int <= j < order@.len() && (#[trigger] order@[j]).id == i;
                            assert(j != k as int);
                            assert(listed_from(order@, k as int + 1, i));
                        } else {
                            assert(!listed_from(order@, k as int + 1, i)) by {
                                if listed_from(order@, k as int + 1, i) {
                                    let j = choose|j: int|
                                        k as int + 1 <= j < order@.len() && (#[trigger] order@[j]).id
                                            == i;
                                    assert(listed_from(order@, k as int, i));
                                }
                            }
                        }
                    }
                }
            }
        }
        proof {
            assert(order@.skip(0) =~= order@);
            // Rules are drained exactly on what `t` reaches.
            assert forall|p: Parameter| p.id < g0.len() implies (#[trigger] self@[p.id as int]).rule
                == (if reaches(g0, t, p) {
                None
            } else {
                g0[p.id as int].rule
            }) by {
                if reaches(g0, t, p) {
                    assert(order@.contains(p));
                    let j = choose|j: int| 0 <= j < order@.len() && order@[j] == p;
                    assert(order@[j].id == p.id as int);
                    assert(listed_from(order@, 0, p.id as int));
                } else {
                    if listed_from(order@, 0, p.id as int) {
                        let j = choose|j: int|
                            0 <= j < order@.len() && (#[trigger] order@[j]).id == p.id as int;
                        assert(order@[j] == p);
                        assert(reaches(g0, t, order@[j]));
                    }
                }
            }
            assert(is_topo_order(g0, t, order@) && tape@ == tape_for(g0, order@));
            lemma_tape_executable(g0, order@);
        }
        tape
    }
}

} // verus!
