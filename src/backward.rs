use vstd::prelude::*;
use crate::graph::{Graph, Op, children_of, is_arena, operands_precede};

verus! {

/// The number of nodes not yet marked in a visited mask.
pub open spec fn unvisited(v: Seq<bool>) -> nat
    decreases v.len(),
{
    if v.len() == 0 {
        0
    } else {
        unvisited(v.drop_last()) + if v.last() { 0nat } else { 1nat }
    }
}

/// Marking an unvisited node lowers the count of unvisited nodes by one.
pub proof fn lemma_mark_visited(v: Seq<bool>, i: int)
    requires
        0 <= i < v.len(),
        !v[i],
    ensures
        unvisited(v.update(i, true)) + 1 == unvisited(v),
    decreases v.len(),
{
    let w = v.update(i, true);
    if i == v.len() - 1 {
        assert(w.drop_last() =~= v.drop_last());
    } else {
        assert(w.drop_last() =~= v.drop_last().update(i, true));
        lemma_mark_visited(v.drop_last(), i);
    }
}

/// The operands of `op` in the order in which they are pushed on a stack, so
/// that the first operand is the next one popped.
pub open spec fn stacked(op: Op) -> Seq<usize> {
    match op {
        Op::Leaf => seq![],
        Op::Add(a, b) => seq![b, a],
        Op::Multiply(a, b) => seq![b, a],
        Op::Power(a) => seq![a],
        Op::Relu(a) => seq![a],
    }
}

/// Depth-first walk that marks a node on its first visit and skips it on
/// every later one. A node is emitted before its operands, and its operands
/// are walked in order.
pub open spec fn walk(ops: Seq<Op>, stack: Seq<usize>, visited: Seq<bool>) -> Seq<usize>
    decreases unvisited(visited), stack.len(),
{
    if stack.len() == 0 {
        seq![]
    } else {
        let n = stack.last();
        let rest = stack.drop_last();
        if n >= visited.len() || visited[n as int] {
            walk(ops, rest, visited)
        } else {
            proof {
                lemma_mark_visited(visited, n as int);
            }
            seq![n] + walk(ops, rest + stacked(ops[n as int]), visited.update(n as int, true))
        }
    }
}

/// The order in which the backward pass from `root` runs the local rules.
pub open spec fn visit_order(ops: Seq<Op>, root: usize) -> Seq<usize> {
    walk(ops, seq![root], Seq::new(ops.len(), |i: int| false))
}

/// Computes the order in which the backward pass from `root` visits nodes:
/// a pre-order depth-first walk in which each node is visited once, on the
/// first path that reaches it.
pub fn backward_order(g: &Graph, root: usize) -> (r: Vec<usize>)
    requires
        g.wf(),
        root < g@.len(),
    ensures
        r@ == visit_order(g@, root),
{
    let n = g.len();
    let mut visited: Vec<bool> = Vec::new();
    let mut k: usize = 0;
    while k < n
        invariant
            k <= n,
            n == g@.len(),
            visited@ == Seq::new(k as nat, |i: int| false),
        decreases n - k,
    {
        visited.push(false);
        k = k + 1;
        assert(visited@ =~= Seq::new(k as nat, |i: int| false));
    }
    let mut stack: Vec<usize> = Vec::new();
    stack.push(root);
    let mut order: Vec<usize> = Vec::new();
    assert(stack@ =~= seq![root]);
    assert(order@ + walk(g@, stack@, visited@) =~= visit_order(g@, root));
    while stack.len() > 0
        invariant
            g.wf(),
            visited@.len() == g@.len(),
            forall|i: int| 0 <= i < stack@.len() ==> stack@[i] < g@.len(),
            order@ + walk(g@, stack@, visited@) == visit_order(g@, root),
        decreases unvisited(visited@), stack@.len(),
    {
        let ghost before = stack@;
        let ghost seen = visited@;
        let top = stack.pop().unwrap();
        assert(stack@ == before.drop_last());
        if !visited[top] {
            proof {
                lemma_mark_visited(visited@, top as int);
                assert(operands_precede(g@, top as int));
            }
            visited.set(top, true);
            let ghost head = order@;
            order.push(top);
            let ghost rest = stack@;
            match g.op(top) {
                Op::Leaf => {},
                Op::Add(a, b) => {
                    assert(children_of(g@[top as int])[0] == a);
                    assert(children_of(g@[top as int])[1] == b);
                    stack.push(b);
                    stack.push(a);
                },
                Op::Multiply(a, b) => {
                    assert(children_of(g@[top as int])[0] == a);
                    assert(children_of(g@[top as int])[1] == b);
                    stack.push(b);
                    stack.push(a);
                },
                Op::Power(a) => {
                    assert(children_of(g@[top as int])[0] == a);
                    stack.push(a);
                },
                Op::Relu(a) => {
                    assert(children_of(g@[top as int])[0] == a);
                    stack.push(a);
                },
            }
            assert(stack@ =~= rest + stacked(g@[top as int]));
            assert(order@ + walk(g@, stack@, visited@) =~= head + walk(g@, before, seen));
        }
    }
    assert(order@ =~= order@ + walk(g@, stack@, visited@));
    order
}

/// How the contribution of one step is scaled, relative to the gradient
/// `g` of the step's source node.
#[derive(Clone, Copy, Debug, PartialEq, Eq, Structural)]
pub enum Factor {
    /// `1`: the rule of a sum.
    One,
    /// The value of the given node: the rule of a product, scaled by the
    /// other operand.
    ValueOf(usize),
    /// `k * x^(k-1)`, where `k` is the source's exponent and `x` the target's
    /// value: the power rule.
    PowerSlope,
    /// `1` when `g > 0`, else `0`: the rectifier gated on its own output
    /// gradient.
    PositiveGate,
}

/// One gradient accumulation: `grad[target] += factor * grad[source]`.
#[derive(Clone, Copy, Debug, PartialEq, Eq, Structural)]
pub struct Step {
    pub source: usize,
    pub target: usize,
    pub factor: Factor,
}

/// The local backward rule of node `n`: what it adds to each of its operands.
pub open spec fn local_steps(ops: Seq<Op>, n: usize) -> Seq<Step> {
    match ops[n as int] {
        Op::Leaf => seq![],
        Op::Add(a, b) => seq![
            Step { source: n, target: a, factor: Factor::One },
            Step { source: n, target: b, factor: Factor::One },
        ],
        Op::Multiply(a, b) => seq![
            Step { source: n, target: a, factor: Factor::ValueOf(b) },
            Step { source: n, target: b, factor: Factor::ValueOf(a) },
        ],
        Op::Power(a) => seq![Step { source: n, target: a, factor: Factor::PowerSlope }],
        Op::Relu(a) => seq![Step { source: n, target: a, factor: Factor::PositiveGate }],
    }
}

/// The local rules of the nodes of `order`, one after another.
pub open spec fn steps_of(ops: Seq<Op>, order: Seq<usize>) -> Seq<Step>
    decreases order.len(),
{
    if order.len() == 0 {
        seq![]
    } else {
        steps_of(ops, order.drop_last()) + local_steps(ops, order.last())
    }
}

/// The steps of the backward pass from `root`, after its gradient is seeded
/// with one.
pub open spec fn backward_steps(ops: Seq<Op>, root: usize) -> Seq<Step> {
    steps_of(ops, visit_order(ops, root))
}

/// The local backward rule of node `n`.
pub fn rule_of(g: &Graph, n: usize) -> (r: Vec<Step>)
    requires
        n < g@.len(),
    ensures
        r@ == local_steps(g@, n),
{
    let r = match g.op(n) {
        Op::Leaf => Vec::new(),
        Op::Add(a, b) => vec![
            Step { source: n, target: a, factor: Factor::One },
            Step { source: n, target: b, factor: Factor::One },
        ],
        Op::Multiply(a, b) => vec![
            Step { source: n, target: a, factor: Factor::ValueOf(b) },
            Step { source: n, target: b, factor: Factor::ValueOf(a) },
        ],
        Op::Power(a) => vec![Step { source: n, target: a, factor: Factor::PowerSlope }],
        Op::Relu(a) => vec![Step { source: n, target: a, factor: Factor::PositiveGate }],
    };
    assert(r@ =~= local_steps(g@, n));
    r
}

/// The local rules of the nodes of `order`, one after another.
pub fn plan_for(g: &Graph, order: &Vec<usize>) -> (r: Vec<Step>)
    requires
        forall|j: int| 0 <= j < order@.len() ==> order@[j] < g@.len(),
    ensures
        r@ == steps_of(g@, order@),
{
    let mut plan: Vec<Step> = Vec::new();
    let mut i: usize = 0;
    assert(order@.subrange(0, 0) =~= Seq::<usize>::empty());
    while i < order.len()
        invariant
            i <= order@.len(),
            forall|j: int| 0 <= j < order@.len() ==> order@[j] < g@.len(),
            plan@ == steps_of(g@, order@.subrange(0, i as int)),
        decreases order@.len() - i,
    {
        let mut local = rule_of(g, order[i]);
        plan.append(&mut local);
        assert(order@.subrange(0, i as int + 1).drop_last() =~= order@.subrange(0, i as int));
        i = i + 1;
    }
    assert(order@.subrange(0, order@.len() as int) =~= order@);
    plan
}

/// Plans the backward pass from `root`: the local rule of every node that
/// the walk visits, in the order of the walk. Carried out after setting the
/// root's gradient to one, it propagates gradients through the graph.
///
/// Where a node is an operand of several nodes, the walk may run its rule
/// before every contribution to its gradient has arrived; see
/// `topological_plan` for the order that waits for all of them.
pub fn backward_plan(g: &Graph, root: usize) -> (r: Vec<Step>)
    requires
        g.wf(),
        root < g@.len(),
    ensures
        r@ == backward_steps(g@, root),
{
    let order = backward_order(g, root);
    proof {
        lemma_walk(g@, seq![root], Seq::new(g@.len(), |i: int| false), root);
    }
    plan_for(g, &order)
}

/// What the walk from a stack emits: nodes in range and bounded by `m`, each
/// not yet visited, each once; every node of the stack, and every operand
/// of an emitted node, is either emitted or was visited before.
pub proof fn lemma_walk(ops: Seq<Op>, stack: Seq<usize>, visited: Seq<bool>, m: usize)
    requires
        is_arena(ops),
        visited.len() == ops.len(),
        forall|i: int| 0 <= i < stack.len() ==> stack[i] < ops.len() && stack[i] <= m,
    ensures
        forall|i: int| 0 <= i < walk(ops, stack, visited).len() ==> {
            let x = #[trigger] walk(ops, stack, visited)[i];
            x < ops.len() && x <= m && !visited[x as int]
        },
        forall|i: int, j: int| 0 <= i < j < walk(ops, stack, visited).len()
            ==> walk(ops, stack, visited)[i] != walk(ops, stack, visited)[j],
        forall|i: int| 0 <= i < stack.len()
            ==> walk(ops, stack, visited).contains(#[trigger] stack[i]) || visited[stack[i] as int],
        forall|i: int, j: int| 0 <= i < walk(ops, stack, visited).len()
            && 0 <= j < children_of(ops[walk(ops, stack, visited)[i] as int]).len() ==> {
            let c = #[trigger] children_of(ops[walk(ops, stack, visited)[i] as int])[j];
            walk(ops, stack, visited).contains(c) || visited[c as int]
        },
    decreases unvisited(visited), stack.len(),
{
    if stack.len() == 0 {
    } else {
        let n = stack.last();
        let rest = stack.drop_last();
        if n >= visited.len() || visited[n as int] {
            lemma_walk(ops, rest, visited, m);
            let r = walk(ops, stack, visited);
            assert(r == walk(ops, rest, visited));
            assert forall|i: int| 0 <= i < stack.len() implies r.contains(stack[i]) || visited[stack[i] as int] by {
                if i < rest.len() {
                    assert(stack[i] == rest[i]);
                }
            }
        } else {
            lemma_mark_visited(visited, n as int);
            assert(operands_precede(ops, n as int));
            let kids = stacked(ops[n as int]);
            let cs = children_of(ops[n as int]);
            assert(forall|j: int| 0 <= j < cs.len() ==> kids.contains(cs[j]));
            assert(forall|j: int| 0 <= j < kids.len() ==> cs.contains(kids[j]));
            let next = rest + kids;
            let seen = visited.update(n as int, true);
            assert forall|i: int| 0 <= i < next.len() implies next[i] < ops.len() && next[i] <= m by {
                if i >= rest.len() {
                    assert(cs.contains(kids[i - rest.len()]));
                }
            }
            lemma_walk(ops, next, seen, m);
            let tail = walk(ops, next, seen);
            let r = walk(ops, stack, visited);
            assert(r == seq![n] + tail);
            assert forall|i: int| 0 <= i < r.len() implies r[i] < ops.len() && r[i] <= m && !visited[r[i] as int] by {
                if i > 0 {
                    assert(r[i] == tail[i - 1]);
                }
            }
            assert forall|i: int, j: int| 0 <= i < j < r.len() implies r[i] != r[j] by {
                assert(r[j] == tail[j - 1]);
                if i > 0 {
                    assert(r[i] == tail[i - 1]);
                }
            }
            assert forall|x: usize| tail.contains(x) implies r.contains(x) by {
                let k = choose|k: int| 0 <= k < tail.len() && tail[k] == x;
                assert(r[k + 1] == x);
            }
            assert(r[0] == n);
            assert forall|i: int| 0 <= i < stack.len() implies r.contains(stack[i]) || visited[stack[i] as int] by {
                if i < rest.len() {
                    assert(stack[i] == next[i]);
                    if seen[stack[i] as int] && stack[i] != n {
                        assert(visited[stack[i] as int]);
                    }
                }
            }
            assert forall|i: int, j: int| 0 <= i < r.len() && 0 <= j < children_of(ops[r[i] as int]).len()
                implies r.contains(children_of(ops[r[i] as int])[j]) || visited[children_of(ops[r[i] as int])[j] as int] by {
                let c = children_of(ops[r[i] as int])[j];
                assert(operands_precede(ops, r[i] as int));
                if i == 0 {
                    assert(kids.contains(c));
                    let k = choose|k: int| 0 <= k < kids.len() && kids[k] == c;
                    assert(next[rest.len() + k] == c);
                } else {
                    assert(r[i] == tail[i - 1]);
                }
                if c != n && seen[c as int] {
                    assert(visited[c as int]);
                }
            }
        }
    }
}

/// The backward pass from `root` visits `root` first, then every node that
/// `root` depends on, each exactly once, and no other node: the local rule
/// of each such node runs once.
pub proof fn lemma_visit_order(ops: Seq<Op>, root: usize)
    requires
        is_arena(ops),
        root < ops.len(),
    ensures
        visit_order(ops, root).len() > 0,
        visit_order(ops, root)[0] == root,
        forall|i: int| 0 <= i < visit_order(ops, root).len()
            ==> #[trigger] visit_order(ops, root)[i] <= root,
        forall|i: int, j: int| 0 <= i < j < visit_order(ops, root).len()
            ==> visit_order(ops, root)[i] != visit_order(ops, root)[j],
        forall|i: int, j: int| 0 <= i < visit_order(ops, root).len()
            && 0 <= j < children_of(ops[visit_order(ops, root)[i] as int]).len()
            ==> visit_order(ops, root).contains(
            #[trigger] children_of(ops[visit_order(ops, root)[i] as int])[j],
        ),
{
    let none = Seq::new(ops.len(), |i: int| false);
    lemma_walk(ops, seq![root], none, root);
    lemma_mark_visited(none, root as int);
    let o = visit_order(ops, root);
    assert(o == seq![root] + walk(ops, seq![root].drop_last() + stacked(ops[root as int]), none.update(root as int, true)));
    assert forall|i: int| 0 <= i < o.len() implies #[trigger] o[i] <= root by {
        assert(o[i] < ops.len());
    }
    assert forall|i: int, j: int| 0 <= i < o.len() && 0 <= j < children_of(ops[o[i] as int]).len()
        implies o.contains(#[trigger] children_of(ops[o[i] as int])[j]) by {
        assert(operands_precede(ops, o[i] as int));
        let c = children_of(ops[o[i] as int])[j];
        assert(!none[c as int]);
    }
}

/// The rule of node `n` reads the gradient of `n` and adds to operands of
/// `n`, which precede it.
pub proof fn lemma_local_steps(ops: Seq<Op>, n: usize)
    requires
        is_arena(ops),
        n < ops.len(),
    ensures
        forall|k: int| 0 <= k < local_steps(ops, n).len()
            ==> (#[trigger] local_steps(ops, n)[k]).target < n && local_steps(ops, n)[k].source == n
            && children_of(ops[n as int]).contains(local_steps(ops, n)[k].target),
{
    assert(operands_precede(ops, n as int));
    match ops[n as int] {
        Op::Leaf => {},
        Op::Add(a, b) => {
            assert(children_of(ops[n as int])[0] == a);
            assert(children_of(ops[n as int])[1] == b);
        },
        Op::Multiply(a, b) => {
            assert(children_of(ops[n as int])[0] == a);
            assert(children_of(ops[n as int])[1] == b);
        },
        Op::Power(a) => {
            assert(children_of(ops[n as int])[0] == a);
        },
        Op::Relu(a) => {
            assert(children_of(ops[n as int])[0] == a);
        },
    }
}

/// Each step of the rules of `order` is scaled from the gradient of a node
/// of `order` and adds to one of that node's operands, which precede it.
pub proof fn lemma_steps_of(ops: Seq<Op>, order: Seq<usize>)
    requires
        is_arena(ops),
        forall|i: int| 0 <= i < order.len() ==> order[i] < ops.len(),
    ensures
        forall|k: int| 0 <= k < steps_of(ops, order).len() ==> {
            let s = #[trigger] steps_of(ops, order)[k];
            s.target < s.source && order.contains(s.source)
                && children_of(ops[s.source as int]).contains(s.target)
        },
    decreases order.len(),
{
    if order.len() > 0 {
        let n = order.last();
        let rest = order.drop_last();
        lemma_steps_of(ops, rest);
        lemma_local_steps(ops, n);
        let head = steps_of(ops, rest);
        let local = local_steps(ops, n);
        let all = steps_of(ops, order);
        assert(all == head + local);
        assert(order[order.len() - 1] == n);
        assert forall|k: int| 0 <= k < all.len() implies {
            let s = #[trigger] all[k];
            s.target < s.source && order.contains(s.source)
                && children_of(ops[s.source as int]).contains(s.target)
        } by {
            if k < head.len() {
                assert(all[k] == head[k]);
                let j = choose|j: int| 0 <= j < rest.len() && rest[j] == head[k].source;
                assert(order[j] == rest[j]);
            } else {
                assert(all[k] == local[k - head.len()]);
            }
        }
    }
}

/// No step of the backward pass from `root` adds to the gradient of
/// `root`: every step writes into a node built before it. So once seeded
/// with one, the root's gradient is exactly one when the pass ends.
pub proof fn lemma_root_gradient_stays_seeded(ops: Seq<Op>, root: usize)
    requires
        is_arena(ops),
        root < ops.len(),
    ensures
        forall|k: int| 0 <= k < backward_steps(ops, root).len()
            ==> (#[trigger] backward_steps(ops, root)[k]).target < root,
{
    let none = Seq::new(ops.len(), |i: int| false);
    lemma_walk(ops, seq![root], none, root);
    lemma_visit_order(ops, root);
    let o = visit_order(ops, root);
    lemma_steps_of(ops, o);
    assert forall|k: int| 0 <= k < backward_steps(ops, root).len()
        implies (#[trigger] backward_steps(ops, root)[k]).target < root by {
        let s = backward_steps(ops, root)[k];
        let j = choose|j: int| 0 <= j < o.len() && o[j] == s.source;
        assert(o[j] <= root);
    }
}

/// Each node the walk emits was on the stack, or is an operand of a node
/// emitted before it.
pub proof fn lemma_walk_reached_from(ops: Seq<Op>, stack: Seq<usize>, visited: Seq<bool>)
    requires
        is_arena(ops),
        visited.len() == ops.len(),
        forall|i: int| 0 <= i < stack.len() ==> stack[i] < ops.len(),
    ensures
        forall|i: int| 0 <= i < walk(ops, stack, visited).len() ==> stack.contains(
            #[trigger] walk(ops, stack, visited)[i],
        ) || exists|k: int| 0 <= k < i && children_of(ops[walk(ops, stack, visited)[k] as int]).contains(
            walk(ops, stack, visited)[i],
        ),
    decreases unvisited(visited), stack.len(),
{
    if stack.len() > 0 {
        let n = stack.last();
        let rest = stack.drop_last();
        assert forall|x: usize| rest.contains(x) implies stack.contains(x) by {
            let j = choose|j: int| 0 <= j < rest.len() && rest[j] == x;
            assert(stack[j] == x);
        }
        if n >= visited.len() || visited[n as int] {
            lemma_walk_reached_from(ops, rest, visited);
            assert(walk(ops, stack, visited) == walk(ops, rest, visited));
        } else {
            lemma_mark_visited(visited, n as int);
            assert(operands_precede(ops, n as int));
            let kids = stacked(ops[n as int]);
            let cs = children_of(ops[n as int]);
            assert(forall|j: int| 0 <= j < kids.len() ==> cs.contains(kids[j]));
            let next = rest + kids;
            let seen = visited.update(n as int, true);
            assert forall|i: int| 0 <= i < next.len() implies next[i] < ops.len() by {
                if i >= rest.len() {
                    assert(cs.contains(kids[i - rest.len()]));
                }
            }
            lemma_walk_reached_from(ops, next, seen);
            let tail = walk(ops, next, seen);
            let r = walk(ops, stack, visited);
            assert(r == seq![n] + tail);
            assert forall|i: int| 0 <= i < r.len() implies stack.contains(#[trigger] r[i]) || exists|k: int|
                0 <= k < i && children_of(ops[r[k] as int]).contains(r[i]) by {
                if i == 0 {
                    assert(stack[stack.len() - 1] == n);
                } else {
                    let x = r[i];
                    assert(x == tail[i - 1]);
                    if next.contains(x) {
                        let j = choose|j: int| 0 <= j < next.len() && next[j] == x;
                        if j < rest.len() {
                            assert(rest[j] == x);
                            assert(rest.contains(x));
                        } else {
                            assert(kids[j - rest.len()] == x);
                            assert(cs.contains(x));
                            assert(r[0] == n);
                        }
                    } else {
                        let k = choose|k: int| 0 <= k < i - 1 && children_of(ops[tail[k] as int]).contains(tail[i - 1]);
                        assert(r[k + 1] == tail[k]);
                    }
                }
            }
        }
    }
}

/// With no node repeated in `order`, the rules come in the order of their
/// nodes: every step of an earlier node precedes every step of a later one.
pub proof fn lemma_steps_follow_order(ops: Seq<Op>, order: Seq<usize>)
    requires
        is_arena(ops),
        forall|i: int| 0 <= i < order.len() ==> order[i] < ops.len(),
        forall|i: int, j: int| 0 <= i < j < order.len() ==> order[i] != order[j],
    ensures
        forall|a: int, b: int, i: int, j: int|
            #![trigger steps_of(ops, order)[i], steps_of(ops, order)[j], order[a], order[b]]
            0 <= a < b < order.len() && 0 <= i < steps_of(ops, order).len()
                && 0 <= j < steps_of(ops, order).len() && steps_of(ops, order)[j].source == order[a]
                && steps_of(ops, order)[i].source == order[b] ==> j < i,
    decreases order.len(),
{
    if order.len() > 0 {
        let n = order.last();
        let rest = order.drop_last();
        lemma_steps_follow_order(ops, rest);
        lemma_steps_of(ops, rest);
        lemma_local_steps(ops, n);
        let head = steps_of(ops, rest);
        let local = local_steps(ops, n);
        let all = steps_of(ops, order);
        assert(all == head + local);
        assert forall|k: int| 0 <= k < head.len() implies #[trigger] head[k].source != n by {
            let j = choose|j: int| 0 <= j < rest.len() && rest[j] == head[k].source;
            assert(order[j] == rest[j]);
        }
        assert forall|a: int, b: int, i: int, j: int|
            0 <= a < b < order.len() && 0 <= i < all.len() && 0 <= j < all.len()
                && all[j].source == order[a] && all[i].source == order[b] implies j < i by {
            assert(order[a] != n);
            if j >= head.len() {
                assert(all[j] == local[j - head.len()]);
            } else if i < head.len() {
                assert(all[i] == head[i]);
                assert(all[j] == head[j]);
                assert(rest[a] == order[a]);
                assert(rest[b] == order[b]);
            }
        }
    }
}

/// Node `x` is an operand of at most one of the nodes that the walk from
/// `root` visits.
pub open spec fn single_consumer(ops: Seq<Op>, root: usize, x: usize) -> bool {
    let o = visit_order(ops, root);
    forall|p: int, q: int|
        0 <= p < o.len() && 0 <= q < o.len() && children_of(ops[o[p] as int]).contains(x)
            && children_of(ops[o[q] as int]).contains(x) ==> o[p] == o[q]
}

/// Where a node is an operand of only one node, the walk's pass runs its
/// rule only after every step that adds to its gradient: on a graph without
/// shared nodes the walk's pass gives each node its full gradient.
pub proof fn lemma_walk_exact_without_sharing(ops: Seq<Op>, root: usize)
    requires
        is_arena(ops),
        root < ops.len(),
    ensures
        forall|i: int, j: int|
            0 <= i < backward_steps(ops, root).len() && 0 <= j < backward_steps(ops, root).len()
                && (#[trigger] backward_steps(ops, root)[j]).target == (#[trigger] backward_steps(ops, root)[i]).source
                && single_consumer(ops, root, backward_steps(ops, root)[i].source) ==> j < i,
{
    let none = Seq::new(ops.len(), |i: int| false);
    lemma_walk(ops, seq![root], none, root);
    lemma_walk_reached_from(ops, seq![root], none);
    lemma_visit_order(ops, root);
    let o = visit_order(ops, root);
    lemma_steps_of(ops, o);
    lemma_steps_follow_order(ops, o);
    let st = backward_steps(ops, root);
    assert forall|i: int, j: int|
        0 <= i < st.len() && 0 <= j < st.len() && (#[trigger] st[j]).target == (#[trigger] st[i]).source
            && single_consumer(ops, root, st[i].source) implies j < i by {
        let x = st[i].source;
        let p = st[j].source;
        let b = choose|b: int| 0 <= b < o.len() && o[b] == x;
        let a = choose|a: int| 0 <= a < o.len() && o[a] == p;
        assert(o[a] <= root);
        assert(x != root);
        if seq![root].contains(x) {
            assert(seq![root][0] == root);
        }
        assert(o[b] == x);
        let k = choose|k: int| 0 <= k < b && children_of(ops[o[k] as int]).contains(o[b]);
        assert(children_of(ops[o[a] as int]).contains(x));
        assert(o[k] == o[a]);
        if k != a {
            if k < a {
                assert(o[k] != o[a]);
            } else {
                assert(o[a] != o[k]);
            }
        }
        assert(a < b);
    }
}

} // verus!
