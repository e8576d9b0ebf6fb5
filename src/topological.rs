use vstd::prelude::*;
use crate::graph::{Graph, Op, is_arena};
use crate::backward::{
    Step, backward_order, lemma_local_steps, lemma_steps_of, lemma_visit_order, lemma_walk,
    local_steps, plan_for, steps_of, visit_order,
};

verus! {

/// The indices below `k` that `mask` marks, from the highest down.
pub open spec fn marked_below(mask: Seq<bool>, k: int) -> Seq<usize>
    decreases k,
{
    if k <= 0 {
        seq![]
    } else if mask[k - 1] {
        seq![(k - 1) as usize] + marked_below(mask, k - 1)
    } else {
        marked_below(mask, k - 1)
    }
}

/// Which nodes the backward pass from `root` reaches.
pub open spec fn reached(ops: Seq<Op>, root: usize) -> Seq<bool> {
    Seq::new(ops.len(), |i: int| visit_order(ops, root).contains(i as usize))
}

/// The nodes that `root` depends on, from the highest index down. Every
/// node is built after its operands, so each node comes after all of the
/// nodes that use it.
pub open spec fn descending_reach(ops: Seq<Op>, root: usize) -> Seq<usize> {
    marked_below(reached(ops, root), root + 1)
}

proof fn lemma_marked_below(mask: Seq<bool>, k: int)
    requires
        0 <= k <= mask.len(),
        k <= usize::MAX + 1,
    ensures
        forall|i: int, j: int| 0 <= i < j < marked_below(mask, k).len()
            ==> marked_below(mask, k)[i] > marked_below(mask, k)[j],
        forall|x: usize| #[trigger] marked_below(mask, k).contains(x) <==> (x < k && mask[x as int]),
    decreases k,
{
    if k > 0 {
        lemma_marked_below(mask, k - 1);
        let rest = marked_below(mask, k - 1);
        let m = marked_below(mask, k);
        if mask[k - 1] {
            assert(m == seq![(k - 1) as usize] + rest);
            assert(m[0] == (k - 1) as usize);
            assert forall|j: int| 1 <= j < m.len() implies m[j] == rest[j - 1] && m[j] < k - 1 by {
                assert(m[j] == rest[j - 1]);
                let x = rest[j - 1];
                assert(rest.contains(x));
                assert(x < k - 1);
            }
            assert forall|i: int, j: int| 0 <= i < j < m.len() implies m[i] > m[j] by {
                assert(m[j] == rest[j - 1] && m[j] < k - 1);
                if i > 0 {
                    assert(m[i] == rest[i - 1]);
                    assert(rest[i - 1] > rest[j - 1]);
                }
            }
            assert forall|x: usize| m.contains(x) <==> (x < k && mask[x as int]) by {
                if x == k - 1 {
                    assert(m[0] == x);
                } else if rest.contains(x) {
                    let j = choose|j: int| 0 <= j < rest.len() && rest[j] == x;
                    assert(m[j + 1] == x);
                }
                if m.contains(x) && x != k - 1 {
                    let j = choose|j: int| 0 <= j < m.len() && m[j] == x;
                    assert(m[j] == rest[j - 1]);
                }
            }
        }
    }
}

/// The steps of the backward pass from `root` in reverse topological order.
pub open spec fn topological_steps(ops: Seq<Op>, root: usize) -> Seq<Step> {
    steps_of(ops, descending_reach(ops, root))
}

/// Computes the nodes that `root` depends on, `root` among them, from the
/// highest index down: each node comes after every node that uses it.
pub fn topological_order(g: &Graph, root: usize) -> (r: Vec<usize>)
    requires
        g.wf(),
        root < g@.len(),
    ensures
        r@ == descending_reach(g@, root),
{
    let order = backward_order(g, root);
    proof {
        lemma_visit_order(g@, root);
        lemma_walk(g@, seq![root], Seq::new(g@.len(), |i: int| false), root);
    }
    let n = g.len();
    let mut mask: Vec<bool> = Vec::new();
    let mut k: usize = 0;
    while k < n
        invariant
            k <= n,
            n == g@.len(),
            mask@ == Seq::new(k as nat, |i: int| false),
        decreases n - k,
    {
        mask.push(false);
        k = k + 1;
        assert(mask@ =~= Seq::new(k as nat, |i: int| false));
    }
    let mut i: usize = 0;
    while i < order.len()
        invariant
            i <= order@.len(),
            n == g@.len(),
            order@ == visit_order(g@, root),
            forall|j: int| 0 <= j < order@.len() ==> order@[j] < n,
            mask@ == Seq::new(n as nat, |x: int| order@.subrange(0, i as int).contains(x as usize)),
        decreases order@.len() - i,
    {
        let ghost before = mask@;
        mask.set(order[i], true);
        proof {
            let done = order@.subrange(0, i as int + 1);
            let prev = order@.subrange(0, i as int);
            assert forall|x: int| 0 <= x < n implies mask@[x] == done.contains(x as usize) by {
                if prev.contains(x as usize) {
                    let j = choose|j: int| 0 <= j < prev.len() && prev[j] == x as usize;
                    assert(done[j] == x as usize);
                }
                if done.contains(x as usize) && x as usize != order@[i as int] {
                    let j = choose|j: int| 0 <= j < done.len() && done[j] == x as usize;
                    assert(prev[j] == x as usize);
                }
                if x as usize == order@[i as int] {
                    assert(done[i as int] == x as usize);
                }
            }
            assert(mask@ =~= Seq::new(n as nat, |x: int| done.contains(x as usize)));
        }
        i = i + 1;
    }
    assert(order@.subrange(0, order@.len() as int) =~= order@);
    assert(mask@ =~= reached(g@, root));
    let mut out: Vec<usize> = Vec::new();
    let mut k: usize = root + 1;
    while k > 0
        invariant
            k <= root + 1,
            root < n,
            n == g@.len(),
            mask@ == reached(g@, root),
            out@ + marked_below(mask@, k as int) == descending_reach(g@, root),
        decreases k,
    {
        let ghost prev = out@;
        if mask[k - 1] {
            out.push(k - 1);
        }
        assert(prev + marked_below(mask@, k as int) =~= out@ + marked_below(mask@, k - 1));
        k = k - 1;
    }
    assert(out@ + marked_below(mask@, 0) =~= out@);
    out
}

/// Plans the backward pass from `root` in reverse topological order: the
/// rule of a node runs only after every rule that adds to its gradient, so
/// a node that is an operand of several nodes gets its full gradient.
pub fn topological_plan(g: &Graph, root: usize) -> (r: Vec<Step>)
    requires
        g.wf(),
        root < g@.len(),
    ensures
        r@ == topological_steps(g@, root),
{
    let order = topological_order(g, root);
    proof {
        lemma_marked_below(reached(g@, root), root + 1);
        assert forall|j: int| 0 <= j < order@.len() implies order@[j] < g@.len() by {
            assert(order@.contains(order@[j]));
        }
    }
    plan_for(g, &order)
}

/// The reverse topological order holds `root` first, then exactly the nodes
/// that the walk from `root` visits, each once, every node after all of the
/// nodes that use it.
pub proof fn lemma_topological_order(ops: Seq<Op>, root: usize)
    requires
        is_arena(ops),
        root < ops.len(),
    ensures
        descending_reach(ops, root).len() > 0,
        descending_reach(ops, root)[0] == root,
        forall|i: int, j: int| 0 <= i < j < descending_reach(ops, root).len()
            ==> descending_reach(ops, root)[i] > descending_reach(ops, root)[j],
        forall|x: usize| #[trigger] descending_reach(ops, root).contains(x)
            <==> visit_order(ops, root).contains(x),
{
    lemma_visit_order(ops, root);
    lemma_walk(ops, seq![root], Seq::new(ops.len(), |i: int| false), root);
    let mask = reached(ops, root);
    lemma_marked_below(mask, root + 1);
    let d = descending_reach(ops, root);
    let o = visit_order(ops, root);
    assert forall|x: usize| #[trigger] d.contains(x) <==> o.contains(x) by {
        if o.contains(x) {
            let j = choose|j: int| 0 <= j < o.len() && o[j] == x;
            assert(o[j] <= root);
        }
    }
    assert(o[0] == root);
    assert(o.contains(root));
    assert(d.contains(root));
    let j = choose|j: int| 0 <= j < d.len() && d[j] == root;
    if j > 0 {
        assert(d[0] > d[j]);
        assert(d.contains(d[0]));
        assert(o.contains(d[0]));
        let i = choose|i: int| 0 <= i < o.len() && o[i] == d[0];
        assert(o[i] <= root);
    }
}

proof fn lemma_steps_descending(ops: Seq<Op>, order: Seq<usize>)
    requires
        is_arena(ops),
        forall|i: int| 0 <= i < order.len() ==> order[i] < ops.len(),
        forall|i: int, j: int| 0 <= i < j < order.len() ==> order[i] > order[j],
    ensures
        forall|i: int, j: int| 0 <= i < steps_of(ops, order).len() && 0 <= j < steps_of(ops, order).len()
            && steps_of(ops, order)[j].source > steps_of(ops, order)[i].source ==> j < i,
    decreases order.len(),
{
    if order.len() > 0 {
        let n = order.last();
        let rest = order.drop_last();
        lemma_steps_descending(ops, rest);
        lemma_steps_of(ops, rest);
        lemma_local_steps(ops, n);
        let head = steps_of(ops, rest);
        let local = local_steps(ops, n);
        let all = steps_of(ops, order);
        assert(all == head + local);
        assert forall|k: int| 0 <= k < head.len() implies #[trigger] head[k].source > n by {
            let j = choose|j: int| 0 <= j < rest.len() && rest[j] == head[k].source;
            assert(order[j] > order[order.len() - 1]);
        }
        assert forall|i: int, j: int| 0 <= i < all.len() && 0 <= j < all.len()
            && all[j].source > all[i].source implies j < i by {
            if j >= head.len() {
                assert(all[j] == local[j - head.len()]);
                if i < head.len() {
                    assert(all[i] == head[i]);
                } else {
                    assert(all[i] == local[i - head.len()]);
                }
            } else if i < head.len() {
                assert(all[i] == head[i]);
                assert(all[j] == head[j]);
            }
        }
    }
}

/// In the reverse topological pass from `root`, every step that adds to a
/// node's gradient comes before every step that reads it, and no step adds
/// to the gradient of `root`.
pub proof fn lemma_topological_plan(ops: Seq<Op>, root: usize)
    requires
        is_arena(ops),
        root < ops.len(),
    ensures
        forall|i: int, j: int| 0 <= i < topological_steps(ops, root).len()
            && 0 <= j < topological_steps(ops, root).len()
            && topological_steps(ops, root)[j].target == topological_steps(ops, root)[i].source
            ==> j < i,
        forall|k: int| 0 <= k < topological_steps(ops, root).len()
            ==> (#[trigger] topological_steps(ops, root)[k]).target < root,
{
    lemma_topological_order(ops, root);
    let d = descending_reach(ops, root);
    assert forall|i: int| 0 <= i < d.len() implies d[i] < ops.len() && d[i] <= root by {
        if i > 0 {
            assert(d[0] > d[i]);
        }
    }
    lemma_steps_of(ops, d);
    lemma_steps_descending(ops, d);
    let p = topological_steps(ops, root);
    assert forall|k: int| 0 <= k < p.len() implies (#[trigger] p[k]).target < root by {
        let j = choose|j: int| 0 <= j < d.len() && d[j] == p[k].source;
    }
}

} // verus!
