use autograd::backward::{backward_order, backward_plan, rule_of, Factor, Step};
use autograd::graph::{Graph, Op};
use autograd::topological::{topological_order, topological_plan};

/// Values and gradients kept beside the arena, as a numeric layer does.
struct Net {
    graph: Graph,
    consts: Vec<f64>,
    values: Vec<f64>,
    grads: Vec<f64>,
}

impl Net {
    fn new() -> Net {
        Net { graph: Graph::new(), consts: vec![], values: vec![], grads: vec![] }
    }

    fn record(&mut self, id: usize, k: f64, v: f64) -> usize {
        assert_eq!(id, self.values.len());
        self.consts.push(k);
        self.values.push(v);
        self.grads.push(0.0);
        id
    }

    fn leaf(&mut self, v: f64) -> usize {
        let id = self.graph.leaf();
        self.record(id, v, v)
    }

    fn add(&mut self, a: usize, b: usize) -> usize {
        let id = self.graph.add(a, b);
        let v = self.values[a] + self.values[b];
        self.record(id, 0.0, v)
    }

    fn multiply(&mut self, a: usize, b: usize) -> usize {
        let id = self.graph.multiply(a, b);
        let v = self.values[a] * self.values[b];
        self.record(id, 0.0, v)
    }

    fn power(&mut self, a: usize, k: f64) -> usize {
        let id = self.graph.power(a);
        let v = self.values[a].powf(k);
        self.record(id, k, v)
    }

    fn relu(&mut self, a: usize) -> usize {
        let id = self.graph.relu(a);
        let v = f64::max(0.0, self.values[a]);
        self.record(id, 0.0, v)
    }

    fn backward(&mut self, root: usize) {
        let plan = backward_plan(&self.graph, root);
        self.run(root, plan);
    }

    fn backward_topological(&mut self, root: usize) {
        let plan = topological_plan(&self.graph, root);
        self.run(root, plan);
    }

    fn run(&mut self, root: usize, plan: Vec<Step>) {
        self.grads[root] = 1.0;
        for s in plan {
            let g = self.grads[s.source];
            let f = match s.factor {
                Factor::One => 1.0,
                Factor::ValueOf(i) => self.values[i],
                Factor::PowerSlope => {
                    let k = self.consts[s.source];
                    k * self.values[s.target].powf(k - 1.0)
                }
                Factor::PositiveGate => if g > 0.0 { 1.0 } else { 0.0 },
            };
            self.grads[s.target] += f * g;
        }
    }
}

#[test]
fn values_of_each_operation() {
    let mut n = Net::new();
    let a = n.leaf(1.5);
    let b = n.leaf(-4.0);
    let s = n.add(a, b);
    let p = n.multiply(a, b);
    let q = n.power(a, 3.0);
    let r1 = n.relu(b);
    let r2 = n.relu(a);
    assert_eq!(n.values[s], -2.5);
    assert_eq!(n.values[p], -6.0);
    assert_eq!(n.values[q], 3.375);
    assert_eq!(n.values[r1], 0.0);
    assert_eq!(n.values[r2], 1.5);
}

#[test]
fn product_of_two_leaves() {
    let mut n = Net::new();
    let a = n.leaf(3.0);
    let b = n.leaf(4.0);
    let c = n.multiply(a, b);
    assert_eq!(n.values[c], 12.0);
    n.backward(c);
    assert_eq!(n.grads[a], 4.0);
    assert_eq!(n.grads[b], 3.0);
    assert_eq!(n.grads[c], 1.0);
}

#[test]
fn power_rule() {
    let mut n = Net::new();
    let a = n.leaf(2.0);
    let p = n.power(a, 3.0);
    assert_eq!(n.values[p], 8.0);
    n.backward(p);
    assert_eq!(n.grads[a], 12.0);
}

#[test]
fn relu_gates_on_output_gradient() {
    let mut n = Net::new();
    let a = n.leaf(-5.0);
    let r = n.relu(a);
    assert_eq!(n.values[r], 0.0);
    n.backward(r);
    // The rectifier passes a positive upstream gradient whatever its input.
    assert_eq!(n.grads[a], 1.0);
}

#[test]
fn relu_blocks_negative_gradient() {
    let mut n = Net::new();
    let a = n.leaf(3.0);
    let r = n.relu(a);
    let m = n.leaf(-2.0);
    let y = n.multiply(r, m);
    n.backward(y);
    assert_eq!(n.grads[r], -2.0);
    assert_eq!(n.grads[a], 0.0);
}

#[test]
fn diamond_with_shared_leaf() {
    let mut n = Net::new();
    let x = n.leaf(2.0);
    let m = n.multiply(x, x);
    let y = n.add(m, x);
    assert_eq!(n.values[y], 6.0);
    n.backward(y);
    assert_eq!(n.grads[x], 5.0);
    assert_eq!(backward_order(&n.graph, y), vec![y, m, x]);
}

#[test]
fn shared_inner_node_is_finalized_on_first_visit() {
    // y = u + 2u with u = x*x: the walk reaches u from y before the product
    // has added its share, so only the first path reaches x (6, not 18).
    let mut n = Net::new();
    let x = n.leaf(3.0);
    let u = n.multiply(x, x);
    let two = n.leaf(2.0);
    let m = n.multiply(u, two);
    let y = n.add(u, m);
    assert_eq!(n.values[y], 27.0);
    n.backward(y);
    assert_eq!(backward_order(&n.graph, y), vec![y, u, x, m, two]);
    assert_eq!(n.grads[u], 3.0);
    assert_eq!(n.grads[x], 6.0);
    assert_eq!(n.grads[two], 9.0);
}

#[test]
fn root_gradient_is_one_after_backward() {
    let mut n = Net::new();
    let a = n.leaf(0.5);
    let b = n.leaf(-1.5);
    let c = n.add(a, b);
    let d = n.relu(c);
    let e = n.power(c, 2.0);
    let f = n.add(d, e);
    n.grads[f] = 7.0;
    n.backward(f);
    assert_eq!(n.grads[f], 1.0);
    for s in backward_plan(&n.graph, f) {
        assert!(s.target < f);
    }
}

fn chain(a: f64) -> (f64, f64) {
    let mut n = Net::new();
    let n1 = n.leaf(12.0);
    let n2 = n.leaf(5.0);
    let n3 = n.leaf(7.0);
    let s1 = n.add(n1, n2);
    let s2 = n.add(s1, n3);
    let x = n.leaf(7.0 + a);
    let p = n.multiply(x, s2);
    let two = n.leaf(2.0);
    let q = n.multiply(p, two);
    let r = n.power(q, 2.0);
    n.backward(r);
    (n.values[r], n.grads[x])
}

#[test]
fn gradient_matches_finite_difference() {
    let eps = 1e-6;
    let (f0, g) = chain(0.0);
    let (f1, _) = chain(eps);
    let approx = (f1 - f0) / eps;
    assert_eq!(f0, 112896.0);
    assert_eq!(g, 32256.0);
    assert!((approx - g).abs() / g < 1e-4);
}

fn unit_loss(w1: f64, w2: f64, b: f64) -> (f64, [f64; 3]) {
    let mut n = Net::new();
    let pw1 = n.leaf(w1);
    let pw2 = n.leaf(w2);
    let pb = n.leaf(b);
    let x1 = n.leaf(1.0);
    let x2 = n.leaf(2.0);
    let t1 = n.multiply(pw1, x1);
    let t2 = n.multiply(pw2, x2);
    let s = n.add(t1, t2);
    let z = n.add(s, pb);
    let pred = n.relu(z);
    let target = n.leaf(0.5);
    let minus = n.leaf(-1.0);
    let neg = n.multiply(minus, pred);
    let diff = n.add(target, neg);
    let loss = n.power(diff, 2.0);
    n.backward(loss);
    (n.values[loss], [n.grads[pw1], n.grads[pw2], n.grads[pb]])
}

#[test]
fn one_descent_step_reduces_loss() {
    let (w1, w2, b) = (0.5, 0.25, 0.1);
    let lr = 0.01;
    let (before, g) = unit_loss(w1, w2, b);
    let (after, _) = unit_loss(w1 - lr * g[0], w2 - lr * g[1], b - lr * g[2]);
    assert!(after < before);
}

#[test]
fn rule_of_each_operation() {
    let mut g = Graph::new();
    let a = g.leaf();
    let b = g.leaf();
    let s = g.add(a, b);
    let m = g.multiply(a, b);
    let p = g.power(a);
    let r = g.relu(b);
    assert_eq!(rule_of(&g, a), vec![]);
    assert_eq!(
        rule_of(&g, s),
        vec![
            Step { source: s, target: a, factor: Factor::One },
            Step { source: s, target: b, factor: Factor::One },
        ]
    );
    assert_eq!(
        rule_of(&g, m),
        vec![
            Step { source: m, target: a, factor: Factor::ValueOf(b) },
            Step { source: m, target: b, factor: Factor::ValueOf(a) },
        ]
    );
    assert_eq!(rule_of(&g, p), vec![Step { source: p, target: a, factor: Factor::PowerSlope }]);
    assert_eq!(rule_of(&g, r), vec![Step { source: r, target: b, factor: Factor::PositiveGate }]);
}

#[test]
fn arena_records_operations_and_operands() {
    let mut g = Graph::new();
    assert_eq!(g.len(), 0);
    let a = g.leaf();
    let b = g.leaf();
    let m = g.multiply(b, a);
    assert_eq!(g.len(), 3);
    assert_eq!(g.op(m), Op::Multiply(b, a));
    assert_eq!(g.children(m), vec![b, a]);
    assert_eq!(g.children(a), Vec::<usize>::new());
}

#[test]
fn plan_of_a_leaf_is_empty() {
    let mut g = Graph::new();
    let a = g.leaf();
    assert_eq!(backward_order(&g, a), vec![a]);
    assert!(backward_plan(&g, a).is_empty());
}

#[test]
fn order_skips_nodes_the_root_does_not_use() {
    let mut g = Graph::new();
    let a = g.leaf();
    let b = g.leaf();
    let _unused = g.add(a, b);
    let r = g.relu(b);
    assert_eq!(backward_order(&g, r), vec![r, b]);
}

#[test]
fn topological_pass_gets_full_gradient_of_shared_node() {
    let mut n = Net::new();
    let x = n.leaf(3.0);
    let u = n.multiply(x, x);
    let two = n.leaf(2.0);
    let m = n.multiply(u, two);
    let y = n.add(u, m);
    assert_eq!(topological_order(&n.graph, y), vec![y, m, two, u, x]);
    n.backward_topological(y);
    assert_eq!(n.grads[y], 1.0);
    assert_eq!(n.grads[u], 3.0);
    assert_eq!(n.grads[x], 18.0);
    assert_eq!(n.grads[two], 9.0);
}

#[test]
fn topological_pass_on_diamond() {
    let mut n = Net::new();
    let x = n.leaf(2.0);
    let m = n.multiply(x, x);
    let y = n.add(m, x);
    n.backward_topological(y);
    assert_eq!(n.grads[x], 5.0);
    assert_eq!(n.grads[y], 1.0);
}

#[test]
fn topological_order_skips_unused_nodes() {
    let mut g = Graph::new();
    let a = g.leaf();
    let b = g.leaf();
    let c = g.add(a, b);
    let d = g.relu(a);
    let _e = g.multiply(c, d);
    assert_eq!(topological_order(&g, d), vec![d, a]);
    assert_eq!(
        topological_plan(&g, d),
        vec![Step { source: d, target: a, factor: Factor::PositiveGate }]
    );
}

/// x*x + relu(x*x) * x, with x*x shared; returns the value and d/dx.
fn shared_square(x0: f64) -> (f64, f64) {
    let mut n = Net::new();
    let x = n.leaf(x0);
    let sq = n.multiply(x, x);
    let r = n.relu(sq);
    let t = n.multiply(r, x);
    let y = n.add(sq, t);
    n.backward_topological(y);
    (n.values[y], n.grads[x])
}

#[test]
fn topological_gradient_matches_finite_difference() {
    let eps = 1e-6;
    let (f0, g) = shared_square(1.5);
    let (f1, _) = shared_square(1.5 + eps);
    assert_eq!(g, 2.0 * 1.5 + 3.0 * 1.5 * 1.5);
    assert!(((f1 - f0) / eps - g).abs() < 1e-4);
}
