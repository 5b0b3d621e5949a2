use compgraph::compgraph::{ComputeMut, Graph};
use std::cell::Cell;
use std::rc::Rc;

/// The combiners the worked examples use. Values travel through the
/// graph as `f32` bit patterns.
enum Op {
    Add,
    Mul,
    Sin,
    PowF,
    Add3,
}

impl ComputeMut for Op {
    // Ghost member of the trait; never called at runtime.
    fn spec_compute(&self, _args: vstd::seq::Seq<u32>) -> u32 {
        panic!()
    }

    fn compute(&self, args: &Vec<u32>) -> u32 {
        match self {
            Op::Add => f32::to_bits(f32::from_bits(args[0]) + f32::from_bits(args[1])),
            Op::Mul => f32::to_bits(f32::from_bits(args[0]) * f32::from_bits(args[1])),
            Op::Sin => f32::to_bits(f32::from_bits(args[0]).sin()),
            Op::PowF => f32::to_bits(f32::from_bits(args[0]).powf(f32::from_bits(args[1]))),
            Op::Add3 => f32::to_bits(
                f32::from_bits(args[0]) + f32::from_bits(args[1]) + f32::from_bits(args[2]),
            ),
        }
    }
}

fn round(x: f32, precision: u32) -> f32 {
    let m = 10i32.pow(precision) as f32;
    (x * m).round() / m
}

#[test]
fn it_works() {
    let mut g: Graph<Op> = Graph::new();
    let a = g.create_constant(f32::to_bits(2.0));
    let b = g.create_constant(f32::to_bits(4.0));
    let graph = g.define_node(vec![a, b], Op::Add);
    assert_eq!(f32::from_bits(g.compute(graph)), 6.0);
}

#[test]
fn constant() {
    let mut g: Graph<Op> = Graph::new();
    let c3 = g.create_constant(f32::to_bits(3.0));
    let c2 = g.create_constant(f32::to_bits(2.0));
    let c7 = g.create_constant(f32::to_bits(7.0));
    let m = g.define_node(vec![c2, c7], Op::Mul);
    let graph = g.define_node(vec![c3, m], Op::Add);
    assert_eq!(f32::from_bits(g.compute(graph)), 17.0);
}

#[test]
fn example_from_pdf() {
    let mut g: Graph<Op> = Graph::new();
    let x1 = g.create_input();
    let x2 = g.create_input();
    let x3 = g.create_input();

    let e3 = g.create_constant(f32::to_bits(3.0));
    let pw = g.define_node(vec![x3, e3], Op::PowF);
    let inner = g.define_node(vec![x2, pw], Op::Add);
    let sn = g.define_node(vec![inner], Op::Sin);
    let ml = g.define_node(vec![x2, sn], Op::Mul);
    let graph = g.define_node(vec![x1, ml], Op::Add);

    g.set_value(x1, f32::to_bits(1.0));
    g.set_value(x2, f32::to_bits(2.0));
    g.set_value(x3, f32::to_bits(3.0));

    let mut result = f32::from_bits(g.compute(graph));
    result = round(result, 5);
    assert_eq!(round(result, 5), -0.32727);

    g.set_value(x1, f32::to_bits(2.0));
    g.set_value(x2, f32::to_bits(3.0));
    g.set_value(x3, f32::to_bits(4.0));
    result = f32::from_bits(g.compute(graph));
    result = round(result, 5);
    assert_eq!(round(result, 5), -0.56656);
}

#[test]
fn cache_invalidation() {
    let mut g: Graph<Op> = Graph::new();
    let x1 = g.create_input();
    let x2 = g.create_input();
    let x3 = g.create_input();
    g.set_value(x1, f32::to_bits(0.0));
    g.set_value(x2, f32::to_bits(0.0));
    g.set_value(x3, f32::to_bits(0.0));
    let y1 = g.define_node(vec![x1], Op::Sin);
    let y2 = g.define_node(vec![y1, x2], Op::Mul);
    let y3 = g.define_node(vec![y1, y2, x3], Op::Add3);

    let ix1 = g.create_probe();
    g.subscribe_to_invalidate(x1, ix1);
    let ix2 = g.create_probe();
    g.subscribe_to_invalidate(x2, ix2);
    let ix3 = g.create_probe();
    g.subscribe_to_invalidate(x3, ix3);
    let iy1 = g.create_probe();
    g.subscribe_to_invalidate(y1, iy1);
    let iy2 = g.create_probe();
    g.subscribe_to_invalidate(y2, iy2);
    let iy3 = g.create_probe();
    g.subscribe_to_invalidate(y3, iy3);

    g.compute(y3);
    assert_eq!(g.probe_count(ix1), 0);
    assert_eq!(g.probe_count(ix2), 0);
    assert_eq!(g.probe_count(ix3), 0);
    assert_eq!(g.probe_count(iy1), 0);
    assert_eq!(g.probe_count(iy2), 0);
    assert_eq!(g.probe_count(iy3), 0);
    g.reset_probe(ix1);
    g.reset_probe(ix2);
    g.reset_probe(ix3);
    g.reset_probe(iy1);
    g.reset_probe(iy2);
    g.reset_probe(iy3);

    g.set_value(x1, f32::to_bits(1.0));
    assert_eq!(g.probe_count(ix1), 1);
    assert_eq!(g.probe_count(ix2), 0);
    assert_eq!(g.probe_count(ix3), 0);
    assert_eq!(g.probe_count(iy1), 1);
    assert_eq!(g.probe_count(iy2), 1);
    assert_eq!(g.probe_count(iy3), 1);
    g.reset_probe(ix1);
    g.reset_probe(ix2);
    g.reset_probe(ix3);
    g.reset_probe(iy1);
    g.reset_probe(iy2);
    g.reset_probe(iy3);
    g.compute(y3);

    g.set_value(x2, f32::to_bits(2.0));
    assert_eq!(g.probe_count(ix1), 0);
    assert_eq!(g.probe_count(ix2), 1);
    assert_eq!(g.probe_count(ix3), 0);
    assert_eq!(g.probe_count(iy1), 0);
    assert_eq!(g.probe_count(iy2), 1);
    assert_eq!(g.probe_count(iy3), 1);
    g.reset_probe(ix1);
    g.reset_probe(ix2);
    g.reset_probe(ix3);
    g.reset_probe(iy1);
    g.reset_probe(iy2);
    g.reset_probe(iy3);
    g.compute(y3);

    g.set_value(x3, f32::to_bits(3.0));
    assert_eq!(g.probe_count(ix1), 0);
    assert_eq!(g.probe_count(ix2), 0);
    assert_eq!(g.probe_count(ix3), 1);
    assert_eq!(g.probe_count(iy1), 0);
    assert_eq!(g.probe_count(iy2), 0);
    assert_eq!(g.probe_count(iy3), 1);
    g.reset_probe(ix1);
    g.reset_probe(ix2);
    g.reset_probe(ix3);
    g.reset_probe(iy1);
    g.reset_probe(iy2);
    g.reset_probe(iy3);
    g.compute(y3);

    g.set_value(x1, f32::to_bits(11.0));
    g.set_value(x2, f32::to_bits(12.0));
    g.set_value(x3, f32::to_bits(13.0));
    assert_eq!(g.probe_count(ix1), 1);
    assert_eq!(g.probe_count(ix2), 1);
    assert_eq!(g.probe_count(ix3), 1);
    assert_eq!(g.probe_count(iy1), 1);
    assert_eq!(g.probe_count(iy2), 1);
    assert_eq!(g.probe_count(iy3), 1);
}

/// A combiner that counts how often it runs, through a shared cell.
struct CountingAdd {
    calls: Rc<Cell<u32>>,
}

impl ComputeMut for CountingAdd {
    // Ghost member of the trait; never called at runtime.
    fn spec_compute(&self, _args: vstd::seq::Seq<u32>) -> u32 {
        panic!()
    }

    fn compute(&self, args: &Vec<u32>) -> u32 {
        self.calls.set(self.calls.get() + 1);
        f32::to_bits(f32::from_bits(args[0]) + f32::from_bits(args[1]))
    }
}

#[test]
fn repeated_compute_runs_combiner_once() {
    let calls = Rc::new(Cell::new(0u32));
    let mut g: Graph<CountingAdd> = Graph::new();
    let x = g.create_input();
    let c = g.create_constant(f32::to_bits(1.5));
    let y = g.define_node(vec![x, c], CountingAdd { calls: calls.clone() });

    g.set_value(x, f32::to_bits(2.0));
    let first = g.compute(y);
    let second = g.compute(y);
    let third = g.compute(y);
    assert_eq!(first, second);
    assert_eq!(second, third);
    assert_eq!(f32::from_bits(first), 3.5);
    assert_eq!(calls.get(), 1);

    g.set_value(x, f32::to_bits(4.0));
    assert_eq!(f32::from_bits(g.compute(y)), 5.5);
    assert_eq!(f32::from_bits(g.compute(y)), 5.5);
    assert_eq!(calls.get(), 2);
}

#[test]
fn diamond_sharing_invalidates_once() {
    // x feeds both arms of a diamond; one change must reach the join exactly
    // once even though two paths converge on it.
    let mut g: Graph<Op> = Graph::new();
    let x = g.create_input();
    let c1 = g.create_constant(f32::to_bits(1.0));
    let c2 = g.create_constant(f32::to_bits(2.0));
    let left = g.define_node(vec![x, c1], Op::Add);
    let right = g.define_node(vec![x, c2], Op::Mul);
    let join = g.define_node(vec![left, right], Op::Add);
    let other = g.create_input();

    let px = g.create_probe();
    g.subscribe_to_invalidate(x, px);
    let pl = g.create_probe();
    g.subscribe_to_invalidate(left, pl);
    let pr = g.create_probe();
    g.subscribe_to_invalidate(right, pr);
    let pj = g.create_probe();
    g.subscribe_to_invalidate(join, pj);
    let po = g.create_probe();
    g.subscribe_to_invalidate(other, po);

    g.set_value(x, f32::to_bits(3.0));
    assert_eq!(f32::from_bits(g.compute(join)), 10.0);

    g.reset_probe(px);
    g.reset_probe(pl);
    g.reset_probe(pr);
    g.reset_probe(pj);
    g.reset_probe(po);

    g.set_value(x, f32::to_bits(5.0));
    assert_eq!(g.probe_count(px), 1);
    assert_eq!(g.probe_count(pl), 1);
    assert_eq!(g.probe_count(pr), 1);
    assert_eq!(g.probe_count(pj), 1);
    assert_eq!(g.probe_count(po), 0);
    assert_eq!(f32::from_bits(g.compute(join)), 16.0);
}

#[test]
fn invalidating_empty_cache_does_not_rebroadcast() {
    let mut g: Graph<Op> = Graph::new();
    let x = g.create_input();
    let y = g.define_node(vec![x], Op::Sin);
    let z = g.define_node(vec![y], Op::Sin);
    let py = g.create_probe();
    g.subscribe_to_invalidate(y, py);

    g.compute(z);
    g.invalidate_cache(y);
    assert_eq!(g.probe_count(py), 1);
    // `y` is already empty: a second invalidation must not broadcast again.
    g.invalidate_cache(y);
    assert_eq!(g.probe_count(py), 1);

    // The same holds through `set_value`: the second set finds `y` already
    // dirty, so `y` publishes nothing new.
    g.compute(z);
    g.reset_probe(py);
    g.set_value(x, f32::to_bits(1.0));
    g.set_value(x, f32::to_bits(1.0));
    assert_eq!(g.probe_count(py), 1);
}

#[test]
fn set_broadcasts_even_when_value_is_unchanged() {
    let mut g: Graph<Op> = Graph::new();
    let x = g.create_input();
    let px = g.create_probe();
    g.subscribe_to_invalidate(x, px);
    g.set_value(x, f32::to_bits(7.0));
    g.set_value(x, f32::to_bits(7.0));
    assert_eq!(g.probe_count(px), 2);
}

#[test]
fn dead_subscribers_are_pruned_lazily() {
    let mut g: Graph<Op> = Graph::new();
    let x = g.create_input();
    let y = g.define_node(vec![x], Op::Sin);
    let p = g.create_probe();
    g.subscribe_to_invalidate(x, p);
    assert_eq!(g.subscriber_count(x), 2);

    g.compute(y);
    g.release_node(y);
    g.release_probe(p);
    // The entries are still recorded; the next publish completes without
    // error, prunes them, and leaves only live subscribers behind.
    g.set_value(x, f32::to_bits(1.0));
    assert_eq!(g.subscriber_count(x), 0);
    assert_eq!(g.probe_count(p), 0);
    g.set_value(x, f32::to_bits(2.0));
    assert_eq!(g.subscriber_count(x), 0);
}

#[test]
fn input_starts_at_zero() {
    let mut g: Graph<Op> = Graph::new();
    assert_eq!(g.node_count(), 0);
    let x = g.create_input();
    assert_eq!(g.node_count(), 1);
    assert_eq!(f32::from_bits(g.compute(x)), 0.0);
}

#[test]
fn publish_with_no_subscribers_is_a_noop() {
    let mut g: Graph<Op> = Graph::new();
    let x = g.create_input();
    g.set_value(x, f32::to_bits(9.0));
    assert_eq!(f32::from_bits(g.compute(x)), 9.0);
    g.publish_invalidate(x);
    assert_eq!(g.subscriber_count(x), 0);
}

#[test]
fn subscribing_to_a_constant_is_a_noop() {
    let mut g: Graph<Op> = Graph::new();
    let c = g.create_constant(f32::to_bits(1.0));
    let p = g.create_probe();
    g.subscribe_to_invalidate(c, p);
    assert_eq!(g.subscriber_count(c), 0);
    assert_eq!(f32::from_bits(g.compute(c)), 1.0);
}

#[test]
fn caches_refill_only_on_demand() {
    let mut g: Graph<Op> = Graph::new();
    let x = g.create_input();
    let y = g.define_node(vec![x], Op::Sin);
    let z = g.define_node(vec![y], Op::Sin);
    assert!(!g.is_cached(y));
    assert!(!g.is_cached(z));
    g.compute(z);
    assert!(g.is_cached(y));
    assert!(g.is_cached(z));
    g.set_value(x, f32::to_bits(1.0));
    assert!(!g.is_cached(y));
    assert!(!g.is_cached(z));
    g.compute(y);
    assert!(g.is_cached(y));
    assert!(!g.is_cached(z));
}
