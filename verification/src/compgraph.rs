//! The dataflow graph: nodes, publishers, caches, and the invalidation
//! cascade.
//!
//! All nodes of one graph live in a single arena (`Graph::nodes`) and are
//! addressed by index. A `Computed` node may only depend on nodes with
//! strictly smaller indices, which is enforced at construction time; the
//! dependency relation is therefore a DAG by construction, and both
//! evaluation (which pulls values from dependencies) and invalidation (which
//! pushes staleness to dependents) terminate.
//!
//! Values are opaque 32-bit words. The graph never interprets them; an
//! application stores whatever scalar encoding it likes (for instance the bit
//! pattern of its floating-point type) and supplies the combining functions
//! through the `ComputeMut` trait.

use vstd::prelude::*;

verus! {

broadcast use vstd::seq_lib::lemma_seq_contains_after_push;

/// A pure combining step for a computed node.
///
/// Implementors receive the already-evaluated dependency values in
/// declaration order and return the combined value. The step must be a pure
/// function of its arguments: `spec_compute` names that function, and
/// `compute` promises to agree with it. The graph's contracts (in particular
/// cache coherence) hold for impls that keep this promise; the library itself
/// never interprets the values.
pub trait ComputeMut {
    /// The mathematical function this combiner implements.
    spec fn spec_compute(&self, args: Seq<u32>) -> u32;

    /// Apply the combiner to the dependency values, in declaration order.
    fn compute(&self, args: &Vec<u32>) -> (r: u32)
        ensures
            r == self.spec_compute(args@),
    ;
}

/// A non-owning reference to an invalidation target: either a dependent
/// node's cache (internal wiring) or a counting probe (instrumentation).
/// An entry whose target has been released is dead; dead entries are pruned
/// lazily during publication and are never an error.
#[derive(Clone, Copy)]
pub enum Subscriber {
    /// The cache of the computed node with this index.
    Dependent(usize),
    /// The counting probe with this index.
    Probe(usize),
}

/// Holds the non-owning subscriber references of one node and broadcasts
/// staleness to them. The broadcast itself needs access to the whole arena,
/// so it lives on `Graph` (`publish_invalidate`); this type owns the list.
pub struct InvalidatePublisher {
    pub subscribers: Vec<Subscriber>,
}

impl InvalidatePublisher {
    /// A publisher with no subscribers yet.
    pub fn new() -> (r: InvalidatePublisher)
        ensures
            r.subscribers@ =~= Seq::<Subscriber>::empty(),
    {
        InvalidatePublisher { subscribers: Vec::new() }
    }

    /// Record a subscriber. No deduplication: repeated subscriptions all
    /// fire independently.
    pub fn subscribe_to_invalidate(&mut self, subscriber: Subscriber)
        ensures
            final(self).subscribers@ =~= old(self).subscribers@.push(subscriber),
    {
        self.subscribers.push(subscriber);
    }
}

/// The one-slot memo of a computed node together with the publisher through
/// which the node forwards invalidation. An empty slot means dirty; a full
/// slot is only ever equal to the true result of re-evaluating the node over
/// the current dependency values (see `Graph::caches_correct`).
pub struct CachingNodeWrapper {
    pub cached_value: Option<u32>,
    pub invalidate_publisher: InvalidatePublisher,
}

impl CachingNodeWrapper {
    /// A wrapper that starts dirty, with a fresh publisher.
    pub fn new() -> (r: CachingNodeWrapper)
        ensures
            r.cached_value is None,
            r.invalidate_publisher.subscribers@ =~= Seq::<Subscriber>::empty(),
    {
        CachingNodeWrapper { cached_value: None, invalidate_publisher: InvalidatePublisher::new() }
    }
}

/// A graph vertex. `C` is the application's combiner type.
pub enum Node<C> {
    /// A literal: never changes, never cached, never publishes.
    Constant { value: u32 },
    /// A mutable leaf with its own publisher.
    Input { value: u32, invalidate_publisher: InvalidatePublisher },
    /// A derived node: dependencies in declaration order (each index strictly
    /// smaller than the node's own), the combiner, and the memo slot.
    Computed { deps: Vec<usize>, combiner: C, wrapper: CachingNodeWrapper },
}

/// An invalidation counter for instrumentation: it records how many times
/// the publishers it subscribes to have fired.
pub struct Probe {
    pub count: u64,
    pub live: bool,
}

/// The arena holding every node of one dataflow graph.
///
/// `live[i]` records whether node `i` is still owned; releasing a node makes
/// its subscriber entries dead, to be pruned lazily. `probes` holds the
/// instrumentation counters.
pub struct Graph<C> {
    pub nodes: Vec<Node<C>>,
    pub live: Vec<bool>,
    pub probes: Vec<Probe>,
}

impl<C> Graph<C> {
    /// Number of nodes in the arena.
    pub open spec fn n(self) -> int {
        self.nodes@.len() as int
    }

    /// Number of probes.
    pub open spec fn n_probes(self) -> int {
        self.probes@.len() as int
    }

    pub open spec fn is_constant(self, i: int) -> bool {
        self.nodes@[i] is Constant
    }

    pub open spec fn is_input(self, i: int) -> bool {
        self.nodes@[i] is Input
    }

    pub open spec fn is_computed(self, i: int) -> bool {
        self.nodes@[i] is Computed
    }

    /// The stored value of a leaf (constant or input); `0` for computed nodes.
    pub open spec fn stored(self, i: int) -> u32 {
        match self.nodes@[i] {
            Node::Constant { value } => value,
            Node::Input { value, .. } => value,
            Node::Computed { .. } => 0u32,
        }
    }

    /// The dependency list of a computed node; empty for leaves.
    pub open spec fn deps(self, i: int) -> Seq<usize> {
        match self.nodes@[i] {
            Node::Computed { deps, .. } => deps@,
            _ => Seq::empty(),
        }
    }

    /// The combiner of a computed node.
    pub open spec fn comb(self, i: int) -> C
        recommends
            self.is_computed(i),
    {
        match self.nodes@[i] {
            Node::Computed { combiner, .. } => combiner,
            _ => arbitrary(),
        }
    }

    /// The subscriber list of a node's publisher; empty for constants.
    pub open spec fn subs(self, i: int) -> Seq<Subscriber> {
        match self.nodes@[i] {
            Node::Constant { .. } => Seq::empty(),
            Node::Input { invalidate_publisher, .. } => invalidate_publisher.subscribers@,
            Node::Computed { wrapper, .. } => wrapper.invalidate_publisher.subscribers@,
        }
    }

    /// The memo slot of a computed node; `None` for leaves.
    pub open spec fn cache(self, i: int) -> Option<u32> {
        match self.nodes@[i] {
            Node::Computed { wrapper, .. } => wrapper.cached_value,
            _ => None,
        }
    }

    pub open spec fn node_live(self, i: int) -> bool {
        self.live@[i]
    }

    pub open spec fn probe_live(self, p: int) -> bool {
        self.probes@[p].live
    }

    pub open spec fn probe_total(self, p: int) -> u64 {
        self.probes@[p].count
    }

    /// A node is clean when it holds a memoized value (leaves always are).
    pub open spec fn clean(self, i: int) -> bool {
        self.is_computed(i) ==> self.cache(i) is Some
    }

    /// Whether a subscriber entry's target is still owned.
    pub open spec fn target_live(self, s: Subscriber) -> bool {
        match s {
            Subscriber::Dependent(j) => self.live@[j as int],
            Subscriber::Probe(p) => self.probes@[p as int].live,
        }
    }

    /// A single subscriber entry of publisher `i` is well formed: a dependent
    /// entry names a computed node above `i` that really lists `i` among its
    /// dependencies, and a probe entry names an existing probe.
    pub open spec fn sub_ok(self, i: int, s: Subscriber) -> bool {
        match s {
            Subscriber::Dependent(j) => {
                &&& i < j < self.n()
                &&& self.is_computed(j as int)
                &&& 0 <= i < self.n()
                &&& self.deps(j as int).contains(i as usize)
            },
            Subscriber::Probe(p) => 0 <= p < self.n_probes(),
        }
    }

    /// Every dependency edge points strictly downward in the arena.
    pub open spec fn deps_ok(self) -> bool {
        forall|i: int, k: int|
            0 <= i < self.n() && 0 <= k < self.deps(i).len() ==> (#[trigger] self.deps(i)[k]) < i
    }

    /// Every subscriber entry is well formed.
    pub open spec fn subs_ok(self) -> bool {
        forall|i: int, k: int|
            0 <= i < self.n() && 0 <= k < self.subs(i).len() ==> self.sub_ok(
                i,
                #[trigger] self.subs(i)[k],
            )
    }

    /// A live node only depends on live nodes (dependents own their
    /// dependencies, so a dependency cannot be released first).
    pub open spec fn live_deps_ok(self) -> bool {
        forall|j: int, k: int|
            0 <= j < self.n() && self.node_live(j) && 0 <= k < self.deps(j).len()
                ==> self.node_live(#[trigger] self.deps(j)[k] as int)
    }

    /// Every dependency edge of a live node whose dependency index is at
    /// least `lo` is mirrored by a subscription, except edges to constants:
    /// a constant never changes, so it has no publisher to subscribe to.
    /// During a broadcast the publishing node's own list is temporarily
    /// detached, so the cascade works with a lower bound; the full invariant
    /// is `edges_from(0)`.
    pub open spec fn edges_from(self, lo: int) -> bool {
        forall|j: int, k: int|
            0 <= j < self.n() && self.node_live(j) && 0 <= k < self.deps(j).len()
                && lo <= (#[trigger] self.deps(j)[k] as int) && !self.is_constant(
                self.deps(j)[k] as int,
            ) ==> self.subs(self.deps(j)[k] as int).contains(Subscriber::Dependent(j as usize))
    }

    /// The structural part of well-formedness: consistent lengths, downward
    /// edges, well-formed subscriptions, and live ownership.
    pub open spec fn wf_core(self) -> bool {
        &&& self.nodes@.len() <= usize::MAX
        &&& self.probes@.len() <= usize::MAX
        &&& self.live@.len() == self.nodes@.len()
        &&& self.deps_ok()
        &&& self.subs_ok()
        &&& self.live_deps_ok()
    }

    /// A cache-coherence violation: a live clean node with a dirty
    /// dependency. Well-formed graphs have none; the invalidation cascade
    /// never creates new ones.
    pub open spec fn viol(self, j: int, k: int) -> bool {
        &&& 0 <= j < self.n()
        &&& self.node_live(j)
        &&& self.cache(j) is Some
        &&& 0 <= k < self.deps(j).len()
        &&& !self.clean(self.deps(j)[k] as int)
    }

    /// Every live clean node has only clean dependencies.
    pub open spec fn caches_cd(self) -> bool {
        forall|j: int, k: int| !(#[trigger] self.viol(j, k))
    }
}

impl<C: ComputeMut> Graph<C> {
    /// The true value of node `i`: the stored value of a leaf, or the
    /// combiner applied to the true values of the dependencies. This is the
    /// value `compute` returns, cached or not.
    pub open spec fn eval(self, i: int) -> u32
        decreases i, self.deps(i).len() + 1,
        when self.deps_ok() && 0 <= i < self.n()
    {
        match self.nodes@[i] {
            Node::Constant { value } => value,
            Node::Input { value, .. } => value,
            Node::Computed { .. } => self.comb(i).spec_compute(
                self.eval_deps(i, self.deps(i).len() as int),
            ),
        }
    }

    /// The true values of the first `k` dependencies of node `i`, in order.
    pub open spec fn eval_deps(self, i: int, k: int) -> Seq<u32>
        decreases i, k,
        when self.deps_ok() && 0 <= i < self.n() && k <= self.deps(i).len()
    {
        if k <= 0 {
            Seq::empty()
        } else {
            self.eval_deps(i, k - 1).push(self.eval(self.deps(i)[k - 1] as int))
        }
    }

    /// Every memoized value of a live node equals the node's true value.
    pub open spec fn caches_correct(self) -> bool {
        forall|j: int|
            0 <= j < self.n() && self.node_live(j) && (#[trigger] self.cache(j)) is Some
                ==> self.cache(j) == Some(self.eval(j))
    }

    /// Full well-formedness: structure, subscription mirroring, and cache
    /// coherence. Every public operation preserves it.
    pub open spec fn wf(self) -> bool {
        &&& self.wf_core()
        &&& self.edges_from(0)
        &&& self.caches_cd()
        &&& self.caches_correct()
    }

    /// Node `j` depends, directly or transitively, on node `i`.
    pub open spec fn depends_on(self, j: int, i: int) -> bool
        decreases j,
        when self.deps_ok() && 0 <= j < self.n()
    {
        exists|k: int|
            0 <= k < self.deps(j).len() && ((#[trigger] self.deps(j)[k]) as int == i
                || self.depends_on(self.deps(j)[k] as int, i))
    }
}

impl<C> Graph<C> {
    /// No publisher in the graph holds an entry for probe `p`.
    pub open spec fn unsubscribed(self, p: int) -> bool {
        forall|d: int|
            0 <= d < self.n() ==> !(#[trigger] self.subs(d)).contains(Subscriber::Probe(p as usize))
    }

    /// Probe `p` appears in no publisher but node `i`'s.
    pub open spec fn subscribed_only_at(self, p: int, i: int) -> bool {
        forall|d: int|
            0 <= d < self.n() && d != i ==> !(#[trigger] self.subs(d)).contains(
                Subscriber::Probe(p as usize),
            )
    }

    /// How often `x` occurs among the first `k` entries of `s`.
    pub open spec fn occurrences(s: Seq<Subscriber>, x: Subscriber, k: int) -> nat
        decreases k,
    {
        if k <= 0 || k > s.len() {
            0
        } else {
            Self::occurrences(s, x, k - 1) + (if s[k - 1] == x {
                1nat
            } else {
                0nat
            })
        }
    }

    /// Occurrence counts only grow with the prefix length.
    pub proof fn lemma_occ_monotone(s: Seq<Subscriber>, x: Subscriber, k1: int, k2: int)
        requires
            0 <= k1 <= k2 <= s.len(),
        ensures
            Self::occurrences(s, x, k1) <= Self::occurrences(s, x, k2),
        decreases k2,
    {
        if k1 < k2 {
            Self::lemma_occ_monotone(s, x, k1, k2 - 1);
            if k2 <= s.len() {
                assert(Self::occurrences(s, x, k2) >= Self::occurrences(s, x, k2 - 1));
            }
        }
    }

    /// How a graph may evolve during one invalidation broadcast: shapes,
    /// liveness, and probe liveness are untouched; cache slots are only ever
    /// cleared; subscriber lists only lose entries, and never a live one;
    /// no new coherence violation appears; probe counters only grow, for
    /// live probes only.
    pub open spec fn cascade_core(self, post: Graph<C>) -> bool {
        &&& post.n() == self.n()
        &&& post.live@ == self.live@
        &&& post.n_probes() == self.n_probes()
        &&& forall|p: int|
            0 <= p < self.n_probes() ==> (#[trigger] post.probe_live(p)) == self.probe_live(p)
        &&& forall|j: int| 0 <= j < self.n() ==> #[trigger] post.shape_eq_at(self, j)
        &&& forall|j: int|
            0 <= j < self.n() ==> ((#[trigger] post.cache(j)) == self.cache(j) || post.cache(
                j,
            ) is None)
        &&& forall|d: int, s: Subscriber|
            0 <= d < self.n() && (#[trigger] post.subs(d).contains(s)) ==> self.subs(d).contains(s)
        &&& forall|d: int, s: Subscriber|
            0 <= d < self.n() && (#[trigger] self.subs(d).contains(s)) && self.target_live(s)
                ==> post.subs(d).contains(s)
        &&& forall|j: int, k: int| #[trigger] post.viol(j, k) ==> self.viol(j, k)
        &&& forall|p: int|
            0 <= p < self.n_probes() ==> self.probe_total(p) <= (#[trigger] post.probe_total(p))
        &&& forall|p: int|
            0 <= p < self.n_probes() && !self.probe_live(p) ==> (#[trigger] post.probe_total(p))
                == self.probe_total(p)
    }

    /// `cascade_core` plus: a probe nobody subscribes to is never counted.
    /// (During a broadcast this last clause holds relative to the graph as
    /// the broadcast found it, not to the intermediate states, whose
    /// publishing node has its list detached.)
    pub open spec fn cascade_rel(self, post: Graph<C>) -> bool {
        &&& self.cascade_core(post)
        &&& forall|p: int|
            0 <= p < self.n_probes() && self.unsubscribed(p) ==> (#[trigger] post.probe_total(p))
                == self.probe_total(p)
    }

    /// `cascade_core` composes.
    pub proof fn lemma_cascade_trans(self, mid: Graph<C>, post: Graph<C>)
        requires
            self.wf_core(),
            self.cascade_core(mid),
            mid.cascade_core(post),
        ensures
            self.cascade_core(post),
    {
        assert forall|j: int| 0 <= j < self.n() implies #[trigger] post.shape_eq_at(self, j) by {
            assert(post.shape_eq_at(mid, j));
            assert(mid.shape_eq_at(self, j));
        }
        assert forall|d: int, s: Subscriber|
            0 <= d < self.n() && (#[trigger] self.subs(d).contains(s))
                && self.target_live(s) implies post.subs(d).contains(s) by {
            assert(mid.subs(d).contains(s));
            let m = choose|m: int| 0 <= m < self.subs(d).len() && self.subs(d)[m] == s;
            assert(self.sub_ok(d, s));
            match s {
                Subscriber::Dependent(j2) => {
                    assert(mid.target_live(s) == self.target_live(s));
                },
                Subscriber::Probe(p) => {
                    assert(mid.probe_live(p as int) == self.probe_live(p as int));
                },
            }
        }
    }

    /// Nodes `j` of two graphs agree on everything evaluation reads:
    /// variant, stored value, dependencies, and combiner. Caches, subscriber
    /// lists, liveness, and probes may differ.
    pub open spec fn shape_eq_at(self, other: Graph<C>, j: int) -> bool {
        &&& self.is_constant(j) == other.is_constant(j)
        &&& self.is_input(j) == other.is_input(j)
        &&& self.is_computed(j) == other.is_computed(j)
        &&& self.stored(j) == other.stored(j)
        &&& self.deps(j) == other.deps(j)
        &&& (self.is_computed(j) ==> self.comb(j) == other.comb(j))
    }
}

impl<C: ComputeMut> Graph<C> {
    /// `eval_deps(i, k)` really is the sequence of the first `k` dependency
    /// values, index by index.
    pub proof fn lemma_eval_deps_props(self, i: int, k: int)
        requires
            self.deps_ok(),
            0 <= i < self.n(),
            0 <= k <= self.deps(i).len(),
        ensures
            self.eval_deps(i, k).len() == k,
            forall|m: int|
                0 <= m < k ==> self.eval_deps(i, k)[m] == self.eval(
                    #[trigger] self.deps(i)[m] as int,
                ),
        decreases k,
    {
        if k > 0 {
            self.lemma_eval_deps_props(i, k - 1);
        }
    }

    /// Evaluation only reads the shape of nodes up to `i`: two graphs that
    /// agree there evaluate `i` identically. The law behind idempotence:
    /// filling or clearing caches, subscribing, pruning, or releasing never
    /// changes any node's true value.
    pub proof fn lemma_eval_shape(self, other: Graph<C>, i: int)
        requires
            self.deps_ok(),
            other.deps_ok(),
            0 <= i < self.n(),
            i < other.n(),
            forall|j: int| 0 <= j <= i ==> self.shape_eq_at(other, j),
        ensures
            self.eval(i) == other.eval(i),
        decreases i, self.deps(i).len() + 1,
    {
        assert(self.shape_eq_at(other, i));
        if self.is_computed(i) {
            self.lemma_eval_deps_shape(other, i, self.deps(i).len() as int);
        }
    }

    /// Companion of `lemma_eval_shape` for dependency lists.
    pub proof fn lemma_eval_deps_shape(self, other: Graph<C>, i: int, k: int)
        requires
            self.deps_ok(),
            other.deps_ok(),
            0 <= i < self.n(),
            i < other.n(),
            0 <= k <= self.deps(i).len(),
            forall|j: int| 0 <= j <= i ==> self.shape_eq_at(other, j),
        ensures
            self.eval_deps(i, k) == other.eval_deps(i, k),
        decreases i, k,
    {
        assert(self.shape_eq_at(other, i));
        if k > 0 {
            self.lemma_eval_deps_shape(other, i, k - 1);
            self.lemma_eval_shape(other, self.deps(i)[k - 1] as int);
        }
    }

    /// The dependency relation is transitive.
    pub proof fn lemma_depends_trans(self, a: int, b: int, c: int)
        requires
            self.deps_ok(),
            0 <= a < self.n(),
            0 <= b < self.n(),
            self.depends_on(a, b),
            self.depends_on(b, c),
        ensures
            self.depends_on(a, c),
        decreases a,
    {
        let k = choose|k: int|
            0 <= k < self.deps(a).len() && ((#[trigger] self.deps(a)[k]) as int == b
                || self.depends_on(self.deps(a)[k] as int, b));
        let d = self.deps(a)[k] as int;
        if d == b {
            assert(self.depends_on(d, c));
        } else {
            self.lemma_depends_trans(d, b, c);
        }
        assert(0 <= k < self.deps(a).len() && ((self.deps(a)[k]) as int == c || self.depends_on(
            self.deps(a)[k] as int,
            c,
        )));
    }

    /// A node only depends on nodes below it in the arena.
    pub proof fn lemma_depends_lt(self, a: int, b: int)
        requires
            self.deps_ok(),
            0 <= a < self.n(),
            self.depends_on(a, b),
        ensures
            b < a,
        decreases a,
    {
        let k = choose|k: int|
            0 <= k < self.deps(a).len() && ((#[trigger] self.deps(a)[k]) as int == b
                || self.depends_on(self.deps(a)[k] as int, b));
        let d = self.deps(a)[k] as int;
        if d != b {
            self.lemma_depends_lt(d, b);
        }
    }

    /// The dependency relation reads only dependency lists, so graphs that
    /// agree on them agree on it.
    pub proof fn lemma_depends_shape(self, other: Graph<C>, j: int, i: int)
        requires
            self.deps_ok(),
            other.deps_ok(),
            0 <= j < self.n(),
            j < other.n(),
            forall|j2: int| 0 <= j2 <= j ==> (#[trigger] self.deps(j2)) == other.deps(j2),
        ensures
            self.depends_on(j, i) == other.depends_on(j, i),
        decreases j,
    {
        assert(self.deps(j) == other.deps(j));
        if self.depends_on(j, i) {
            let k = choose|k: int|
                0 <= k < self.deps(j).len() && ((#[trigger] self.deps(j)[k]) as int == i
                    || self.depends_on(self.deps(j)[k] as int, i));
            let d = self.deps(j)[k] as int;
            if d != i {
                self.lemma_depends_shape(other, d, i);
            }
            assert(0 <= k < other.deps(j).len() && ((other.deps(j)[k]) as int == i
                || other.depends_on(other.deps(j)[k] as int, i)));
        }
        if other.depends_on(j, i) {
            let k = choose|k: int|
                0 <= k < other.deps(j).len() && ((#[trigger] other.deps(j)[k]) as int == i
                    || other.depends_on(other.deps(j)[k] as int, i));
            let d = other.deps(j)[k] as int;
            if d != i {
                self.lemma_depends_shape(other, d, i);
            }
            assert(0 <= k < self.deps(j).len() && ((self.deps(j)[k]) as int == i
                || self.depends_on(self.deps(j)[k] as int, i)));
        }
    }

    /// Changing the stored value of leaf `x` leaves the true value of every
    /// node that does not transitively depend on `x` unchanged: evaluation
    /// reads only a node's dependency cone.
    pub proof fn lemma_eval_input_frame(self, other: Graph<C>, x: int, j: int)
        requires
            self.deps_ok(),
            other.deps_ok(),
            self.n() == other.n(),
            0 <= j < self.n(),
            0 <= x < self.n(),
            forall|j2: int|
                0 <= j2 < self.n() && j2 != x ==> #[trigger] self.shape_eq_at(other, j2),
            self.deps(x) == other.deps(x),
            j != x,
            !self.depends_on(j, x),
        ensures
            self.eval(j) == other.eval(j),
        decreases j, self.deps(j).len() + 1,
    {
        assert(self.shape_eq_at(other, j));
        if self.is_computed(j) {
            self.lemma_eval_deps_input_frame(other, x, j, self.deps(j).len() as int);
        }
    }

    /// Companion of `lemma_eval_input_frame` for dependency lists.
    pub proof fn lemma_eval_deps_input_frame(self, other: Graph<C>, x: int, j: int, k: int)
        requires
            self.deps_ok(),
            other.deps_ok(),
            self.n() == other.n(),
            0 <= j < self.n(),
            0 <= x < self.n(),
            forall|j2: int|
                0 <= j2 < self.n() && j2 != x ==> #[trigger] self.shape_eq_at(other, j2),
            self.deps(x) == other.deps(x),
            j != x,
            !self.depends_on(j, x),
            0 <= k <= self.deps(j).len(),
        ensures
            self.eval_deps(j, k) == other.eval_deps(j, k),
        decreases j, k,
    {
        assert(self.shape_eq_at(other, j));
        if k > 0 {
            self.lemma_eval_deps_input_frame(other, x, j, k - 1);
            let d = self.deps(j)[k - 1] as int;
            assert(d != x && !self.depends_on(d, x)) by {
                if d == x || self.depends_on(d, x) {
                    assert(0 <= k - 1 < self.deps(j).len() && ((self.deps(j)[k - 1]) as int == x
                        || self.depends_on(self.deps(j)[k - 1] as int, x)));
                }
            }
            self.lemma_eval_input_frame(other, x, d);
        }
    }

    /// Completeness of propagation. Once every live direct dependent of `i`
    /// is dirty, coherence (`caches_cd`) forces every live transitive
    /// dependent to be dirty as well: a stale value can never survive
    /// anywhere downstream of a change.
    pub proof fn lemma_propagation(self, i: int, j: int)
        requires
            self.deps_ok(),
            self.live_deps_ok(),
            self.caches_cd(),
            self.live@.len() == self.nodes@.len(),
            0 <= i < self.n(),
            0 <= j < self.n(),
            self.node_live(j),
            self.depends_on(j, i),
            forall|m: int|
                0 <= m < self.n() && self.node_live(m) && (#[trigger] self.deps(m)).contains(
                    i as usize,
                ) ==> self.cache(m) is None,
        ensures
            self.cache(j) is None,
        decreases j,
    {
        let k = choose|k: int|
            0 <= k < self.deps(j).len() && ((#[trigger] self.deps(j)[k]) as int == i
                || self.depends_on(self.deps(j)[k] as int, i));
        let d = self.deps(j)[k] as int;
        if d == i {
            assert(self.deps(j).contains(i as usize));
        } else {
            assert(self.node_live(d));
            self.lemma_propagation(i, d);
            // `d` has dependencies (it depends on something), so it is computed
            // and its empty slot makes it dirty; coherence then forbids a
            // memoized value in `j`.
            let kd = choose|kd: int|
                0 <= kd < self.deps(d).len() && ((#[trigger] self.deps(d)[kd]) as int == i
                    || self.depends_on(self.deps(d)[kd] as int, i));
            assert(self.deps(d).len() > 0);
            assert(self.is_computed(d));
            assert(!self.viol(j, k));
        }
    }
}

impl<C: ComputeMut> Graph<C> {
    /// An empty graph: no nodes, no probes.
    pub fn new() -> (r: Graph<C>)
        ensures
            r.wf(),
            r.n() == 0,
            r.n_probes() == 0,
    {
        Graph { nodes: Vec::new(), live: Vec::new(), probes: Vec::new() }
    }

    /// Append a constant node holding `value`. Constants never change, are
    /// never cached, and never publish.
    pub fn create_constant(&mut self, value: u32) -> (id: usize)
        requires
            old(self).wf(),
        ensures
            final(self).wf(),
            id == old(self).n(),
            final(self).nodes@ == old(self).nodes@.push(Node::Constant { value }),
            final(self).live@ == old(self).live@.push(true),
            final(self).probes@ == old(self).probes@,
            final(self).is_constant(id as int),
            final(self).node_live(id as int),
            final(self).eval(id as int) == value,
            forall|j: int| 0 <= j < old(self).n() ==> final(self).eval(j) == old(self).eval(j),
            final(self).n() == old(self).n() + 1,
    {
        let id = self.nodes.len();
        self.nodes.push(Node::Constant { value });
        self.live.push(true);
        proof {
            vstd::std_specs::vec::axiom_spec_len(&self.nodes);
            self.lemma_extend_preserves(*old(self));
        }
        id
    }

    /// Create a mutable input node, initial value `0`, with a fresh
    /// publisher.
    pub fn create_input(&mut self) -> (id: usize)
        requires
            old(self).wf(),
        ensures
            final(self).wf(),
            id == old(self).n(),
            final(self).n() == old(self).n() + 1,
            final(self).live@ == old(self).live@.push(true),
            final(self).probes@ == old(self).probes@,
            forall|j: int| 0 <= j < old(self).n() ==> final(self).nodes@[j] == old(self).nodes@[j],
            final(self).is_input(id as int),
            final(self).stored(id as int) == 0u32,
            final(self).subs(id as int) == Seq::<Subscriber>::empty(),
            final(self).node_live(id as int),
            final(self).eval(id as int) == 0u32,
            forall|j: int| 0 <= j < old(self).n() ==> final(self).eval(j) == old(self).eval(j),
    {
        let id = self.nodes.len();
        self.nodes.push(Node::Input { value: 0, invalidate_publisher: InvalidatePublisher::new() });
        self.live.push(true);
        proof {
            vstd::std_specs::vec::axiom_spec_len(&self.nodes);
            self.lemma_extend_preserves(*old(self));
        }
        id
    }

    /// Record `s` with node `d`'s publisher. Subscribing to a constant is a
    /// no-op: a constant never changes, so the subscription could never fire.
    fn push_sub(&mut self, d: usize, s: Subscriber)
        requires
            d < old(self).n(),
        ensures
            final(self).n() == old(self).n(),
            final(self).live@ == old(self).live@,
            final(self).probes@ == old(self).probes@,
            forall|j: int| 0 <= j < old(self).n() && j != d ==> final(self).nodes@[j] == old(self).nodes@[j],
            final(self).shape_eq_at(*old(self), d as int),
            final(self).cache(d as int) == old(self).cache(d as int),
            final(self).subs(d as int) == if old(self).is_constant(d as int) {
                old(self).subs(d as int)
            } else {
                old(self).subs(d as int).push(s)
            },
    {
        match &mut self.nodes[d] {
            Node::Input { invalidate_publisher, .. } => invalidate_publisher
                .subscribe_to_invalidate(s),
            Node::Computed { wrapper, .. } => wrapper.invalidate_publisher.subscribe_to_invalidate(
                s,
            ),
            Node::Constant { .. } => {},
        }
    }

    /// Detach node `i`'s subscriber list, leaving an empty one behind, so the
    /// broadcast can walk it while nested cascades run on other nodes.
    fn take_subs(&mut self, i: usize) -> (entries: Vec<Subscriber>)
        requires
            i < old(self).n(),
            !old(self).is_constant(i as int),
        ensures
            entries@ == old(self).subs(i as int),
            final(self).n() == old(self).n(),
            final(self).live@ == old(self).live@,
            final(self).probes@ == old(self).probes@,
            forall|j: int|
                0 <= j < old(self).n() && j != i ==> final(self).nodes@[j] == old(self).nodes@[j],
            final(self).shape_eq_at(*old(self), i as int),
            final(self).cache(i as int) == old(self).cache(i as int),
            final(self).subs(i as int) == Seq::<Subscriber>::empty(),
    {
        let mut detached: Vec<Subscriber> = Vec::new();
        match &mut self.nodes[i] {
            Node::Input { invalidate_publisher, .. } => {
                core::mem::swap(&mut invalidate_publisher.subscribers, &mut detached);
            },
            Node::Computed { wrapper, .. } => {
                core::mem::swap(&mut wrapper.invalidate_publisher.subscribers, &mut detached);
            },
            Node::Constant { .. } => {},
        }
        detached
    }

    /// Reattach a subscriber list to node `i`'s publisher.
    fn set_subs(&mut self, i: usize, entries: Vec<Subscriber>)
        requires
            i < old(self).n(),
            !old(self).is_constant(i as int),
        ensures
            final(self).n() == old(self).n(),
            final(self).live@ == old(self).live@,
            final(self).probes@ == old(self).probes@,
            forall|j: int|
                0 <= j < old(self).n() && j != i ==> final(self).nodes@[j] == old(self).nodes@[j],
            final(self).shape_eq_at(*old(self), i as int),
            final(self).cache(i as int) == old(self).cache(i as int),
            final(self).subs(i as int) == entries@,
    {
        let mut attached = entries;
        match &mut self.nodes[i] {
            Node::Input { invalidate_publisher, .. } => {
                core::mem::swap(&mut invalidate_publisher.subscribers, &mut attached);
            },
            Node::Computed { wrapper, .. } => {
                core::mem::swap(&mut wrapper.invalidate_publisher.subscribers, &mut attached);
            },
            Node::Constant { .. } => {},
        }
    }

    /// Build a computed node from already-built dependencies and a pure
    /// combiner. The new node starts dirty and is subscribed to every
    /// dependency's publisher exactly once per edge, at construction; this is
    /// the sole point where edges are created, and the topology is frozen
    /// afterward. Dependencies must already exist (strictly smaller indices),
    /// so the graph stays acyclic by construction.
    pub fn define_node(&mut self, deps: Vec<usize>, combiner: C) -> (id: usize)
        requires
            old(self).wf(),
            forall|m: int| 0 <= m < deps@.len() ==> (#[trigger] deps@[m] as int) < old(self).n(),
            forall|m: int|
                0 <= m < deps@.len() ==> old(self).node_live(#[trigger] deps@[m] as int),
        ensures
            final(self).wf(),
            id == old(self).n(),
            final(self).n() == old(self).n() + 1,
            final(self).live@ == old(self).live@.push(true),
            final(self).probes@ == old(self).probes@,
            final(self).is_computed(id as int),
            final(self).deps(id as int) == deps@,
            final(self).comb(id as int) == combiner,
            final(self).cache(id as int) is None,
            final(self).subs(id as int) == Seq::<Subscriber>::empty(),
            final(self).node_live(id as int),
            forall|j: int| 0 <= j < old(self).n() ==> #[trigger] final(self).shape_eq_at(*old(self), j),
            forall|j: int|
                0 <= j < old(self).n() ==> (#[trigger] final(self).cache(j)) == old(self).cache(j),
            forall|j: int|
                0 <= j < old(self).n() ==> (#[trigger] final(self).node_live(j)) == old(self).node_live(j),
            forall|j: int, s: Subscriber|
                0 <= j < old(self).n() ==> ((#[trigger] final(self).subs(j).contains(s))
                    <==> (old(self).subs(j).contains(s)
                        || (s == Subscriber::Dependent(id) && deps@.contains(j as usize)
                            && !old(self).is_constant(j)))),
            forall|j: int| 0 <= j < old(self).n() ==> (#[trigger] final(self).eval(j)) == old(self).eval(j),
            final(self).eval(id as int) == combiner.spec_compute(
                Seq::new(deps@.len(), |m: int| old(self).eval(deps@[m] as int)),
            ),
    {
        let ghost gdeps = deps@;
        let ghost gcomb = combiner;
        let id = self.nodes.len();
        let n_deps = deps.len();
        self.nodes.push(Node::Computed { deps, combiner, wrapper: CachingNodeWrapper::new() });
        self.live.push(true);
        let mut k: usize = 0;
        while k < n_deps
            invariant
                0 <= k <= n_deps,
                n_deps == gdeps.len(),
                id == old(self).n(),
                id < self.n(),
                self.n() == old(self).n() + 1,
                self.live@ == old(self).live@.push(true),
                self.probes@ == old(self).probes@,
                self.is_computed(id as int),
                self.deps(id as int) == gdeps,
                self.comb(id as int) == gcomb,
                self.cache(id as int) is None,
                self.subs(id as int) == Seq::<Subscriber>::empty(),
                self.node_live(id as int),
                forall|m: int| 0 <= m < gdeps.len() ==> (#[trigger] gdeps[m] as int) < id,
                forall|m: int|
                    0 <= m < gdeps.len() ==> old(self).node_live(#[trigger] gdeps[m] as int),
                old(self).wf(),
                forall|j: int| 0 <= j < id ==> #[trigger] self.shape_eq_at(*old(self), j),
                forall|j: int|
                    0 <= j < id ==> (#[trigger] self.cache(j)) == old(self).cache(j),
                forall|j: int|
                    0 <= j < id ==> (#[trigger] self.node_live(j)) == old(self).node_live(j),
                forall|j: int, s: Subscriber|
                    0 <= j < id ==> ((#[trigger] self.subs(j).contains(s))
                        <==> (old(self).subs(j).contains(s) || (s == Subscriber::Dependent(id)
                            && gdeps.take(k as int).contains(j as usize)
                            && !old(self).is_constant(j)))),
            decreases n_deps - k,
        {
            let d = match &self.nodes[id] {
                Node::Computed { deps, .. } => deps[k],
                _ => unreached(),
            };
            let ghost prev = *self;
            self.push_sub(d, Subscriber::Dependent(id));
            proof {
                assert(d == gdeps[k as int]);
                assert(gdeps.take(k as int + 1) =~= gdeps.take(k as int).push(gdeps[k as int]));
                assert forall|j: int| 0 <= j < id && j != d as int implies self.nodes@[j]
                    == prev.nodes@[j] by {}
                assert forall|j: int| 0 <= j < id implies (#[trigger] self.cache(j)) == prev.cache(
                    j,
                ) && self.node_live(j) == prev.node_live(j) by {
                    if j != d as int {
                        assert(self.nodes@[j] == prev.nodes@[j]);
                    }
                }
                assert(self.shape_eq_at(prev, d as int) && prev.shape_eq_at(*old(self), d as int));
                assert(self.shape_eq_at(*old(self), d as int));
                assert(self.is_constant(d as int) == old(self).is_constant(d as int));
                assert forall|j: int, s: Subscriber| 0 <= j < id implies ((
                #[trigger] self.subs(j).contains(s)) <==> (old(self).subs(j).contains(s) || (s
                    == Subscriber::Dependent(id) && gdeps.take(k as int + 1).contains(j as usize)
                    && !old(self).is_constant(j)))) by {
                    if j == d as int {
                        assert(gdeps.take(k as int + 1)[k as int] == d);
                        assert(gdeps.take(k as int + 1).contains(d));
                        if !prev.is_constant(j) {
                            assert(self.subs(j) == prev.subs(j).push(Subscriber::Dependent(id)));
                            assert forall|s2: Subscriber| #[trigger]
                                self.subs(j).contains(s2) implies prev.subs(j).contains(s2) || s2
                                == Subscriber::Dependent(id) by {
                                let m = choose|m: int|
                                    0 <= m < self.subs(j).len() && self.subs(j)[m] == s2;
                                if m < prev.subs(j).len() {
                                    assert(prev.subs(j)[m] == s2);
                                }
                            }
                            assert(self.subs(j)[self.subs(j).len() - 1] == Subscriber::Dependent(
                                id,
                            ));
                            assert(self.subs(j).contains(Subscriber::Dependent(id)));
                            assert forall|s2: Subscriber| #[trigger]
                                prev.subs(j).contains(s2) implies self.subs(j).contains(s2) by {
                                let m = choose|m: int|
                                    0 <= m < prev.subs(j).len() && prev.subs(j)[m] == s2;
                                assert(self.subs(j)[m] == s2);
                            }
                        }
                    } else {
                        assert(self.nodes@[j] == prev.nodes@[j]);
                        assert(self.subs(j) == prev.subs(j));
                        if gdeps.take(k as int + 1).contains(j as usize) && !gdeps.take(
                            k as int,
                        ).contains(j as usize) {
                            let m = choose|m: int|
                                0 <= m < gdeps.take(k as int + 1).len() && (#[trigger] gdeps.take(
                                    k as int + 1,
                                )[m]) == j as usize;
                            if m < k as int {
                                assert(gdeps.take(k as int)[m] == j as usize);
                                assert(gdeps.take(k as int).contains(j as usize));
                            }
                            assert(m == k as int);
                            assert(gdeps.take(k as int + 1)[k as int] == d);
                            assert(false);
                        }
                    }
                }
                assert forall|j: int| 0 <= j < id implies #[trigger] self.shape_eq_at(
                    *old(self),
                    j,
                ) by {
                    if j != d as int {
                        assert(self.nodes@[j] == prev.nodes@[j]);
                        assert(prev.shape_eq_at(*old(self), j));
                    }
                }
                assert(self.nodes@[id as int] == prev.nodes@[id as int]);
            }
            k += 1;
        }
        proof {
            vstd::std_specs::vec::axiom_spec_len(&self.nodes);
            assert(gdeps.take(k as int) =~= gdeps);
            self.lemma_define_post(*old(self), gdeps, gcomb, id);
        }
        id
    }

    /// Evaluate node `i`, memoizing on the way.
    ///
    /// If the node is clean the memoized value is returned and nothing at all
    /// changes (and in particular no combiner runs): repeated calls between
    /// invalidations are idempotent. If it is dirty, the dependencies are
    /// evaluated in declared order, the combiner is applied exactly once, and
    /// the result — always the node's true value `eval(i)` — is stored. Cache
    /// slots are only ever filled, each with its node's true value.
    pub fn compute(&mut self, i: usize) -> (r: u32)
        requires
            old(self).wf(),
            i < old(self).n(),
            old(self).node_live(i as int),
        ensures
            final(self).wf(),
            final(self).n() == old(self).n(),
            final(self).live@ == old(self).live@,
            final(self).probes@ == old(self).probes@,
            forall|j: int|
                0 <= j < old(self).n() ==> #[trigger] final(self).shape_eq_at(*old(self), j),
            forall|j: int|
                0 <= j < old(self).n() ==> (#[trigger] final(self).subs(j)) == old(self).subs(j),
            forall|j: int|
                0 <= j < old(self).n() && old(self).cache(j) is Some ==> (#[trigger] final(self).cache(j)) == old(self).cache(j),
            forall|j: int|
                0 <= j < old(self).n() && (#[trigger] final(self).cache(j)) is Some ==> (old(self).cache(j) is Some || final(self).cache(j) == Some(old(self).eval(j))),
            forall|j: int|
                (i as int) < j < old(self).n() ==> (#[trigger] final(self).cache(j)) == old(self).cache(j),
            forall|j: int|
                0 <= j < old(self).n() ==> (#[trigger] final(self).eval(j)) == old(self).eval(j),
            final(self).clean(i as int),
            r == old(self).eval(i as int),
            old(self).clean(i as int) ==> *final(self) == *old(self),
        decreases i,
    {
        match &self.nodes[i] {
            Node::Constant { value } => {
                return *value;
            },
            Node::Input { value, .. } => {
                return *value;
            },
            Node::Computed { wrapper, .. } => {
                if let Some(v) = wrapper.cached_value {
                    return v;
                }
            },
        }
        let n_deps = match &self.nodes[i] {
            Node::Computed { deps, .. } => deps.len(),
            _ => vstd::pervasive::unreached(),
        };
        let mut args: Vec<u32> = Vec::new();
        let mut k: usize = 0;
        while k < n_deps
            invariant
                old(self).wf(),
                self.wf(),
                i < self.n(),
                self.n() == old(self).n(),
                self.node_live(i as int),
                self.is_computed(i as int),
                self.cache(i as int) is None,
                0 <= k <= n_deps,
                n_deps == self.deps(i as int).len(),
                args@.len() == k,
                forall|m: int|
                    0 <= m < k ==> args@[m] == old(self).eval(
                        #[trigger] self.deps(i as int)[m] as int,
                    ),
                forall|m: int| 0 <= m < k ==> self.clean(#[trigger] self.deps(i as int)[m] as int),
                self.live@ == old(self).live@,
                self.probes@ == old(self).probes@,
                forall|j: int|
                    0 <= j < old(self).n() ==> #[trigger] self.shape_eq_at(*old(self), j),
                forall|j: int|
                    0 <= j < old(self).n() ==> (#[trigger] self.subs(j)) == old(self).subs(j),
                forall|j: int|
                    0 <= j < old(self).n() && old(self).cache(j) is Some ==> (#[trigger] self.cache(
                        j,
                    )) == old(self).cache(j),
                forall|j: int|
                    0 <= j < old(self).n() && (#[trigger] self.cache(j)) is Some ==> (old(self).cache(j) is Some || self.cache(j) == Some(old(self).eval(j))),
                forall|j: int|
                    (i as int) < j < old(self).n() ==> (#[trigger] self.cache(j)) == old(self).cache(
                        j,
                    ),
                forall|j: int|
                    0 <= j < old(self).n() ==> (#[trigger] self.eval(j)) == old(self).eval(j),
            decreases n_deps - k,
        {
            let d = match &self.nodes[i] {
                Node::Computed { deps, .. } => deps[k],
                _ => vstd::pervasive::unreached(),
            };
            let ghost mid = *self;
            let v = self.compute(d);
            proof {
                assert forall|j: int| 0 <= j < old(self).n() implies #[trigger] self.shape_eq_at(
                    *old(self),
                    j,
                ) by {
                    assert(self.shape_eq_at(mid, j));
                    assert(mid.shape_eq_at(*old(self), j));
                }
                assert(mid.shape_eq_at(*old(self), i as int));
                assert(self.shape_eq_at(*old(self), i as int));
                assert(self.is_computed(i as int));
                assert(self.deps(i as int) == mid.deps(i as int));
                assert((d as int) < i as int);
                assert(self.cache(i as int) == mid.cache(i as int));
                assert(mid.eval(d as int) == old(self).eval(d as int));
                assert(v == old(self).eval(d as int));
                assert forall|m: int|
                    0 <= m < k + 1 implies self.clean(
                    #[trigger] self.deps(i as int)[m] as int,
                ) by {
                    let dm = self.deps(i as int)[m] as int;
                    assert(dm < i as int);
                    if m < k {
                        assert(mid.clean(dm));
                        assert(mid.shape_eq_at(*old(self), dm));
                        assert(self.shape_eq_at(*old(self), dm));
                        assert(mid.cache(dm) is Some ==> self.cache(dm) == mid.cache(dm));
                    } else {
                        assert(self.deps(i as int)[m] == d);
                        assert(self.clean(d as int));
                    }
                }
            }
            args.push(v);
            k += 1;
        }
        proof {
            self.lemma_eval_deps_props(i as int, n_deps as int);
            assert forall|m: int|
                0 <= m < n_deps implies args@[m] == self.eval_deps(i as int, n_deps as int)[m] by {
                let dm = self.deps(i as int)[m] as int;
                assert(self.eval(dm) == old(self).eval(dm));
            }
            assert(args@ =~= self.eval_deps(i as int, n_deps as int));
        }
        let r = match &self.nodes[i] {
            Node::Computed { combiner, .. } => combiner.compute(&args),
            _ => vstd::pervasive::unreached(),
        };
        let ghost pre = *self;
        match &mut self.nodes[i] {
            Node::Computed { wrapper, .. } => {
                wrapper.cached_value = Some(r);
            },
            _ => {},
        }
        proof {
            assert(r == pre.eval(i as int));
            assert forall|j: int| 0 <= j < self.n() && j != i as int implies self.nodes@[j]
                == pre.nodes@[j] by {}
            assert(self.shape_eq_at(pre, i as int));
            assert(self.subs(i as int) == pre.subs(i as int));
            assert(self.deps(i as int) == pre.deps(i as int));
            assert(self.deps_ok()) by {
                assert forall|j: int, k2: int|
                    0 <= j < self.n() && 0 <= k2 < self.deps(j).len() implies (#[trigger] self.deps(
                    j,
                )[k2]) < j by {
                    if j != i as int {
                        assert(self.nodes@[j] == pre.nodes@[j]);
                        assert(self.deps(j) == pre.deps(j));
                    }
                    assert(pre.deps(j)[k2] < j);
                }
            }
            assert forall|j: int| 0 <= j < old(self).n() implies #[trigger] self.shape_eq_at(
                *old(self),
                j,
            ) by {
                if j != i as int {
                    assert(self.nodes@[j] == pre.nodes@[j]);
                }
                assert(self.shape_eq_at(pre, j));
                assert(pre.shape_eq_at(*old(self), j));
            }
            assert forall|j: int| 0 <= j < old(self).n() implies (#[trigger] self.subs(j)) == old(self).subs(j) by {
                if j != i as int {
                    assert(self.nodes@[j] == pre.nodes@[j]);
                    assert(self.subs(j) == pre.subs(j));
                }
                assert(pre.subs(j) == old(self).subs(j));
            }
            assert forall|j: int|
                0 <= j < old(self).n() && old(self).cache(j) is Some implies (#[trigger] self.cache(
                j,
            )) == old(self).cache(j) by {
                if j != i as int {
                    assert(self.nodes@[j] == pre.nodes@[j]);
                }
                assert(old(self).cache(j) is Some ==> pre.cache(j) == old(self).cache(j));
            }
            assert forall|j: int|
                0 <= j < old(self).n() && (#[trigger] self.cache(j)) is Some implies (old(self).cache(j) is Some || self.cache(j) == Some(old(self).eval(j))) by {
                assert(pre.cache(j) is Some ==> old(self).cache(j) is Some || pre.cache(j) == Some(
                    old(self).eval(j),
                ));
                if j != i as int {
                    assert(self.nodes@[j] == pre.nodes@[j]);
                } else {
                    assert(pre.eval(i as int) == old(self).eval(i as int));
                }
            }
            assert forall|j: int| 0 <= j < old(self).n() implies (#[trigger] self.eval(j))
                == old(self).eval(j) by {
                assert forall|j2: int| 0 <= j2 <= j implies self.shape_eq_at(pre, j2) by {
                    if j2 != i as int {
                        assert(self.nodes@[j2] == pre.nodes@[j2]);
                    }
                }
                self.lemma_eval_shape(pre, j);
            }
            assert(self.cache(i as int) == Some(pre.eval(i as int)));
            assert forall|j: int| (i as int) < j < old(self).n() implies (#[trigger] self.cache(j))
                == old(self).cache(j) by {
                assert(self.nodes@[j] == pre.nodes@[j]);
                assert(pre.cache(j) == old(self).cache(j));
            }
            assert(self.subs_ok()) by {
                assert forall|i2: int, k2: int|
                    0 <= i2 < self.n() && 0 <= k2 < self.subs(i2).len() implies self.sub_ok(
                    i2,
                    #[trigger] self.subs(i2)[k2],
                ) by {
                    assert(self.subs(i2) == old(self).subs(i2));
                    assert(old(self).sub_ok(i2, old(self).subs(i2)[k2]));
                    let s = self.subs(i2)[k2];
                    match s {
                        Subscriber::Dependent(j2) => {
                            assert(self.shape_eq_at(*old(self), j2 as int));
                        },
                        Subscriber::Probe(_) => {},
                    }
                }
            }
            assert(self.live_deps_ok()) by {
                assert forall|j: int, k2: int|
                    0 <= j < self.n() && self.node_live(j) && 0 <= k2 < self.deps(
                        j,
                    ).len() implies self.node_live(#[trigger] self.deps(j)[k2] as int) by {
                    assert(self.shape_eq_at(*old(self), j));
                    assert(old(self).node_live(old(self).deps(j)[k2] as int));
                }
            }
            assert(self.edges_from(0)) by {
                assert forall|j: int, k2: int|
                    0 <= j < self.n() && self.node_live(j) && 0 <= k2 < self.deps(j).len() && 0 <= (
                    #[trigger] self.deps(j)[k2] as int) && !self.is_constant(
                    self.deps(j)[k2] as int,
                ) implies self.subs(self.deps(j)[k2] as int).contains(
                    Subscriber::Dependent(j as usize),
                ) by {
                    assert(self.shape_eq_at(*old(self), j));
                    let dd = self.deps(j)[k2] as int;
                    assert(self.shape_eq_at(*old(self), dd));
                    assert(self.subs(dd) == old(self).subs(dd));
                    assert(old(self).subs(dd).contains(Subscriber::Dependent(j as usize)));
                }
            }
            assert(self.caches_correct()) by {
                assert forall|j: int|
                    0 <= j < self.n() && self.node_live(j) && (#[trigger] self.cache(
                        j,
                    )) is Some implies self.cache(j) == Some(self.eval(j)) by {
                    if j != i as int {
                        assert(self.nodes@[j] == pre.nodes@[j]);
                        assert(pre.cache(j) is Some ==> pre.cache(j) == Some(old(self).eval(j)));
                    } else {
                        assert(pre.eval(i as int) == old(self).eval(i as int));
                    }
                    assert(self.eval(j) == old(self).eval(j));
                }
            }
            assert forall|j: int, k2: int| !(#[trigger] self.viol(j, k2)) by {
                if 0 <= j < self.n() && 0 <= k2 < self.deps(j).len() {
                    if j == i as int {
                        assert(self.clean(self.deps(j)[k2] as int) == pre.clean(
                            pre.deps(j)[k2] as int,
                        ));
                    } else {
                        assert(self.nodes@[j] == pre.nodes@[j]);
                        assert(!pre.viol(j, k2));
                        let dd = self.deps(j)[k2] as int;
                        if dd != i as int {
                            assert(self.nodes@[dd] == pre.nodes@[dd]);
                        }
                    }
                }
            }
        }
        r
    }

    /// Mark node `i`'s memoized value stale.
    ///
    /// If the slot is already empty (or the node is a leaf) this is a
    /// complete no-op — in particular nothing is re-broadcast, which is what
    /// keeps diamond-shaped sharing from causing notification storms. If the
    /// slot was full, it is cleared and the staleness is published to `i`'s
    /// subscribers, cascading depth-first; only transitive dependents of `i`
    /// are ever touched, caches are only cleared, and every live direct
    /// dependent of `i` ends up dirty.
    pub fn invalidate_cache(&mut self, i: usize)
        requires
            old(self).wf_core(),
            old(self).edges_from(i as int),
            i < old(self).n(),
            old(self).node_live(i as int),
        ensures
            final(self).wf_core(),
            final(self).edges_from(i as int),
            old(self).cascade_rel(*final(self)),
            final(self).cache(i as int) is None,
            old(self).cache(i as int) is None ==> *final(self) == *old(self),
            old(self).wf() ==> final(self).wf(),
            forall|j: int|
                0 <= j < old(self).n() && j != i && old(self).cache(j) is Some && (#[trigger] final(self).cache(j)) is None ==> old(self).depends_on(j, i as int),
            old(self).cache(i as int) is Some ==> (forall|j: int|
                0 <= j < old(self).n() && old(self).node_live(j) && old(self).subs(
                    i as int,
                ).contains(Subscriber::Dependent(j as usize)) ==> (#[trigger] final(self).cache(j))
                    is None),
            forall|d: int|
                0 <= d < old(self).n() && (#[trigger] final(self).subs(d)) != old(self).subs(d)
                    ==> (old(self).cache(d) is Some && final(self).cache(d) is None),
            old(self).cache(i as int) is Some ==> (forall|p: int|
                0 <= p < old(self).n_probes() && old(self).probe_live(p) && old(
                    self,
                ).subscribed_only_at(p, i as int) && old(self).probe_total(p) + Self::occurrences(
                    old(self).subs(i as int),
                    Subscriber::Probe(p as usize),
                    old(self).subs(i as int).len() as int,
                ) <= u64::MAX ==> (#[trigger] final(self).probe_total(p)) == old(self).probe_total(
                    p,
                ) + Self::occurrences(
                    old(self).subs(i as int),
                    Subscriber::Probe(p as usize),
                    old(self).subs(i as int).len() as int,
                )),
        decreases old(self).nodes@.len() - i, 1int,
    {
        let cached = match &self.nodes[i] {
            Node::Computed { wrapper, .. } => wrapper.cached_value.is_some(),
            _ => false,
        };
        if !cached {
            return ;
        }
        match &mut self.nodes[i] {
            Node::Computed { wrapper, .. } => {
                wrapper.cached_value = None;
            },
            _ => {},
        }
        let ghost cleared = *self;
        proof {
            assert forall|j: int| 0 <= j < old(self).n() && j != i implies cleared.nodes@[j] == old(self).nodes@[j] by {}
            assert(cleared.shape_eq_at(*old(self), i as int));
            assert(cleared.subs(i as int) == old(self).subs(i as int));
            assert forall|j: int| 0 <= j < old(self).n() implies #[trigger] cleared.shape_eq_at(
                *old(self),
                j,
            ) && cleared.subs(j) == old(self).subs(j) by {
                if j != i {
                    assert(cleared.nodes@[j] == old(self).nodes@[j]);
                }
            }
            assert(cleared.wf_core()) by {
                assert forall|i2: int, k2: int|
                    0 <= i2 < cleared.n() && 0 <= k2 < cleared.deps(i2).len() implies (
                #[trigger] cleared.deps(i2)[k2]) < i2 by {
                    assert(cleared.deps(i2) == old(self).deps(i2));
                }
                assert forall|i2: int, k2: int|
                    0 <= i2 < cleared.n() && 0 <= k2 < cleared.subs(i2).len() implies cleared.sub_ok(
                    i2,
                    #[trigger] cleared.subs(i2)[k2],
                ) by {
                    assert(cleared.subs(i2) == old(self).subs(i2));
                    assert(old(self).sub_ok(i2, old(self).subs(i2)[k2]));
                    match cleared.subs(i2)[k2] {
                        Subscriber::Dependent(j2) => {
                            assert(cleared.shape_eq_at(*old(self), j2 as int));
                        },
                        Subscriber::Probe(_) => {},
                    }
                }
                assert forall|j: int, k2: int|
                    0 <= j < cleared.n() && cleared.node_live(j) && 0 <= k2 < cleared.deps(
                        j,
                    ).len() implies cleared.node_live(#[trigger] cleared.deps(j)[k2] as int) by {
                    assert(cleared.deps(j) == old(self).deps(j));
                }
            }
            assert(cleared.edges_from(i as int)) by {
                assert forall|j: int, k2: int|
                    0 <= j < cleared.n() && cleared.node_live(j) && 0 <= k2 < cleared.deps(
                        j,
                    ).len() && i as int <= (#[trigger] cleared.deps(j)[k2] as int)
                        && !cleared.is_constant(cleared.deps(j)[k2] as int) implies cleared.subs(
                    cleared.deps(j)[k2] as int,
                ).contains(Subscriber::Dependent(j as usize)) by {
                    assert(cleared.deps(j) == old(self).deps(j));
                    let dd = cleared.deps(j)[k2] as int;
                    assert(cleared.shape_eq_at(*old(self), dd));
                    assert(cleared.subs(dd) == old(self).subs(dd));
                    assert(old(self).subs(dd).contains(Subscriber::Dependent(j as usize)));
                }
            }
        }
        self.publish_invalidate(i);
        proof {
            assert(old(self).cascade_rel(*self)) by {
                assert forall|j: int| 0 <= j < old(self).n() implies #[trigger] self.shape_eq_at(
                    *old(self),
                    j,
                ) by {
                    assert(self.shape_eq_at(cleared, j));
                    assert(cleared.shape_eq_at(*old(self), j));
                }
                assert forall|d: int, s: Subscriber|
                    0 <= d < old(self).n() && (#[trigger] old(self).subs(d).contains(s)) && old(self).target_live(s) implies self.subs(d).contains(s) by {
                    assert(cleared.subs(d).contains(s));
                    assert(cleared.target_live(s) == old(self).target_live(s));
                }
                assert forall|j: int, k2: int| #[trigger]
                    self.viol(j, k2) implies old(self).viol(j, k2) by {
                    assert(cleared.viol(j, k2));
                    if !old(self).viol(j, k2) {
                        // The only violations the clearing itself introduced
                        // point at `i`; their owners are live dependents of
                        // `i`, and the broadcast has dirtied every one.
                        assert(cleared.deps(j)[k2] as int == i);
                        assert(cleared.node_live(j));
                        assert(cleared.subs(i as int).contains(Subscriber::Dependent(j as usize)));
                        assert(self.cache(j) is None);
                        assert(false);
                    }
                }
                assert forall|p: int|
                    0 <= p < old(self).n_probes() && old(self).unsubscribed(p) implies (
                #[trigger] self.probe_total(p)) == old(self).probe_total(p) by {
                    assert(cleared.unsubscribed(p)) by {
                        assert forall|d: int|
                            0 <= d < cleared.n() implies !(#[trigger] cleared.subs(d)).contains(
                            Subscriber::Probe(p as usize),
                        ) by {
                            assert(cleared.subs(d) == old(self).subs(d));
                        }
                    }
                }
            }
            assert forall|j: int|
                0 <= j < old(self).n() && j != i && old(self).cache(j) is Some && (#[trigger] self
                    .cache(j)) is None implies old(self).depends_on(j, i as int) by {
                assert(cleared.cache(j) == old(self).cache(j));
                assert(cleared.depends_on(j, i as int) ==> old(self).depends_on(j, i as int)) by {
                    assert forall|j2: int| 0 <= j2 <= j implies (#[trigger] cleared.deps(j2))
                        == old(self).deps(j2) by {
                        assert(cleared.shape_eq_at(*old(self), j2));
                    }
                    cleared.lemma_depends_shape(*old(self), j, i as int);
                }
            }
            assert forall|d: int|
                0 <= d < old(self).n() && (#[trigger] self.subs(d)) != old(self).subs(
                d,
            ) implies (old(self).cache(d) is Some && self.cache(d) is None) by {
                assert(cleared.subs(d) == old(self).subs(d));
                if d == i {
                    assert(old(self).cache(d) is Some);
                    assert(self.cache(i as int) == cleared.cache(i as int));
                } else {
                    assert(cleared.cache(d) == old(self).cache(d));
                }
            }
            if old(self).wf() {
                self.lemma_wf_after_cascade(*old(self));
            }
            assert forall|p: int|
                0 <= p < old(self).n_probes() && old(self).probe_live(p) && old(
                    self,
                ).subscribed_only_at(p, i as int) && old(self).probe_total(p) + Self::occurrences(
                    old(self).subs(i as int),
                    Subscriber::Probe(p as usize),
                    old(self).subs(i as int).len() as int,
                ) <= u64::MAX implies (#[trigger] self.probe_total(p)) == old(self).probe_total(p)
                + Self::occurrences(
                old(self).subs(i as int),
                Subscriber::Probe(p as usize),
                old(self).subs(i as int).len() as int,
            ) by {
                assert(cleared.subs(i as int) == old(self).subs(i as int));
                assert(cleared.probes@ == old(self).probes@);
                assert(cleared.subscribed_only_at(p, i as int)) by {
                    assert forall|d: int|
                        0 <= d < cleared.n() && d != i implies !(#[trigger] cleared.subs(
                        d,
                    )).contains(Subscriber::Probe(p as usize)) by {
                        assert(cleared.subs(d) == old(self).subs(d));
                    }
                }
            }
        }
    }

    /// Overwrite input `i` with `value` and unconditionally broadcast
    /// invalidation — even if the new value equals the old one; there is no
    /// value-equality short-circuit.
    ///
    /// Afterward the graph is coherent again: every live node that
    /// transitively depends on `i` has an empty cache slot (so no stale value
    /// can ever be returned), while nodes outside that set — and their
    /// subscriber lists and memoized values — are untouched, and their true
    /// values are unchanged. Probe counters never decrease, and a released or
    /// unsubscribed probe does not move.
    pub fn set_value(&mut self, i: usize, value: u32)
        requires
            old(self).wf(),
            i < old(self).n(),
            old(self).is_input(i as int),
            old(self).node_live(i as int),
        ensures
            final(self).wf(),
            final(self).n() == old(self).n(),
            final(self).live@ == old(self).live@,
            final(self).n_probes() == old(self).n_probes(),
            final(self).is_input(i as int),
            final(self).stored(i as int) == value,
            final(self).eval(i as int) == value,
            forall|j: int|
                0 <= j < old(self).n() && j != i ==> #[trigger] final(self).shape_eq_at(
                    *old(self),
                    j,
                ),
            forall|j: int|
                0 <= j < old(self).n() && old(self).cache(j) is None ==> (#[trigger] final(self).cache(j)) is None,
            forall|j: int|
                0 <= j < old(self).n() ==> ((#[trigger] final(self).cache(j)) == old(self).cache(j)
                    || final(self).cache(j) is None),
            forall|j: int|
                0 <= j < old(self).n() && old(self).node_live(j) && old(self).depends_on(
                    j,
                    i as int,
                ) ==> (#[trigger] final(self).cache(j)) is None,
            forall|j: int|
                0 <= j < old(self).n() && j != i && !old(self).depends_on(j, i as int) ==> (
                #[trigger] final(self).cache(j)) == old(self).cache(j) && final(self).subs(j)
                    == old(self).subs(j),
            forall|j: int|
                0 <= j < old(self).n() && j != i && !old(self).depends_on(j, i as int) ==> (
                #[trigger] final(self).eval(j)) == old(self).eval(j),
            forall|p: int|
                0 <= p < old(self).n_probes() ==> (#[trigger] final(self).probe_live(p)) == old(self).probe_live(p),
            forall|p: int|
                0 <= p < old(self).n_probes() ==> old(self).probe_total(p) <= (#[trigger] final(self).probe_total(p)),
            forall|p: int|
                0 <= p < old(self).n_probes() && !old(self).probe_live(p) ==> (#[trigger] final(self).probe_total(p)) == old(self).probe_total(p),
            forall|p: int|
                0 <= p < old(self).n_probes() && old(self).unsubscribed(p) ==> (#[trigger] final(self).probe_total(p)) == old(self).probe_total(p),
            forall|d: int, s: Subscriber|
                0 <= d < old(self).n() && (#[trigger] final(self).subs(d).contains(s)) ==> old(self).subs(d).contains(s),
            forall|d: int, s: Subscriber|
                0 <= d < old(self).n() && (#[trigger] old(self).subs(d).contains(s)) && old(self).target_live(s) ==> final(self).subs(d).contains(s),
            forall|p: int|
                0 <= p < old(self).n_probes() && old(self).probe_live(p) && old(
                    self,
                ).subscribed_only_at(p, i as int) && old(self).probe_total(p)
                    + Graph::<C>::occurrences(
                    old(self).subs(i as int),
                    Subscriber::Probe(p as usize),
                    old(self).subs(i as int).len() as int,
                ) <= u64::MAX ==> (#[trigger] final(self).probe_total(p)) == old(self).probe_total(
                    p,
                ) + Graph::<C>::occurrences(
                    old(self).subs(i as int),
                    Subscriber::Probe(p as usize),
                    old(self).subs(i as int).len() as int,
                ),
    {
        match &mut self.nodes[i] {
            Node::Input { value: slot, .. } => {
                *slot = value;
            },
            _ => {},
        }
        let ghost g1 = *self;
        proof {
            assert forall|j: int| 0 <= j < old(self).n() && j != i implies g1.nodes@[j] == old(self).nodes@[j] by {}
            assert forall|j: int| 0 <= j < old(self).n() implies (#[trigger] g1.cache(j)) == old(self).cache(j) && g1.deps(j) == old(self).deps(j) && g1.subs(j) == old(self).subs(j)
                && g1.is_constant(j) == old(self).is_constant(j) && g1.is_computed(j) == old(self).is_computed(j) by {
                if j != i {
                    assert(g1.nodes@[j] == old(self).nodes@[j]);
                }
            }
            assert(g1.wf_core()) by {
                assert forall|i2: int, k2: int|
                    0 <= i2 < g1.n() && 0 <= k2 < g1.deps(i2).len() implies (#[trigger] g1.deps(
                    i2,
                )[k2]) < i2 by {
                    assert(g1.deps(i2) == old(self).deps(i2));
                }
                assert forall|i2: int, k2: int|
                    0 <= i2 < g1.n() && 0 <= k2 < g1.subs(i2).len() implies g1.sub_ok(
                    i2,
                    #[trigger] g1.subs(i2)[k2],
                ) by {
                    assert(g1.subs(i2) == old(self).subs(i2));
                    assert(old(self).sub_ok(i2, old(self).subs(i2)[k2]));
                }
                assert forall|j: int, k2: int|
                    0 <= j < g1.n() && g1.node_live(j) && 0 <= k2 < g1.deps(j).len() implies g1
                    .node_live(#[trigger] g1.deps(j)[k2] as int) by {
                    assert(g1.deps(j) == old(self).deps(j));
                }
            }
            assert(g1.edges_from(0)) by {
                assert forall|j: int, k2: int|
                    0 <= j < g1.n() && g1.node_live(j) && 0 <= k2 < g1.deps(j).len() && 0 <= (
                    #[trigger] g1.deps(j)[k2] as int) && !g1.is_constant(
                        g1.deps(j)[k2] as int,
                    ) implies g1.subs(g1.deps(j)[k2] as int).contains(
                    Subscriber::Dependent(j as usize),
                ) by {
                    assert(g1.deps(j) == old(self).deps(j));
                    let dd = g1.deps(j)[k2] as int;
                    assert(g1.subs(dd) == old(self).subs(dd));
                    assert(old(self).subs(dd).contains(Subscriber::Dependent(j as usize)));
                }
            }
        }
        self.publish_invalidate(i);
        proof {
            self.lemma_set_post(g1, *old(self), i as int, value);
            assert forall|p: int|
                0 <= p < old(self).n_probes() && old(self).probe_live(p) && old(
                    self,
                ).subscribed_only_at(p, i as int) && old(self).probe_total(p)
                    + Graph::<C>::occurrences(
                    old(self).subs(i as int),
                    Subscriber::Probe(p as usize),
                    old(self).subs(i as int).len() as int,
                ) <= u64::MAX implies (#[trigger] self.probe_total(p)) == old(self).probe_total(p)
                + Graph::<C>::occurrences(
                old(self).subs(i as int),
                Subscriber::Probe(p as usize),
                old(self).subs(i as int).len() as int,
            ) by {
                assert(g1.subs(i as int) == old(self).subs(i as int));
                assert(g1.probes@ == old(self).probes@);
                assert(g1.subscribed_only_at(p, i as int)) by {
                    assert forall|d: int|
                        0 <= d < g1.n() && d != i implies !(#[trigger] g1.subs(d)).contains(
                        Subscriber::Probe(p as usize),
                    ) by {
                        assert(g1.subs(d) == old(self).subs(d));
                    }
                }
            }
        }
    }

    /// Broadcast staleness from node `i`: every currently-live subscriber is
    /// notified exactly once per entry — dependents get their caches
    /// invalidated (cascading), probes count the firing — and entries whose
    /// target has been released are pruned, so later broadcasts only pay for
    /// live subscribers. Safe with zero subscribers, and reentrant cascades
    /// are sound because each publishing node detaches its own list first and
    /// nested work only ever touches nodes above it.
    pub fn publish_invalidate(&mut self, i: usize)
        requires
            old(self).wf_core(),
            old(self).edges_from(i as int),
            i < old(self).n(),
            old(self).node_live(i as int),
            !old(self).is_constant(i as int),
        ensures
            final(self).wf_core(),
            final(self).edges_from(i as int),
            old(self).cascade_rel(*final(self)),
            old(self).wf() ==> final(self).wf(),
            final(self).cache(i as int) == old(self).cache(i as int),
            forall|j: int|
                0 <= j < old(self).n() && old(self).node_live(j) && old(self).subs(
                    i as int,
                ).contains(Subscriber::Dependent(j as usize)) ==> (#[trigger] final(self).cache(j))
                    is None,
            forall|j: int|
                0 <= j < old(self).n() && old(self).cache(j) is Some && (#[trigger] final(self).cache(j)) is None ==> old(self).depends_on(j, i as int),
            forall|d: int|
                0 <= d < old(self).n() && d != i && (#[trigger] final(self).subs(d)) != old(self).subs(d) ==> (old(self).cache(d) is Some && final(self).cache(d) is None),
            forall|s: Subscriber| #[trigger]
                final(self).subs(i as int).contains(s) ==> old(self).subs(i as int).contains(s)
                    && old(self).target_live(s),
            forall|p: int|
                0 <= p < old(self).n_probes() && old(self).probe_live(p) && old(
                    self,
                ).subscribed_only_at(p, i as int) && old(self).probe_total(p) + Self::occurrences(
                    old(self).subs(i as int),
                    Subscriber::Probe(p as usize),
                    old(self).subs(i as int).len() as int,
                ) <= u64::MAX ==> (#[trigger] final(self).probe_total(p)) == old(self).probe_total(
                    p,
                ) + Self::occurrences(
                    old(self).subs(i as int),
                    Subscriber::Probe(p as usize),
                    old(self).subs(i as int).len() as int,
                ),
        decreases old(self).nodes@.len() - i, 0int,
    {
        let entries = self.take_subs(i);
        let ghost g1 = *self;
        let n_entries = entries.len();
        proof {
            assert forall|j: int| 0 <= j < old(self).n() implies #[trigger] g1.shape_eq_at(
                *old(self),
                j,
            ) && g1.cache(j) == old(self).cache(j) by {
                if j != i {
                    assert(g1.nodes@[j] == old(self).nodes@[j]);
                }
            }
            assert forall|j: int| 0 <= j < old(self).n() && j != i implies (#[trigger] g1.subs(j))
                == old(self).subs(j) by {
                assert(g1.nodes@[j] == old(self).nodes@[j]);
            }
            assert(g1.wf_core()) by {
                assert forall|i2: int, k2: int|
                    0 <= i2 < g1.n() && 0 <= k2 < g1.deps(i2).len() implies (#[trigger] g1.deps(
                    i2,
                )[k2]) < i2 by {
                    assert(g1.deps(i2) == old(self).deps(i2));
                }
                assert forall|i2: int, k2: int|
                    0 <= i2 < g1.n() && 0 <= k2 < g1.subs(i2).len() implies g1.sub_ok(
                    i2,
                    #[trigger] g1.subs(i2)[k2],
                ) by {
                    assert(i2 != i);
                    assert(g1.subs(i2) == old(self).subs(i2));
                    assert(old(self).sub_ok(i2, old(self).subs(i2)[k2]));
                    match g1.subs(i2)[k2] {
                        Subscriber::Dependent(j2) => {
                            assert(g1.shape_eq_at(*old(self), j2 as int));
                        },
                        Subscriber::Probe(_) => {},
                    }
                }
                assert forall|j: int, k2: int|
                    0 <= j < g1.n() && g1.node_live(j) && 0 <= k2 < g1.deps(j).len() implies g1
                    .node_live(#[trigger] g1.deps(j)[k2] as int) by {
                    assert(g1.deps(j) == old(self).deps(j));
                }
            }
            assert(g1.edges_from(i as int + 1)) by {
                assert forall|j: int, k2: int|
                    0 <= j < g1.n() && g1.node_live(j) && 0 <= k2 < g1.deps(j).len() && i as int + 1
                        <= (#[trigger] g1.deps(j)[k2] as int) && !g1.is_constant(
                        g1.deps(j)[k2] as int,
                    ) implies g1.subs(g1.deps(j)[k2] as int).contains(
                    Subscriber::Dependent(j as usize),
                ) by {
                    assert(g1.deps(j) == old(self).deps(j));
                    let dd = g1.deps(j)[k2] as int;
                    assert(g1.shape_eq_at(*old(self), dd));
                    assert(g1.subs(dd) == old(self).subs(dd));
                    assert(old(self).subs(dd).contains(Subscriber::Dependent(j as usize)));
                }
            }
            assert forall|m: int| 0 <= m < entries@.len() implies old(self).sub_ok(
                i as int,
                #[trigger] entries@[m],
            ) by {}
        }
        let mut kept: Vec<Subscriber> = Vec::new();
        let mut k: usize = 0;
        while k < n_entries
            invariant
                old(self).wf_core(),
                old(self).edges_from(i as int),
                i < old(self).n(),
                old(self).node_live(i as int),
                !old(self).is_constant(i as int),
                0 <= k <= n_entries,
                n_entries == entries@.len(),
                entries@ == old(self).subs(i as int),
                forall|m: int|
                    0 <= m < entries@.len() ==> old(self).sub_ok(i as int, #[trigger] entries@[m]),
                g1.n() == old(self).n(),
                g1.live@ == old(self).live@,
                g1.probes@ == old(self).probes@,
                g1.subs(i as int) == Seq::<Subscriber>::empty(),
                forall|j: int| 0 <= j < old(self).n() ==> #[trigger] g1.shape_eq_at(*old(self), j),
                forall|j: int|
                    0 <= j < old(self).n() ==> (#[trigger] g1.cache(j)) == old(self).cache(j),
                forall|j: int|
                    0 <= j < old(self).n() && j != i ==> (#[trigger] g1.subs(j)) == old(self).subs(j),
                self.wf_core(),
                self.edges_from(i as int + 1),
                i < self.n(),
                self.n() == old(self).n(),
                g1.wf_core(),
                g1.cascade_core(*self),
                forall|p: int|
                    0 <= p < old(self).n_probes() && old(self).unsubscribed(p) ==> (
                    #[trigger] self.probe_total(p)) == old(self).probe_total(p),
                self.subs(i as int) == Seq::<Subscriber>::empty(),
                self.cache(i as int) == old(self).cache(i as int),
                forall|s: Subscriber| #[trigger]
                    kept@.contains(s) ==> old(self).subs(i as int).contains(s) && old(self).target_live(s),
                forall|m: int|
                    0 <= m < k && old(self).target_live(#[trigger] entries@[m]) ==> kept@.contains(
                        entries@[m],
                    ),
                forall|m: int|
                    0 <= m < k && entries@[m] is Dependent && old(self).node_live(
                        entries@[m]->Dependent_0 as int,
                    ) ==> (#[trigger] self.cache(entries@[m]->Dependent_0 as int)) is None,
                forall|j: int|
                    0 <= j < old(self).n() && old(self).cache(j) is Some && (#[trigger] self.cache(
                        j,
                    )) is None ==> old(self).depends_on(j, i as int),
                forall|d: int|
                    0 <= d < old(self).n() && d != i && (#[trigger] self.subs(d)) != old(self).subs(
                        d,
                    ) ==> (old(self).cache(d) is Some && self.cache(d) is None),
                forall|p: int|
                    0 <= p < old(self).n_probes() && old(self).probe_live(p) && old(
                        self,
                    ).subscribed_only_at(p, i as int) && old(self).probe_total(p)
                        + Self::occurrences(
                        entries@,
                        Subscriber::Probe(p as usize),
                        n_entries as int,
                    ) <= u64::MAX ==> (#[trigger] self.probe_total(p)) == old(self).probe_total(p)
                        + Self::occurrences(entries@, Subscriber::Probe(p as usize), k as int),
            decreases n_entries - k,
        {
            let s = entries[k];
            let ghost pre = *self;
            match s {
                Subscriber::Dependent(j) => {
                    if self.live[j] {
                        self.invalidate_cache(j);
                        kept.push(s);
                        proof {
                            pre.lemma_cascade_step(*self, *old(self), g1, i as int, j as int);
                            assert(old(self).subs(i as int)[k as int] == s);
                            assert(old(self).subs(i as int).contains(s));
                            assert(pre.live@ == old(self).live@);
                            assert(old(self).target_live(s));
                            assert forall|p2: int|
                                0 <= p2 < old(self).n_probes() && old(self).probe_live(p2) && old(
                                    self,
                                ).subscribed_only_at(p2, i as int) implies (#[trigger] self
                                .probe_total(p2)) == pre.probe_total(p2) by {
                                assert(pre.unsubscribed(p2)) by {
                                    assert forall|d: int|
                                        0 <= d < pre.n() implies !(#[trigger] pre.subs(
                                        d,
                                    )).contains(Subscriber::Probe(p2 as usize)) by {
                                        if d != i && pre.subs(d).contains(
                                            Subscriber::Probe(p2 as usize),
                                        ) {
                                            assert(g1.subs(d).contains(
                                                Subscriber::Probe(p2 as usize),
                                            ));
                                            assert(g1.subs(d) == old(self).subs(d));
                                        }
                                    }
                                }
                            }
                            assert(entries@[k as int] is Dependent);
                        }
                    } else {
                        proof {
                            assert(self.live@ == g1.live@ && g1.live@ == old(self).live@);
                            assert(entries@[k as int] == s);
                            assert(!old(self).target_live(s));
                            assert(entries@[k as int] is Dependent);
                        }
                    }
                },
                Subscriber::Probe(p) => {
                    if self.probes[p].live {
                        let c = self.probes[p].count;
                        if c < u64::MAX {
                            self.probes[p].count = c + 1;
                        }
                        kept.push(s);
                        proof {
                            assert(self.nodes@ == pre.nodes@);
                            assert forall|j: int| 0 <= j < pre.n() implies #[trigger] self
                                .shape_eq_at(pre, j) && self.subs(j) == pre.subs(j) && self.cache(j)
                                == pre.cache(j) by {
                                assert(self.nodes@[j] == pre.nodes@[j]);
                            }
                            self.lemma_same_nodes_wf(pre, i as int + 1);
                            assert(pre.cascade_core(*self));
                            g1.lemma_cascade_trans(pre, *self);
                            assert(entries@[k as int] == Subscriber::Probe(p));
                            assert forall|p2: int|
                                0 <= p2 < old(self).n_probes() && old(self).unsubscribed(
                                    p2,
                                ) implies (#[trigger] self.probe_total(p2)) == old(self).probe_total(p2) by {
                                if p2 == p as int {
                                    assert(old(self).subs(i as int).contains(
                                        Subscriber::Probe(p),
                                    ));
                                    assert(false);
                                } else {
                                    assert(self.probes@[p2] == pre.probes@[p2]);
                                }
                            }
                            assert(old(self).subs(i as int)[k as int] == s);
                            assert(old(self).subs(i as int).contains(s));
                            assert(old(self).sub_ok(i as int, s));
                            assert(pre.probe_live(p as int) == old(self).probe_live(p as int));
                            assert(old(self).target_live(s));
                            assert forall|p2: int|
                                0 <= p2 < old(self).n_probes() && old(self).probe_live(p2) && old(
                                    self,
                                ).subscribed_only_at(p2, i as int) && old(self).probe_total(p2)
                                    + Self::occurrences(
                                    entries@,
                                    Subscriber::Probe(p2 as usize),
                                    n_entries as int,
                                ) <= u64::MAX implies (#[trigger] self.probe_total(p2)) == old(
                                self,
                            ).probe_total(p2) + Self::occurrences(
                                entries@,
                                Subscriber::Probe(p2 as usize),
                                k as int + 1,
                            ) by {
                                Self::lemma_occ_monotone(
                                    entries@,
                                    Subscriber::Probe(p2 as usize),
                                    k as int + 1,
                                    n_entries as int,
                                );
                                if p2 == p as int {
                                    assert(entries@[k as int] == Subscriber::Probe(p2 as usize));
                                } else {
                                    assert(p2 < self.probes@.len());
                                    assert(p2 as usize != p) by {
                                        assert(p2 <= usize::MAX);
                                    }
                                    assert(entries@[k as int] != Subscriber::Probe(p2 as usize));
                                    assert(self.probes@[p2] == pre.probes@[p2]);
                                }
                            }
                            assert forall|j: int|
                                0 <= j < old(self).n() && old(self).cache(j) is Some && (
                            #[trigger] self.cache(j)) is None implies old(self).depends_on(
                                j,
                                i as int,
                            ) by {
                                assert(self.cache(j) == pre.cache(j));
                            }
                            assert forall|d: int|
                                0 <= d < old(self).n() && d != i && (#[trigger] self.subs(d))
                                    != old(self).subs(d) implies (old(self).cache(d) is Some
                                && self.cache(d) is None) by {
                                assert(self.subs(d) == pre.subs(d));
                                assert(self.cache(d) == pre.cache(d));
                            }
                        }
                    } else {
                        proof {
                            assert(entries@[k as int] == s);
                            assert(old(self).subs(i as int).contains(s));
                            assert(old(self).sub_ok(i as int, s));
                            assert(self.probe_live(p as int) == g1.probe_live(p as int));
                            assert(g1.probes@ == old(self).probes@);
                            assert(!old(self).target_live(s));
                            assert forall|p2: int|
                                0 <= p2 < old(self).n_probes() && old(self).probe_live(p2) && old(
                                    self,
                                ).subscribed_only_at(p2, i as int) implies Self::occurrences(
                                entries@,
                                Subscriber::Probe(p2 as usize),
                                k as int + 1,
                            ) == Self::occurrences(
                                entries@,
                                Subscriber::Probe(p2 as usize),
                                k as int,
                            ) by {
                                assert(!old(self).probe_live(p as int));
                                assert(p2 != p as int);
                                assert(p2 as usize != p) by {
                                    assert(p2 <= usize::MAX);
                                }
                                assert(entries@[k as int] != Subscriber::Probe(p2 as usize));
                            }
                        }
                    }
                },
            }
            k += 1;
        }
        proof {
            assert(self.shape_eq_at(g1, i as int) && g1.shape_eq_at(*old(self), i as int));
            assert(!self.is_constant(i as int));
        }
        let ghost before_attach = *self;
        self.set_subs(i, kept);
        proof {
            assert forall|j: int| 0 <= j < old(self).n() && j != i implies self.nodes@[j]
                == before_attach.nodes@[j] by {}
            self.lemma_publish_post(before_attach, *old(self), g1, i as int);
            if old(self).wf() {
                self.lemma_wf_after_cascade(*old(self));
            }
            assert(self.probes@ == before_attach.probes@);
            assert forall|p: int|
                0 <= p < old(self).n_probes() && old(self).probe_live(p) && old(
                    self,
                ).subscribed_only_at(p, i as int) && old(self).probe_total(p) + Self::occurrences(
                    old(self).subs(i as int),
                    Subscriber::Probe(p as usize),
                    old(self).subs(i as int).len() as int,
                ) <= u64::MAX implies (#[trigger] self.probe_total(p)) == old(self).probe_total(p)
                + Self::occurrences(
                old(self).subs(i as int),
                Subscriber::Probe(p as usize),
                old(self).subs(i as int).len() as int,
            ) by {
                assert(before_attach.probe_total(p) == old(self).probe_total(p)
                    + Self::occurrences(
                    entries@,
                    Subscriber::Probe(p as usize),
                    n_entries as int,
                ));
            }
        }
    }

    /// A broadcast that starts from a fully coherent graph ends in one:
    /// caches are only cleared (and the survivors still match their nodes'
    /// unchanged true values), live subscriptions survive pruning, and no
    /// coherence violation appears.
    pub proof fn lemma_wf_after_cascade(self, g0: Graph<C>)
        requires
            g0.wf(),
            self.wf_core(),
            g0.cascade_core(self),
        ensures
            self.wf(),
    {
        assert forall|j: int| 0 <= j < g0.n() implies #[trigger] self.shape_eq_at(g0, j) by {}
        assert forall|j: int| 0 <= j < g0.n() implies (#[trigger] self.eval(j)) == g0.eval(j) by {
            self.lemma_eval_shape(g0, j);
        }
        assert(self.edges_from(0)) by {
            assert forall|j: int, k2: int|
                0 <= j < self.n() && self.node_live(j) && 0 <= k2 < self.deps(j).len() && 0 <= (
                #[trigger] self.deps(j)[k2] as int) && !self.is_constant(
                    self.deps(j)[k2] as int,
                ) implies self.subs(self.deps(j)[k2] as int).contains(
                Subscriber::Dependent(j as usize),
            ) by {
                assert(self.shape_eq_at(g0, j));
                let dd = self.deps(j)[k2] as int;
                assert(self.shape_eq_at(g0, dd));
                assert(g0.node_live(j));
                assert(g0.subs(dd).contains(Subscriber::Dependent(j as usize)));
                assert(g0.target_live(Subscriber::Dependent(j as usize)));
            }
        }
        assert forall|j: int, k2: int| !(#[trigger] self.viol(j, k2)) by {
            if self.viol(j, k2) {
                assert(g0.viol(j, k2));
            }
        }
        assert forall|j: int|
            0 <= j < self.n() && self.node_live(j) && (#[trigger] self.cache(
                j,
            )) is Some implies self.cache(j) == Some(self.eval(j)) by {
            assert(self.cache(j) == g0.cache(j));
            assert(g0.node_live(j));
            assert(g0.cache(j) == Some(g0.eval(j)));
        }
    }

    /// Wrap-up of `set_value`: writing the leaf and broadcasting staleness
    /// restores full coherence, leaves everything outside the dependent set
    /// untouched, and dirties the whole dependent set.
    proof fn lemma_set_post(self, g1: Graph<C>, g0: Graph<C>, i: int, value: u32)
        requires
            g0.wf(),
            0 <= i < g0.n(),
            g0.is_input(i),
            g0.node_live(i),
            g1.n() == g0.n(),
            g1.live@ == g0.live@,
            g1.probes@ == g0.probes@,
            g1.is_input(i),
            g1.stored(i) == value,
            forall|j: int| 0 <= j < g0.n() && j != i ==> g1.nodes@[j] == g0.nodes@[j],
            forall|j: int|
                0 <= j < g0.n() ==> (#[trigger] g1.cache(j)) == g0.cache(j) && g1.deps(j)
                    == g0.deps(j) && g1.subs(j) == g0.subs(j) && g1.is_constant(j)
                    == g0.is_constant(j) && g1.is_computed(j) == g0.is_computed(j),
            g1.wf_core(),
            g1.edges_from(0),
            // what the broadcast guarantees, relative to `g1`:
            self.wf_core(),
            self.edges_from(i),
            g1.cascade_rel(self),
            self.cache(i) == g1.cache(i),
            forall|j: int|
                0 <= j < g1.n() && g1.node_live(j) && g1.subs(i).contains(
                    Subscriber::Dependent(j as usize),
                ) ==> (#[trigger] self.cache(j)) is None,
            forall|j: int|
                0 <= j < g1.n() && g1.cache(j) is Some && (#[trigger] self.cache(j)) is None
                    ==> g1.depends_on(j, i),
            forall|d: int|
                0 <= d < g1.n() && d != i && (#[trigger] self.subs(d)) != g1.subs(d) ==> (g1.cache(
                    d,
                ) is Some && self.cache(d) is None),
        ensures
            self.wf(),
            self.n() == g0.n(),
            self.live@ == g0.live@,
            self.n_probes() == g0.n_probes(),
            self.is_input(i),
            self.stored(i) == value,
            self.eval(i) == value,
            forall|j: int| 0 <= j < g0.n() && j != i ==> #[trigger] self.shape_eq_at(g0, j),
            forall|j: int|
                0 <= j < g0.n() && g0.cache(j) is None ==> (#[trigger] self.cache(j)) is None,
            forall|j: int|
                0 <= j < g0.n() ==> ((#[trigger] self.cache(j)) == g0.cache(j) || self.cache(
                    j,
                ) is None),
            forall|j: int|
                0 <= j < g0.n() && g0.node_live(j) && g0.depends_on(j, i) ==> (#[trigger] self.cache(
                    j,
                )) is None,
            forall|j: int|
                0 <= j < g0.n() && j != i && !g0.depends_on(j, i) ==> (#[trigger] self.cache(j))
                    == g0.cache(j) && self.subs(j) == g0.subs(j),
            forall|j: int|
                0 <= j < g0.n() && j != i && !g0.depends_on(j, i) ==> (#[trigger] self.eval(j))
                    == g0.eval(j),
            forall|p: int|
                0 <= p < g0.n_probes() ==> (#[trigger] self.probe_live(p)) == g0.probe_live(p),
            forall|p: int|
                0 <= p < g0.n_probes() ==> g0.probe_total(p) <= (#[trigger] self.probe_total(p)),
            forall|p: int|
                0 <= p < g0.n_probes() && !g0.probe_live(p) ==> (#[trigger] self.probe_total(p))
                    == g0.probe_total(p),
            forall|p: int|
                0 <= p < g0.n_probes() && g0.unsubscribed(p) ==> (#[trigger] self.probe_total(p))
                    == g0.probe_total(p),
            forall|d: int, s: Subscriber|
                0 <= d < g0.n() && (#[trigger] self.subs(d).contains(s)) ==> g0.subs(d).contains(s),
            forall|d: int, s: Subscriber|
                0 <= d < g0.n() && (#[trigger] g0.subs(d).contains(s)) && g0.target_live(s)
                    ==> self.subs(d).contains(s),
    {
        assert forall|j: int|
            0 <= j < g0.n() implies (#[trigger] self.cache(j)) == g1.cache(j) || self.cache(
            j,
        ) is None by {}
        assert forall|j: int| 0 <= j < g0.n() implies #[trigger] self.shape_eq_at(g1, j) by {}
        assert forall|j: int| 0 <= j < g0.n() implies (#[trigger] self.deps(j)) == g0.deps(j) by {
            assert(self.shape_eq_at(g1, j));
            assert(g1.cache(j) == g0.cache(j));
        }
        assert forall|j: int| 0 <= j < g0.n() && j != i implies #[trigger] self.shape_eq_at(
            g0,
            j,
        ) by {
            assert(self.shape_eq_at(g1, j));
            assert(g1.nodes@[j] == g0.nodes@[j]);
        }
        assert forall|j: int| 0 <= j < g0.n() implies (#[trigger] self.depends_on(j, i))
            == g0.depends_on(j, i) by {
            self.lemma_depends_shape(g0, j, i);
        }
        // Every live direct dependent of `i` is dirty.
        assert forall|m: int|
            0 <= m < self.n() && self.node_live(m) && (#[trigger] self.deps(m)).contains(
                i as usize,
            ) implies self.cache(m) is None by {
            assert(g0.deps(m).contains(i as usize));
            let km = choose|km: int|
                0 <= km < g0.deps(m).len() && (#[trigger] g0.deps(m)[km]) == i as usize;
            assert(g0.node_live(m));
            assert(!g0.is_constant(i));
            assert(g0.subs(g0.deps(m)[km] as int).contains(Subscriber::Dependent(m as usize)));
            assert(g1.subs(i).contains(Subscriber::Dependent(m as usize)));
            assert(g1.node_live(m));
        }
        assert(self.caches_cd()) by {
            assert forall|j: int, k: int| !(#[trigger] self.viol(j, k)) by {
                if self.viol(j, k) {
                    assert(g1.viol(j, k));
                    assert(g1.deps(j) == g0.deps(j));
                    let dd = g1.deps(j)[k] as int;
                    assert(g1.cache(dd) == g0.cache(dd) && g1.is_computed(dd) == g0.is_computed(
                        dd,
                    ));
                    assert(g0.viol(j, k));
                }
            }
        }
        // ... hence, by propagation, so is every live transitive dependent.
        assert forall|j: int|
            0 <= j < g0.n() && g0.node_live(j) && g0.depends_on(j, i) implies (#[trigger] self.cache(
            j,
        )) is None by {
            assert(self.depends_on(j, i));
            self.lemma_propagation(i, j);
        }
        // Untouched nodes keep their caches and subscriptions.
        assert forall|j: int|
            0 <= j < g0.n() && j != i && !g0.depends_on(j, i) implies (#[trigger] self.cache(j))
                == g0.cache(j) && self.subs(j) == g0.subs(j) by {
            if self.cache(j) != g1.cache(j) {
                assert(self.cache(j) is None && g1.cache(j) is Some);
                assert(g1.depends_on(j, i));
                g1.lemma_depends_shape(g0, j, i);
            }
            if self.subs(j) != g1.subs(j) {
                assert(g1.cache(j) is Some && self.cache(j) is None);
            }
        }
        // ... and their true values.
        assert forall|j: int|
            0 <= j < g0.n() && j != i && !g0.depends_on(j, i) implies (#[trigger] self.eval(j))
                == g0.eval(j) by {
            assert(!self.depends_on(j, i));
            self.lemma_eval_input_frame(g0, i, j);
        }
        assert(self.caches_correct()) by {
            assert forall|j: int|
                0 <= j < self.n() && self.node_live(j) && (#[trigger] self.cache(
                    j,
                )) is Some implies self.cache(j) == Some(self.eval(j)) by {
                assert(g0.node_live(j));
                assert(!g0.depends_on(j, i));
                assert(self.cache(j) == g0.cache(j));
                assert(j != i) by {
                    assert(self.shape_eq_at(g1, j));
                }
                assert(g0.cache(j) == Some(g0.eval(j)));
            }
        }
        assert(self.edges_from(0)) by {
            assert forall|j: int, k2: int|
                0 <= j < self.n() && self.node_live(j) && 0 <= k2 < self.deps(j).len() && 0 <= (
                #[trigger] self.deps(j)[k2] as int) && !self.is_constant(
                    self.deps(j)[k2] as int,
                ) implies self.subs(self.deps(j)[k2] as int).contains(
                Subscriber::Dependent(j as usize),
            ) by {
                let dd = self.deps(j)[k2] as int;
                assert(self.deps(j) == g0.deps(j));
                assert(self.shape_eq_at(g1, dd));
                assert(g0.node_live(j));
                assert(g0.subs(dd).contains(Subscriber::Dependent(j as usize)));
                assert(g1.subs(dd).contains(Subscriber::Dependent(j as usize)));
                assert(g1.target_live(Subscriber::Dependent(j as usize)));
            }
        }
        assert(self.is_input(i) && self.stored(i) == g1.stored(i)) by {
            assert(self.shape_eq_at(g1, i));
        }
        assert(self.eval(i) == value);
        assert forall|p: int|
            0 <= p < g0.n_probes() && g0.unsubscribed(p) implies (#[trigger] self.probe_total(p))
                == g0.probe_total(p) by {
            assert(g1.unsubscribed(p)) by {
                assert forall|d: int|
                    0 <= d < g1.n() implies !(#[trigger] g1.subs(d)).contains(
                    Subscriber::Probe(p as usize),
                ) by {
                    assert(g1.subs(d) == g0.subs(d));
                }
            }
        }
        assert forall|d: int, s: Subscriber|
            0 <= d < g0.n() && (#[trigger] self.subs(d).contains(s)) implies g0.subs(d).contains(
            s,
        ) by {
            assert(g1.subs(d).contains(s));
        }
        assert forall|d: int, s: Subscriber|
            0 <= d < g0.n() && (#[trigger] g0.subs(d).contains(s)) && g0.target_live(
                s,
            ) implies self.subs(d).contains(s) by {
            assert(g1.subs(d).contains(s));
            assert(g1.target_live(s) == g0.target_live(s));
        }
    }

    /// A change that leaves the node arena and liveness untouched (such as
    /// bumping a probe counter) preserves the structural invariants.
    proof fn lemma_same_nodes_wf(self, other: Graph<C>, lo: int)
        requires
            other.wf_core(),
            other.edges_from(lo),
            self.nodes@ == other.nodes@,
            self.live@ == other.live@,
            self.n_probes() == other.n_probes(),
        ensures
            self.wf_core(),
            self.edges_from(lo),
    {
        assert forall|x: int| 0 <= x < self.n() implies self.deps(x) == other.deps(x) && self.subs(
            x,
        ) == other.subs(x) && self.is_computed(x) == other.is_computed(x) && self.is_constant(x)
            == other.is_constant(x) by {
            assert(self.nodes@[x] == other.nodes@[x]);
        }
        assert forall|i2: int, k2: int|
            0 <= i2 < self.n() && 0 <= k2 < self.subs(i2).len() implies self.sub_ok(
            i2,
            #[trigger] self.subs(i2)[k2],
        ) by {
            assert(other.sub_ok(i2, other.subs(i2)[k2]));
        }
        assert forall|j: int, k2: int|
            0 <= j < self.n() && self.node_live(j) && 0 <= k2 < self.deps(j).len() && lo <= (
            #[trigger] self.deps(j)[k2] as int) && !self.is_constant(
                self.deps(j)[k2] as int,
            ) implies self.subs(self.deps(j)[k2] as int).contains(
            Subscriber::Dependent(j as usize),
        ) by {
            assert(other.subs(other.deps(j)[k2] as int).contains(
                Subscriber::Dependent(j as usize),
            ));
        }
    }

    /// One step of a broadcast: after a nested `invalidate_cache(j)` took the
    /// graph from `self` to `cur`, the broadcast's working facts still hold.
    /// `g0` is the graph as the broadcast found it, `g1` the same graph with
    /// the publisher `i`'s list detached.
    proof fn lemma_cascade_step(self, cur: Graph<C>, g0: Graph<C>, g1: Graph<C>, i: int, j: int)
        requires
            g0.wf_core(),
            0 <= i < g0.n(),
            g1.n() == g0.n(),
            g1.subs(i) == Seq::<Subscriber>::empty(),
            forall|j2: int| 0 <= j2 < g0.n() ==> #[trigger] g1.shape_eq_at(g0, j2),
            forall|j2: int| 0 <= j2 < g0.n() ==> (#[trigger] g1.cache(j2)) == g0.cache(j2),
            forall|j2: int| 0 <= j2 < g0.n() && j2 != i ==> (#[trigger] g1.subs(j2)) == g0.subs(j2),
            g1.wf_core(),
            g1.n_probes() == g0.n_probes(),
            g1.probes@ == g0.probes@,
            self.wf_core(),
            self.edges_from(i + 1),
            self.n() == g0.n(),
            g1.cascade_core(self),
            forall|p: int|
                0 <= p < g0.n_probes() && g0.unsubscribed(p) ==> (#[trigger] self.probe_total(p))
                    == g0.probe_total(p),
            self.subs(i) == Seq::<Subscriber>::empty(),
            self.cache(i) == g0.cache(i),
            forall|j2: int|
                0 <= j2 < g0.n() && g0.cache(j2) is Some && (#[trigger] self.cache(j2)) is None
                    ==> g0.depends_on(j2, i),
            forall|d: int|
                0 <= d < g0.n() && d != i && (#[trigger] self.subs(d)) != g0.subs(d) ==> (g0.cache(
                    d,
                ) is Some && self.cache(d) is None),
            i < j < g0.n(),
            g0.deps(j).contains(i as usize),
            cur.wf_core(),
            cur.edges_from(j as int),
            self.cascade_rel(cur),
            cur.cache(j) is None,
            forall|j2: int|
                0 <= j2 < self.n() && j2 != j && self.cache(j2) is Some && (#[trigger] cur.cache(
                    j2,
                )) is None ==> self.depends_on(j2, j),
            forall|d: int|
                0 <= d < self.n() && (#[trigger] cur.subs(d)) != self.subs(d) ==> (self.cache(
                    d,
                ) is Some && cur.cache(d) is None),
        ensures
            cur.edges_from(i + 1),
            g1.cascade_core(cur),
            forall|p: int|
                0 <= p < g0.n_probes() && g0.unsubscribed(p) ==> (#[trigger] cur.probe_total(p))
                    == g0.probe_total(p),
            cur.subs(i) == Seq::<Subscriber>::empty(),
            cur.cache(i) == g0.cache(i),
            forall|j2: int|
                0 <= j2 < g0.n() && g0.cache(j2) is Some && (#[trigger] cur.cache(j2)) is None
                    ==> g0.depends_on(j2, i),
            forall|d: int|
                0 <= d < g0.n() && d != i && (#[trigger] cur.subs(d)) != g0.subs(d) ==> (g0.cache(
                    d,
                ) is Some && cur.cache(d) is None),
        decreases 0int,
    {
        g1.lemma_cascade_trans(self, cur);
        assert forall|j2: int| 0 <= j2 <= g0.n() - 1 implies #[trigger] self.shape_eq_at(
            g0,
            j2,
        ) by {
            assert(self.shape_eq_at(g1, j2));
            assert(g1.shape_eq_at(g0, j2));
        }
        // Anything the nested call touched lies strictly above `j`, hence
        // strictly above `i`.
        assert forall|d: int|
            0 <= d < g0.n() && (self.cache(d) is Some && (#[trigger] cur.cache(d)) is None) implies d
            > i by {
            if d != j {
                assert(self.depends_on(d, j));
                self.lemma_depends_lt(d, j);
            }
        }
        assert(cur.cache(i) == g0.cache(i));
        assert(cur.subs(i) == Seq::<Subscriber>::empty()) by {
            if cur.subs(i) != self.subs(i) {
                assert(self.cache(i) is Some && cur.cache(i) is None);
                assert(i > i);
            }
        }
        assert(cur.edges_from(i + 1)) by {
            assert forall|j2: int, k2: int|
                0 <= j2 < cur.n() && cur.node_live(j2) && 0 <= k2 < cur.deps(j2).len() && i + 1 <= (
                #[trigger] cur.deps(j2)[k2] as int) && !cur.is_constant(
                    cur.deps(j2)[k2] as int,
                ) implies cur.subs(cur.deps(j2)[k2] as int).contains(
                Subscriber::Dependent(j2 as usize),
            ) by {
                assert(cur.shape_eq_at(self, j2));
                let dd = cur.deps(j2)[k2] as int;
                assert(cur.shape_eq_at(self, dd));
                assert(cur.live@ == self.live@);
                assert(self.node_live(j2));
                assert(self.deps(j2) == cur.deps(j2));
                assert(self.subs(dd).contains(Subscriber::Dependent(j2 as usize)));
                assert(self.target_live(Subscriber::Dependent(j2 as usize)));
            }
        }
        assert forall|j2: int|
            0 <= j2 < g0.n() && g0.cache(j2) is Some && (#[trigger] cur.cache(j2)) is None implies g0
            .depends_on(j2, i) by {
            if self.cache(j2) is None {
            } else {
                assert(self.cache(j2) == g0.cache(j2));
                if j2 != j {
                    assert(self.depends_on(j2, j));
                    assert forall|j3: int| 0 <= j3 <= j2 implies (#[trigger] self.deps(j3))
                        == g0.deps(j3) by {
                        assert(self.shape_eq_at(g1, j3));
                        assert(g1.shape_eq_at(g0, j3));
                    }
                    self.lemma_depends_shape(g0, j2, j);
                    assert(g0.depends_on(j2, j));
                }
                assert(g0.deps(j).contains(i as usize));
                let m = choose|m: int|
                    0 <= m < g0.deps(j).len() && (#[trigger] g0.deps(j)[m]) == i as usize;
                assert(g0.deps(j)[m] == i as usize);
                assert(g0.depends_on(j, i)) by {
                    assert(0 <= m < g0.deps(j).len() && ((g0.deps(j)[m]) as int == i
                        || g0.depends_on(g0.deps(j)[m] as int, i)));
                }
                if j2 != j {
                    g0.lemma_depends_trans(j2, j, i);
                }
            }
        }
        assert forall|p: int|
            0 <= p < g0.n_probes() && g0.unsubscribed(p) implies (#[trigger] cur.probe_total(p))
                == g0.probe_total(p) by {
            assert(self.probe_total(p) == g0.probe_total(p));
            assert(self.unsubscribed(p)) by {
                assert forall|d: int|
                    0 <= d < self.n() implies !(#[trigger] self.subs(d)).contains(
                    Subscriber::Probe(p as usize),
                ) by {
                    if d != i && self.subs(d).contains(Subscriber::Probe(p as usize)) {
                        assert(g1.subs(d).contains(Subscriber::Probe(p as usize)));
                        assert(g0.subs(d).contains(Subscriber::Probe(p as usize)));
                    }
                }
            }
            assert(self.n_probes() == g0.n_probes());
        }
        assert forall|d: int|
            0 <= d < g0.n() && d != i && (#[trigger] cur.subs(d)) != g0.subs(d) implies (g0.cache(
            d,
        ) is Some && cur.cache(d) is None) by {
            if cur.subs(d) != self.subs(d) {
                assert(self.cache(d) is Some && cur.cache(d) is None);
                assert(self.cache(d) == g1.cache(d) || self.cache(d) is None);
            } else {
                assert(self.subs(d) != g0.subs(d));
                assert(g0.cache(d) is Some && self.cache(d) is None);
                assert(cur.cache(d) == self.cache(d) || cur.cache(d) is None);
            }
        }
    }

    /// Wrap-up of a broadcast: once the walked list is reattached (pruned to
    /// its live entries), the publisher's contract holds.
    proof fn lemma_publish_post(self, before: Graph<C>, g0: Graph<C>, g1: Graph<C>, i: int)
        requires
            g0.wf_core(),
            g0.edges_from(i),
            0 <= i < g0.n(),
            g0.node_live(i),
            !g0.is_constant(i),
            g1.n() == g0.n(),
            g1.subs(i) == Seq::<Subscriber>::empty(),
            forall|j2: int| 0 <= j2 < g0.n() ==> #[trigger] g1.shape_eq_at(g0, j2),
            forall|j2: int| 0 <= j2 < g0.n() ==> (#[trigger] g1.cache(j2)) == g0.cache(j2),
            forall|j2: int| 0 <= j2 < g0.n() && j2 != i ==> (#[trigger] g1.subs(j2)) == g0.subs(j2),
            g1.live@ == g0.live@,
            g1.probes@ == g0.probes@,
            g1.wf_core(),
            before.wf_core(),
            before.edges_from(i + 1),
            before.n() == g0.n(),
            g1.cascade_core(before),
            forall|p: int|
                0 <= p < g0.n_probes() && g0.unsubscribed(p) ==> (#[trigger] before.probe_total(p))
                    == g0.probe_total(p),
            before.cache(i) == g0.cache(i),
            forall|j2: int|
                0 <= j2 < g0.n() && g0.cache(j2) is Some && (#[trigger] before.cache(j2)) is None
                    ==> g0.depends_on(j2, i),
            forall|d: int|
                0 <= d < g0.n() && d != i && (#[trigger] before.subs(d)) != g0.subs(d) ==> (g0.cache(
                    d,
                ) is Some && before.cache(d) is None),
            forall|m: int|
                0 <= m < g0.subs(i).len() && (#[trigger] g0.subs(i)[m]) is Dependent
                    && g0.node_live(g0.subs(i)[m]->Dependent_0 as int) ==> before.cache(
                    g0.subs(i)[m]->Dependent_0 as int,
                ) is None,
            // `self` is `before` with the pruned list reattached at `i`:
            self.n() == before.n(),
            self.live@ == before.live@,
            self.probes@ == before.probes@,
            forall|j2: int| 0 <= j2 < before.n() && j2 != i ==> self.nodes@[j2] == before.nodes@[j2],
            self.shape_eq_at(before, i),
            self.cache(i) == before.cache(i),
            forall|s: Subscriber| #[trigger]
                self.subs(i).contains(s) ==> g0.subs(i).contains(s) && g0.target_live(s),
            forall|m: int|
                0 <= m < g0.subs(i).len() && g0.target_live(#[trigger] g0.subs(i)[m]) ==> self.subs(
                    i,
                ).contains(g0.subs(i)[m]),
        ensures
            self.wf_core(),
            self.edges_from(i),
            g0.cascade_rel(self),
            self.cache(i) == g0.cache(i),
            forall|j: int|
                0 <= j < g0.n() && g0.node_live(j) && g0.subs(i).contains(
                    Subscriber::Dependent(j as usize),
                ) ==> (#[trigger] self.cache(j)) is None,
            forall|j: int|
                0 <= j < g0.n() && g0.cache(j) is Some && (#[trigger] self.cache(j)) is None
                    ==> g0.depends_on(j, i),
            forall|d: int|
                0 <= d < g0.n() && d != i && (#[trigger] self.subs(d)) != g0.subs(d) ==> (g0.cache(
                    d,
                ) is Some && self.cache(d) is None),
    {
        assert forall|j2: int| 0 <= j2 < g0.n() implies #[trigger] self.shape_eq_at(g0, j2)
            && self.cache(j2) == before.cache(j2) && self.node_live(j2) == g0.node_live(j2) by {
            if j2 != i {
                assert(self.nodes@[j2] == before.nodes@[j2]);
            }
            assert(self.shape_eq_at(before, j2));
            assert(before.shape_eq_at(g1, j2));
            assert(g1.shape_eq_at(g0, j2));
        }
        assert forall|j2: int| 0 <= j2 < g0.n() && j2 != i implies (#[trigger] self.subs(j2))
            == before.subs(j2) by {
            assert(self.nodes@[j2] == before.nodes@[j2]);
        }
        assert(self.wf_core()) by {
            assert forall|i2: int, k2: int|
                0 <= i2 < self.n() && 0 <= k2 < self.deps(i2).len() implies (#[trigger] self.deps(
                i2,
            )[k2]) < i2 by {
                assert(self.shape_eq_at(g0, i2));
            }
            assert forall|i2: int, k2: int|
                0 <= i2 < self.n() && 0 <= k2 < self.subs(i2).len() implies self.sub_ok(
                i2,
                #[trigger] self.subs(i2)[k2],
            ) by {
                let s = self.subs(i2)[k2];
                assert(self.subs(i2).contains(s));
                if i2 == i {
                    assert(g0.subs(i).contains(s));
                    let m = choose|m: int| 0 <= m < g0.subs(i).len() && g0.subs(i)[m] == s;
                    assert(g0.sub_ok(i, s));
                } else {
                    assert(before.subs(i2).contains(s));
                    assert(g1.subs(i2).contains(s));
                    assert(g0.subs(i2).contains(s));
                    let m = choose|m: int| 0 <= m < g0.subs(i2).len() && g0.subs(i2)[m] == s;
                    assert(g0.sub_ok(i2, s));
                }
                match s {
                    Subscriber::Dependent(j2) => {
                        assert(self.shape_eq_at(g0, j2 as int));
                    },
                    Subscriber::Probe(_) => {},
                }
            }
            assert forall|j2: int, k2: int|
                0 <= j2 < self.n() && self.node_live(j2) && 0 <= k2 < self.deps(
                    j2,
                ).len() implies self.node_live(#[trigger] self.deps(j2)[k2] as int) by {
                assert(self.shape_eq_at(g0, j2));
                assert(g0.node_live(g0.deps(j2)[k2] as int));
                assert(self.shape_eq_at(g0, self.deps(j2)[k2] as int));
            }
        }
        assert(self.edges_from(i)) by {
            assert forall|j2: int, k2: int|
                0 <= j2 < self.n() && self.node_live(j2) && 0 <= k2 < self.deps(j2).len() && i <= (
                #[trigger] self.deps(j2)[k2] as int) && !self.is_constant(
                    self.deps(j2)[k2] as int,
                ) implies self.subs(self.deps(j2)[k2] as int).contains(
                Subscriber::Dependent(j2 as usize),
            ) by {
                assert(self.shape_eq_at(g0, j2));
                let dd = self.deps(j2)[k2] as int;
                assert(self.shape_eq_at(g0, dd));
                assert(self.live@ == before.live@ && before.live@ == g1.live@ && g1.live@
                    == g0.live@);
                assert(g0.node_live(j2));
                assert(g0.deps(j2) == self.deps(j2));
                assert(g0.subs(dd).contains(Subscriber::Dependent(j2 as usize)));
                let s = Subscriber::Dependent(j2 as usize);
                assert(g0.target_live(s));
                if dd == i {
                    let m = choose|m: int| 0 <= m < g0.subs(i).len() && g0.subs(i)[m] == s;
                    assert(g0.target_live(g0.subs(i)[m]));
                    assert(self.subs(i).contains(s));
                } else {
                    assert(g1.subs(dd) == g0.subs(dd));
                    assert(g1.subs(dd).contains(s));
                    assert(g1.target_live(s));
                    assert(before.subs(dd).contains(s));
                    assert(self.subs(dd) == before.subs(dd));
                }
            }
        }
        assert(self.live@ == g0.live@);
        assert forall|p: int|
            0 <= p < g0.n_probes() implies (#[trigger] self.probe_live(p)) == g0.probe_live(p) by {
            assert(self.probes@ == before.probes@);
            assert(before.probe_live(p) == g1.probe_live(p));
            assert(g1.probes@ == g0.probes@);
        }
        assert forall|p: int|
            0 <= p < g0.n_probes() implies (g0.probe_total(p) <= (#[trigger] self.probe_total(p)))
                && (!g0.probe_live(p) ==> self.probe_total(p) == g0.probe_total(p)) by {
            assert(self.probes@ == before.probes@);
            assert(g1.probe_total(p) <= before.probe_total(p));
            assert(!g1.probe_live(p) ==> before.probe_total(p) == g1.probe_total(p));
            assert(g1.probes@ == g0.probes@);
        }
        assert forall|j: int|
            0 <= j < g0.n() implies ((#[trigger] self.cache(j)) == g0.cache(j) || self.cache(
            j,
        ) is None) by {
            assert(self.cache(j) == before.cache(j));
            assert(before.cache(j) == g1.cache(j) || before.cache(j) is None);
            assert(g1.cache(j) == g0.cache(j));
        }
        assert forall|j: int|
            0 <= j < g0.n() && g0.cache(j) is Some && (#[trigger] self.cache(j)) is None implies g0
            .depends_on(j, i) by {
            assert(self.cache(j) == before.cache(j));
        }
        assert(g0.cascade_rel(self)) by {
            assert forall|d: int, s: Subscriber|
                0 <= d < g0.n() && (#[trigger] self.subs(d).contains(s)) implies g0.subs(d).contains(
                s,
            ) by {
                if d != i {
                    assert(before.subs(d).contains(s));
                    assert(g1.subs(d).contains(s));
                }
            }
            assert forall|d: int, s: Subscriber|
                0 <= d < g0.n() && (#[trigger] g0.subs(d).contains(s)) && g0.target_live(
                    s,
                ) implies self.subs(d).contains(s) by {
                let m = choose|m: int| 0 <= m < g0.subs(d).len() && g0.subs(d)[m] == s;
                assert(g0.sub_ok(d, s));
                if d != i {
                    assert(g1.subs(d) == g0.subs(d));
                    assert(g1.subs(d).contains(s));
                    assert(g1.target_live(s)) by {
                        match s {
                            Subscriber::Dependent(j2) => {},
                            Subscriber::Probe(p2) => {
                                assert(g1.probes@[p2 as int] == g0.probes@[p2 as int]);
                            },
                        }
                    }
                    assert(before.subs(d).contains(s));
                    assert(self.subs(d) == before.subs(d));
                } else {
                    assert(g0.target_live(g0.subs(i)[m]));
                }
            }
            assert forall|j2: int, k2: int| #[trigger]
                self.viol(j2, k2) implies g0.viol(j2, k2) by {
                assert(before.viol(j2, k2)) by {
                    assert(self.shape_eq_at(before, j2));
                    if 0 <= j2 < self.n() && 0 <= k2 < self.deps(j2).len() {
                        let dd = self.deps(j2)[k2] as int;
                        assert(self.cache(dd) == before.cache(dd) && self.shape_eq_at(before, dd));
                    }
                }
                assert(g1.viol(j2, k2));
                if 0 <= j2 < g1.n() && 0 <= k2 < g1.deps(j2).len() {
                    assert(g1.shape_eq_at(g0, j2));
                    let dd = g1.deps(j2)[k2] as int;
                    assert(g1.cache(dd) == g0.cache(dd) && g1.shape_eq_at(g0, dd));
                }
            }
            assert forall|p: int|
                0 <= p < g0.n_probes() && g0.unsubscribed(p) implies (#[trigger] self.probe_total(
                p,
            )) == g0.probe_total(p) by {
                assert(before.probe_total(p) == g0.probe_total(p));
                assert(self.probes@ == before.probes@);
            }
        }
        assert forall|j: int|
            0 <= j < g0.n() && g0.node_live(j) && g0.subs(i).contains(
                Subscriber::Dependent(j as usize),
            ) implies (#[trigger] self.cache(j)) is None by {
            let s = Subscriber::Dependent(j as usize);
            let m = choose|m: int| 0 <= m < g0.subs(i).len() && (#[trigger] g0.subs(i)[m]) == s;
            assert(before.cache(s->Dependent_0 as int) is None);
        }
    }

    /// After `define_node` has wired every edge, the graph is well formed
    /// again and no existing value changed.
    proof fn lemma_define_post(self, prev: Graph<C>, gdeps: Seq<usize>, gcomb: C, id: usize)
        requires
            prev.wf(),
            self.nodes@.len() <= usize::MAX,
            id == prev.n(),
            self.n() == prev.n() + 1,
            self.live@ == prev.live@.push(true),
            self.probes@ == prev.probes@,
            self.is_computed(id as int),
            self.deps(id as int) == gdeps,
            self.comb(id as int) == gcomb,
            self.cache(id as int) is None,
            self.subs(id as int) == Seq::<Subscriber>::empty(),
            self.node_live(id as int),
            forall|m: int| 0 <= m < gdeps.len() ==> (#[trigger] gdeps[m] as int) < id,
            forall|m: int| 0 <= m < gdeps.len() ==> prev.node_live(#[trigger] gdeps[m] as int),
            forall|j: int| 0 <= j < id ==> #[trigger] self.shape_eq_at(prev, j),
            forall|j: int| 0 <= j < id ==> (#[trigger] self.cache(j)) == prev.cache(j),
            forall|j: int| 0 <= j < id ==> (#[trigger] self.node_live(j)) == prev.node_live(j),
            forall|j: int, s: Subscriber|
                0 <= j < id ==> ((#[trigger] self.subs(j).contains(s)) <==> (prev.subs(j).contains(
                    s,
                ) || (s == Subscriber::Dependent(id) && gdeps.contains(j as usize)
                    && !prev.is_constant(j)))),
        ensures
            self.wf(),
            forall|j: int| 0 <= j < prev.n() ==> (#[trigger] self.eval(j)) == prev.eval(j),
            self.eval(id as int) == gcomb.spec_compute(
                Seq::new(gdeps.len(), |m: int| prev.eval(gdeps[m] as int)),
            ),
    {
        assert(self.deps_ok()) by {
            assert forall|i: int, k: int|
                0 <= i < self.n() && 0 <= k < self.deps(i).len() implies (#[trigger] self.deps(
                i,
            )[k]) < i by {
                if i < id {
                    assert(self.shape_eq_at(prev, i));
                }
            }
        }
        assert(self.subs_ok()) by {
            assert forall|i: int, k: int|
                0 <= i < self.n() && 0 <= k < self.subs(i).len() implies self.sub_ok(
                i,
                #[trigger] self.subs(i)[k],
            ) by {
                let s = self.subs(i)[k];
                assert(self.subs(i).contains(s));
                if i < id {
                    assert(self.shape_eq_at(prev, i));
                    if prev.subs(i).contains(s) {
                        let m = choose|m: int| 0 <= m < prev.subs(i).len() && prev.subs(i)[m] == s;
                        assert(prev.sub_ok(i, s));
                        if s is Dependent {
                            let j2 = s->Dependent_0;
                            assert(self.shape_eq_at(prev, j2 as int));
                        }
                    } else {
                        assert(s == Subscriber::Dependent(id) && gdeps.contains(i as usize));
                    }
                }
            }
        }
        assert(self.live_deps_ok()) by {
            assert forall|j: int, k: int|
                0 <= j < self.n() && self.node_live(j) && 0 <= k < self.deps(j).len() implies self
                .node_live(#[trigger] self.deps(j)[k] as int) by {
                if j < id {
                    assert(self.shape_eq_at(prev, j));
                }
            }
        }
        assert(self.edges_from(0)) by {
            assert forall|j: int, k: int|
                0 <= j < self.n() && self.node_live(j) && 0 <= k < self.deps(j).len() && 0 <= (
                #[trigger] self.deps(j)[k] as int) && !self.is_constant(self.deps(j)[k] as int)
                implies self.subs(self.deps(j)[k] as int).contains(
                Subscriber::Dependent(j as usize),
            ) by {
                let dd = self.deps(j)[k] as int;
                assert(self.shape_eq_at(prev, dd));
                if j < id {
                    assert(self.shape_eq_at(prev, j));
                    assert(prev.subs(dd).contains(Subscriber::Dependent(j as usize)));
                } else {
                    assert(gdeps.contains(gdeps[k]));
                }
            }
        }
        assert forall|j: int| 0 <= j < prev.n() implies (#[trigger] self.eval(j)) == prev.eval(
            j,
        ) by {
            assert forall|j2: int| 0 <= j2 <= j implies self.shape_eq_at(prev, j2) by {}
            self.lemma_eval_shape(prev, j);
        }
        assert forall|j: int, k: int| !(#[trigger] self.viol(j, k)) by {
            if 0 <= j < id && 0 <= k < self.deps(j).len() {
                assert(!prev.viol(j, k));
                assert(self.shape_eq_at(prev, j));
                let dd = self.deps(j)[k] as int;
                assert(self.shape_eq_at(prev, dd));
                assert(self.clean(dd) == prev.clean(dd));
            }
        }
        self.lemma_eval_deps_props(id as int, gdeps.len() as int);
        assert(self.eval_deps(id as int, gdeps.len() as int) =~= Seq::new(
            gdeps.len(),
            |m: int| prev.eval(gdeps[m] as int),
        ));
    }

    /// Subscribe probe `p` to node `i`'s invalidation publisher, so the probe
    /// counts every broadcast the node makes from now on. Exposed for
    /// instrumentation and testing; node-to-node wiring happens only in
    /// `define_node`. On a constant this is a no-op: constants never publish.
    pub fn subscribe_to_invalidate(&mut self, i: usize, p: usize)
        requires
            old(self).wf(),
            i < old(self).n(),
            p < old(self).n_probes(),
        ensures
            final(self).wf(),
            final(self).n() == old(self).n(),
            final(self).live@ == old(self).live@,
            final(self).probes@ == old(self).probes@,
            forall|j: int|
                0 <= j < old(self).n() && j != i ==> final(self).nodes@[j] == old(self).nodes@[j],
            final(self).shape_eq_at(*old(self), i as int),
            final(self).cache(i as int) == old(self).cache(i as int),
            final(self).subs(i as int) == if old(self).is_constant(i as int) {
                old(self).subs(i as int)
            } else {
                old(self).subs(i as int).push(Subscriber::Probe(p))
            },
    {
        self.push_sub(i, Subscriber::Probe(p));
        proof {
            assert forall|j: int| 0 <= j < old(self).n() implies #[trigger] self.shape_eq_at(
                *old(self),
                j,
            ) && self.cache(j) == old(self).cache(j) by {
                if j != i {
                    assert(self.nodes@[j] == old(self).nodes@[j]);
                }
            }
            assert forall|j: int| 0 <= j < old(self).n() && j != i implies (#[trigger] self.subs(j))
                == old(self).subs(j) by {
                assert(self.nodes@[j] == old(self).nodes@[j]);
            }
            assert(self.deps_ok()) by {
                assert forall|i2: int, k2: int|
                    0 <= i2 < self.n() && 0 <= k2 < self.deps(i2).len() implies (#[trigger] self
                    .deps(i2)[k2]) < i2 by {
                    assert(self.shape_eq_at(*old(self), i2));
                }
            }
            assert forall|j: int| 0 <= j < old(self).n() implies (#[trigger] self.eval(j)) == old(
                self,
            ).eval(j) by {
                self.lemma_eval_shape(*old(self), j);
            }
            assert(self.wf()) by {
                assert forall|i2: int, k2: int|
                    0 <= i2 < self.n() && 0 <= k2 < self.subs(i2).len() implies self.sub_ok(
                    i2,
                    #[trigger] self.subs(i2)[k2],
                ) by {
                    let s = self.subs(i2)[k2];
                    if i2 != i || (!old(self).is_constant(i as int) && k2 < old(self).subs(
                        i as int,
                    ).len()) {
                        assert(old(self).sub_ok(i2, old(self).subs(i2)[k2]));
                    }
                    match s {
                        Subscriber::Dependent(j2) => {
                            assert(self.shape_eq_at(*old(self), j2 as int));
                        },
                        Subscriber::Probe(_) => {},
                    }
                }
                assert forall|j: int, k2: int|
                    0 <= j < self.n() && self.node_live(j) && 0 <= k2 < self.deps(j).len() && 0 <= (
                    #[trigger] self.deps(j)[k2] as int) && !self.is_constant(
                        self.deps(j)[k2] as int,
                    ) implies self.subs(self.deps(j)[k2] as int).contains(
                    Subscriber::Dependent(j as usize),
                ) by {
                    assert(self.shape_eq_at(*old(self), j));
                    let dd = self.deps(j)[k2] as int;
                    assert(self.shape_eq_at(*old(self), dd));
                    assert(old(self).subs(dd).contains(Subscriber::Dependent(j as usize)));
                    if dd == i && !old(self).is_constant(i as int) {
                        assert(self.subs(dd) == old(self).subs(dd).push(Subscriber::Probe(p)));
                    } else {
                        assert(self.subs(dd) == old(self).subs(dd));
                    }
                }
                assert forall|j: int, k2: int|
                    0 <= j < self.n() && self.node_live(j) && 0 <= k2 < self.deps(
                        j,
                    ).len() implies self.node_live(#[trigger] self.deps(j)[k2] as int) by {
                    assert(self.shape_eq_at(*old(self), j));
                    assert(old(self).node_live(old(self).deps(j)[k2] as int));
                }
                assert forall|j: int, k2: int| !(#[trigger] self.viol(j, k2)) by {
                    if self.viol(j, k2) {
                        assert(self.shape_eq_at(*old(self), j));
                        assert(self.cache(self.deps(j)[k2] as int) == old(self).cache(
                            old(self).deps(j)[k2] as int,
                        ));
                        assert(old(self).viol(j, k2));
                    }
                }
                assert forall|j: int|
                    0 <= j < self.n() && self.node_live(j) && (#[trigger] self.cache(
                        j,
                    )) is Some implies self.cache(j) == Some(self.eval(j)) by {
                    assert(old(self).cache(j) == Some(old(self).eval(j)));
                }
            }
        }
    }

    /// Create a fresh invalidation counter, initially zero and live.
    pub fn create_probe(&mut self) -> (p: usize)
        requires
            old(self).wf(),
        ensures
            final(self).wf(),
            p == old(self).n_probes(),
            final(self).n_probes() == old(self).n_probes() + 1,
            final(self).probes@ == old(self).probes@.push(Probe { count: 0, live: true }),
            final(self).nodes@ == old(self).nodes@,
            final(self).live@ == old(self).live@,
            final(self).probe_total(p as int) == 0,
            final(self).probe_live(p as int),
    {
        let p = self.probes.len();
        self.probes.push(Probe { count: 0, live: true });
        proof {
            vstd::std_specs::vec::axiom_spec_len(&self.probes);
            self.lemma_probes_only_changed(*old(self));
        }
        p
    }

    /// How many times the publishers this probe subscribes to have fired
    /// since the last reset (saturating).
    pub fn probe_count(&self, p: usize) -> (r: u64)
        requires
            p < self.n_probes(),
        ensures
            r == self.probe_total(p as int),
    {
        self.probes[p].count
    }

    /// Reset a probe's counter to zero.
    pub fn reset_probe(&mut self, p: usize)
        requires
            old(self).wf(),
            p < old(self).n_probes(),
        ensures
            final(self).wf(),
            final(self).nodes@ == old(self).nodes@,
            final(self).live@ == old(self).live@,
            final(self).n_probes() == old(self).n_probes(),
            final(self).probe_total(p as int) == 0,
            final(self).probe_live(p as int) == old(self).probe_live(p as int),
            forall|q: int|
                0 <= q < old(self).n_probes() && q != p ==> final(self).probes@[q] == old(
                    self,
                ).probes@[q],
    {
        self.probes[p].count = 0;
        proof {
            self.lemma_probes_only_changed(*old(self));
        }
    }

    /// Release a probe: its subscriber entries go dead and will be pruned by
    /// the next broadcast of each publisher they sit in.
    pub fn release_probe(&mut self, p: usize)
        requires
            old(self).wf(),
            p < old(self).n_probes(),
        ensures
            final(self).wf(),
            final(self).nodes@ == old(self).nodes@,
            final(self).live@ == old(self).live@,
            final(self).n_probes() == old(self).n_probes(),
            !final(self).probe_live(p as int),
            final(self).probe_total(p as int) == old(self).probe_total(p as int),
            forall|q: int|
                0 <= q < old(self).n_probes() && q != p ==> final(self).probes@[q] == old(
                    self,
                ).probes@[q],
    {
        self.probes[p].live = false;
        proof {
            self.lemma_probes_only_changed(*old(self));
        }
    }

    /// A change confined to the probe table preserves well-formedness and
    /// every node-level fact.
    proof fn lemma_probes_only_changed(self, prev: Graph<C>)
        requires
            prev.wf(),
            self.nodes@ == prev.nodes@,
            self.live@ == prev.live@,
            self.n_probes() >= prev.n_probes(),
            self.probes@.len() <= usize::MAX,
        ensures
            self.wf(),
    {
        assert forall|x: int| 0 <= x < self.n() implies #[trigger] self.shape_eq_at(prev, x)
            && self.deps(x) == prev.deps(x) && self.subs(x) == prev.subs(x) && self.cache(x)
            == prev.cache(x) by {
            assert(self.nodes@[x] == prev.nodes@[x]);
        }
        assert(self.deps_ok()) by {
            assert forall|i2: int, k2: int|
                0 <= i2 < self.n() && 0 <= k2 < self.deps(i2).len() implies (#[trigger] self.deps(
                i2,
            )[k2]) < i2 by {
                assert(self.deps(i2) == prev.deps(i2));
            }
        }
        assert forall|i2: int, k2: int|
            0 <= i2 < self.n() && 0 <= k2 < self.subs(i2).len() implies self.sub_ok(
            i2,
            #[trigger] self.subs(i2)[k2],
        ) by {
            assert(prev.sub_ok(i2, prev.subs(i2)[k2]));
        }
        assert forall|j: int, k2: int|
            0 <= j < self.n() && self.node_live(j) && 0 <= k2 < self.deps(j).len() && 0 <= (
            #[trigger] self.deps(j)[k2] as int) && !self.is_constant(
                self.deps(j)[k2] as int,
            ) implies self.subs(self.deps(j)[k2] as int).contains(
            Subscriber::Dependent(j as usize),
        ) by {
            assert(prev.subs(prev.deps(j)[k2] as int).contains(Subscriber::Dependent(j as usize)));
        }
        assert forall|j: int| 0 <= j < prev.n() implies (#[trigger] self.eval(j)) == prev.eval(
            j,
        ) by {
            self.lemma_eval_shape(prev, j);
        }
        assert forall|j: int, k2: int| !(#[trigger] self.viol(j, k2)) by {
            if self.viol(j, k2) {
                assert(self.cache(self.deps(j)[k2] as int) == prev.cache(prev.deps(j)[k2] as int));
                assert(prev.viol(j, k2));
            }
        }
        assert forall|j: int, k2: int|
            0 <= j < self.n() && self.node_live(j) && 0 <= k2 < self.deps(j).len() implies self
            .node_live(#[trigger] self.deps(j)[k2] as int) by {
            assert(prev.node_live(prev.deps(j)[k2] as int));
        }
        assert forall|j: int|
            0 <= j < self.n() && self.node_live(j) && (#[trigger] self.cache(
                j,
            )) is Some implies self.cache(j) == Some(self.eval(j)) by {
            assert(prev.cache(j) == Some(prev.eval(j)));
        }
    }

    /// Release a node: mark it no longer owned. Its subscriber entries go
    /// dead, to be pruned lazily by later broadcasts. Dependents own their
    /// dependencies, so a node can only be released once nothing live
    /// depends on it.
    pub fn release_node(&mut self, i: usize)
        requires
            old(self).wf(),
            i < old(self).n(),
            old(self).node_live(i as int),
            forall|j: int|
                0 <= j < old(self).n() && old(self).node_live(j) ==> !(#[trigger] old(self).deps(
                    j,
                )).contains(i),
        ensures
            final(self).wf(),
            final(self).nodes@ == old(self).nodes@,
            final(self).probes@ == old(self).probes@,
            final(self).live@ == old(self).live@.update(i as int, false),
            !final(self).node_live(i as int),
            forall|j: int|
                0 <= j < old(self).n() && j != i ==> (#[trigger] final(self).node_live(j)) == old(
                    self,
                ).node_live(j),
    {
        self.live[i] = false;
        proof {
            assert forall|x: int| 0 <= x < self.n() implies #[trigger] self.shape_eq_at(
                *old(self),
                x,
            ) && self.deps(x) == old(self).deps(x) && self.subs(x) == old(self).subs(x)
                && self.cache(x) == old(self).cache(x) by {}
            assert(self.deps_ok()) by {
                assert forall|i2: int, k2: int|
                    0 <= i2 < self.n() && 0 <= k2 < self.deps(i2).len() implies (#[trigger] self
                    .deps(i2)[k2]) < i2 by {
                    assert(self.deps(i2) == old(self).deps(i2));
                }
            }
            assert forall|i2: int, k2: int|
                0 <= i2 < self.n() && 0 <= k2 < self.subs(i2).len() implies self.sub_ok(
                i2,
                #[trigger] self.subs(i2)[k2],
            ) by {
                assert(old(self).sub_ok(i2, old(self).subs(i2)[k2]));
            }
            assert forall|j: int, k2: int|
                0 <= j < self.n() && self.node_live(j) && 0 <= k2 < self.deps(j).len() implies self
                .node_live(#[trigger] self.deps(j)[k2] as int) by {
                assert(old(self).node_live(j));
                assert(old(self).node_live(old(self).deps(j)[k2] as int));
                assert(old(self).deps(j)[k2] != i) by {
                    if old(self).deps(j)[k2] == i {
                        assert(old(self).deps(j).contains(i));
                    }
                }
            }
            assert forall|j: int, k2: int|
                0 <= j < self.n() && self.node_live(j) && 0 <= k2 < self.deps(j).len() && 0 <= (
                #[trigger] self.deps(j)[k2] as int) && !self.is_constant(
                    self.deps(j)[k2] as int,
                ) implies self.subs(self.deps(j)[k2] as int).contains(
                Subscriber::Dependent(j as usize),
            ) by {
                assert(old(self).node_live(j));
                assert(old(self).subs(old(self).deps(j)[k2] as int).contains(
                    Subscriber::Dependent(j as usize),
                ));
            }
            assert forall|j: int| 0 <= j < old(self).n() implies (#[trigger] self.eval(j)) == old(
                self,
            ).eval(j) by {
                self.lemma_eval_shape(*old(self), j);
            }
            assert forall|j: int, k2: int| !(#[trigger] self.viol(j, k2)) by {
                if self.viol(j, k2) {
                    assert(old(self).node_live(j));
                    assert(self.cache(self.deps(j)[k2] as int) == old(self).cache(
                        old(self).deps(j)[k2] as int,
                    ));
                    assert(old(self).viol(j, k2));
                }
            }
            assert forall|j: int|
                0 <= j < self.n() && self.node_live(j) && (#[trigger] self.cache(
                    j,
                )) is Some implies self.cache(j) == Some(self.eval(j)) by {
                assert(old(self).node_live(j));
                assert(old(self).cache(j) == Some(old(self).eval(j)));
            }
        }
    }

    /// How many entries node `i`'s publisher currently holds, dead ones
    /// included (they are pruned only when the node next publishes).
    pub fn subscriber_count(&self, i: usize) -> (r: usize)
        requires
            i < self.n(),
        ensures
            r == self.subs(i as int).len(),
    {
        match &self.nodes[i] {
            Node::Constant { .. } => 0,
            Node::Input { invalidate_publisher, .. } => invalidate_publisher.subscribers.len(),
            Node::Computed { wrapper, .. } => wrapper.invalidate_publisher.subscribers.len(),
        }
    }

    /// Whether node `i` currently holds a memoized value.
    pub fn is_cached(&self, i: usize) -> (r: bool)
        requires
            i < self.n(),
        ensures
            r == (self.cache(i as int) is Some),
    {
        match &self.nodes[i] {
            Node::Computed { wrapper, .. } => wrapper.cached_value.is_some(),
            _ => false,
        }
    }

    /// Number of nodes currently in the arena.
    pub fn node_count(&self) -> (r: usize)
        ensures
            r == self.n(),
    {
        self.nodes.len()
    }

    /// Appending a leaf node preserves well-formedness and every existing
    /// node's true value.
    proof fn lemma_extend_preserves(self, prev: Graph<C>)
        requires
            prev.wf(),
            self.nodes@.len() <= usize::MAX,
            self.nodes@.len() == prev.nodes@.len() + 1,
            self.live@ == prev.live@.push(true),
            self.probes@ == prev.probes@,
            forall|j: int| 0 <= j < prev.n() ==> self.nodes@[j] == prev.nodes@[j],
            !self.is_computed(prev.n()),
            self.cache(prev.n()) is None,
            self.deps(prev.n()) == Seq::<usize>::empty(),
            self.subs(prev.n()) == Seq::<Subscriber>::empty(),
        ensures
            self.wf(),
            forall|j: int| 0 <= j < prev.n() ==> self.eval(j) == prev.eval(j),
    {
        let id = prev.n();
        assert forall|j: int| 0 <= j < self.n() implies self.nodes@[j] == prev.nodes@[j] || j
            == id by {}
        assert forall|j: int| 0 <= j < prev.n() implies self.shape_eq_at(prev, j) && self.deps(j)
            == prev.deps(j) && self.subs(j) == prev.subs(j) && self.cache(j) == prev.cache(j)
            && self.node_live(j) == prev.node_live(j) by {
            assert(self.nodes@[j] == prev.nodes@[j]);
        }
        assert(self.deps_ok()) by {
            assert forall|i: int, k: int|
                0 <= i < self.n() && 0 <= k < self.deps(i).len() implies (#[trigger] self.deps(
                i,
            )[k]) < i by {
                if i < id {
                    assert(self.deps(i) == prev.deps(i));
                }
            }
        }
        assert(self.subs_ok()) by {
            assert forall|i: int, k: int|
                0 <= i < self.n() && 0 <= k < self.subs(i).len() implies self.sub_ok(
                i,
                #[trigger] self.subs(i)[k],
            ) by {
                if i < id {
                    assert(prev.sub_ok(i, prev.subs(i)[k]));
                }
            }
        }
        assert(self.live_deps_ok());
        assert(self.edges_from(0)) by {
            assert forall|j: int, k: int|
                0 <= j < self.n() && self.node_live(j) && 0 <= k < self.deps(j).len() && 0 <= (
                #[trigger] self.deps(j)[k] as int) && !self.is_constant(
                self.deps(j)[k] as int,
            ) implies self.subs(self.deps(j)[k] as int).contains(
                Subscriber::Dependent(j as usize),
            ) by {
                if j < id {
                    let dd = self.deps(j)[k] as int;
                    assert(self.nodes@[dd] == prev.nodes@[dd]);
                    assert(prev.subs(prev.deps(j)[k] as int).contains(
                        Subscriber::Dependent(j as usize),
                    ));
                }
            }
        }
        assert forall|j: int| 0 <= j < prev.n() implies self.eval(j) == prev.eval(j) by {
            self.lemma_eval_shape(prev, j);
        }
        assert forall|j: int, k: int| !(#[trigger] self.viol(j, k)) by {
            if 0 <= j < prev.n() {
                assert(!prev.viol(j, k));
                if 0 <= k < self.deps(j).len() {
                    assert(self.clean(self.deps(j)[k] as int) == prev.clean(
                        prev.deps(j)[k] as int,
                    ));
                }
            }
        }
    }
}

} // verus!
