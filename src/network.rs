//! The network handle: registration of constraint edges into the distance
//! graph, and propagation of the constraint table.
use vstd::prelude::*;
use vstd::string::StringExecFns;

use std::collections::HashMap;

use petgraph::Graph;

use crate::apsp::{
    at, fits, floyd_warshall, fw, fw_ok, is_square, is_walk, le, le_sum, lemma_flat_index,
    lemma_flat_order, lemma_fw_decreasing, lemma_fw_sound, lemma_fw_square, lemma_negative_cycle_fails,
    lemma_self_distance, lemma_triangle, lemma_walk_bound, not_negative, on_negative_cycle, opt_int,
    realized, relax, row_known, square, table_known, walk_length, StnError,
};
use crate::graph::{
    distinct_pairs, graph_add_edge, graph_add_node, graph_edge_count, graph_edge_weight,
    graph_edges, graph_find_edge, graph_new, graph_node_count, graph_nodes, graph_update_edge,
    has_edge, index_limit, lemma_update_weight, lemma_weight_of_edge, weight_between,
};
use crate::interval::Interval;
use crate::text::{decimal, push_decimal};

verus! {

broadcast use vstd::std_specs::hash::group_hash_axioms;

/// Denominator of `RegistrationOptions::execution_uncertainty`: the
/// uncertainty is given in millionths.
pub const UNCERTAINTY_SCALE: u32 = 1_000_000;

/// Options of a registration.
#[derive(Clone, Copy, Debug, PartialEq, Eq, Structural)]
pub struct RegistrationOptions {
    /// Derive each edge's interval from its nominal duration (`minutes`)
    /// instead of taking its explicit `interval`.
    pub implicit_intervals: bool,
    /// Uncertainty applied to implicit intervals, in millionths (between 0
    /// and 1_000_000, that is between 0% and 100%).
    pub execution_uncertainty: u32,
}

/// A constraint edge between two time points: either an explicit interval,
/// or a nominal duration from which the interval is derived.
#[derive(Clone, Copy, Debug, PartialEq, Eq, Structural)]
pub struct Edge {
    pub source: i32,
    pub target: i32,
    pub interval: Interval,
    pub minutes: i64,
}

/// The constraint edges to register.
#[derive(Debug)]
pub struct RegistrationPayload {
    pub edges: Vec<Edge>,
}

/// `(node count, edge count)` of a registered distance graph.
#[derive(Clone, Copy, Debug, PartialEq, Eq, Structural)]
pub struct RegistrationEnum(pub usize, pub usize);

/// Default uncertainty of an implicit interval: 10%, in millionths.
pub fn default_execution_uncertainty() -> (r: u32)
    ensures
        r == 100_000,
{
    100_000
}

impl Default for RegistrationOptions {
    /// Explicit intervals, and the default uncertainty for implicit ones.
    fn default() -> (r: RegistrationOptions)
        ensures
            !r.implicit_intervals,
            r.execution_uncertainty == 100_000,
    {
        RegistrationOptions { implicit_intervals: false, execution_uncertainty: default_execution_uncertainty() }
    }
}

/// The error estimate `minutes * uncertainty`, rounded away from zero, so
/// that a derived interval is never narrower than the exact one.
pub open spec fn error_estimate(minutes: int, uncertainty: int) -> int {
    if minutes >= 0 {
        (minutes * uncertainty + (UNCERTAINTY_SCALE as int - 1)) / (UNCERTAINTY_SCALE as int)
    } else {
        -(((-minutes) * uncertainty + (UNCERTAINTY_SCALE as int - 1)) / (UNCERTAINTY_SCALE as int))
    }
}

/// The interval an edge stands for under the given options.
pub open spec fn effective_interval(e: Edge, o: RegistrationOptions) -> (int, int) {
    if o.implicit_intervals {
        let err = error_estimate(e.minutes as int, o.execution_uncertainty as int);
        (e.minutes - err, e.minutes + err)
    } else {
        e.interval@
    }
}

/// The edge's weights `upper` and `-lower` fit in `i64`.
pub open spec fn edge_fits(e: Edge, o: RegistrationOptions) -> bool {
    let iv = effective_interval(e, o);
    &&& i64::MIN < iv.0 <= i64::MAX
    &&& i64::MIN <= iv.1 <= i64::MAX
}

/// Time point ids in order of first mention, source before target.
pub open spec fn discovered(edges: Seq<Edge>) -> Seq<i32>
    decreases edges.len(),
{
    if edges.len() == 0 {
        Seq::empty()
    } else {
        let prev = discovered(edges.drop_last());
        let e = edges.last();
        let with_source = if prev.contains(e.source) { prev } else { prev.push(e.source) };
        if with_source.contains(e.target) { with_source } else { with_source.push(e.target) }
    }
}

/// The weight that the last edge touching the pair `(a, b)` gives to the
/// directed edge `a -> b`: `upper` along the edge, `-lower` against it.
pub open spec fn direct_weight(edges: Seq<Edge>, o: RegistrationOptions, a: i32, b: i32) -> Option<int>
    decreases edges.len(),
{
    if edges.len() == 0 {
        None
    } else {
        let e = edges.last();
        let iv = effective_interval(e, o);
        if e.source == a && e.target == b {
            Some(iv.1)
        } else if e.target == a && e.source == b {
            Some(-iv.0)
        } else {
            direct_weight(edges.drop_last(), o, a, b)
        }
    }
}

/// The weight of `a -> b` in the distance graph of `edges` over the time
/// points `ids`: the edges' own weights, and a zero self-loop on every time
/// point that no edge overrides.
pub open spec fn encoded_weight(edges: Seq<Edge>, o: RegistrationOptions, ids: Seq<i32>, a: i32, b: i32) -> Option<int> {
    match direct_weight(edges, o, a, b) {
        Some(w) => Some(w),
        None => if a == b && ids.contains(a) {
            Some(0)
        } else {
            None
        },
    }
}

/// Later edges only add to the discovered ids.
proof fn lemma_discovered_grows(edges: Seq<Edge>, x: i32)
    requires
        edges.len() > 0,
        discovered(edges.drop_last()).contains(x),
    ensures
        discovered(edges).contains(x),
{
    let prev = discovered(edges.drop_last());
    let e = edges.last();
    let with_source = if prev.contains(e.source) { prev } else { prev.push(e.source) };
    let i = choose|i: int| 0 <= i < prev.len() && prev[i] == x;
    assert(with_source[i] == x);
    if !with_source.contains(e.target) {
        assert(with_source.push(e.target)[i] == x);
    }
}

/// Every id that an edge mentions is discovered, and there are at most two
/// per edge.
proof fn lemma_discovered_mentions(edges: Seq<Edge>)
    ensures
        forall|u: int| 0 <= u < edges.len() ==> discovered(edges).contains(#[trigger] edges[u].source)
            && discovered(edges).contains(edges[u].target),
        discovered(edges).len() <= 2 * edges.len(),
    decreases edges.len(),
{
    if edges.len() > 0 {
        let prev = discovered(edges.drop_last());
        let e = edges.last();
        lemma_discovered_mentions(edges.drop_last());
        let with_source = if prev.contains(e.source) { prev } else { prev.push(e.source) };
        if !prev.contains(e.source) {
            assert(with_source[prev.len() as int] == e.source);
        }
        assert(with_source.contains(e.source));
        if with_source.contains(e.target) {
            assert(discovered(edges) == with_source);
        } else {
            assert(with_source.push(e.target)[with_source.len() as int] == e.target);
            let i = choose|i: int| 0 <= i < with_source.len() && with_source[i] == e.source;
            assert(with_source.push(e.target)[i] == e.source);
        }
        assert forall|u: int| 0 <= u < edges.len() implies discovered(edges).contains(#[trigger] edges[u].source)
            && discovered(edges).contains(edges[u].target) by {
            if u < edges.len() - 1 {
                assert(edges.drop_last()[u] == edges[u]);
                lemma_discovered_grows(edges, edges[u].source);
                lemma_discovered_grows(edges, edges[u].target);
            }
        }
    }
}

/// A directed weight comes from an edge, so both its ends are discovered.
proof fn lemma_direct_weight_mentions(edges: Seq<Edge>, o: RegistrationOptions, a: i32, b: i32)
    requires
        direct_weight(edges, o, a, b) is Some,
    ensures
        discovered(edges).contains(a),
        discovered(edges).contains(b),
    decreases edges.len(),
{
    lemma_discovered_mentions(edges);
    let e = edges.last();
    assert(edges[edges.len() - 1] == e);
    if !(e.source == a && e.target == b) && !(e.target == a && e.source == b) {
        lemma_direct_weight_mentions(edges.drop_last(), o, a, b);
        lemma_discovered_grows(edges, a);
        lemma_discovered_grows(edges, b);
    }
}

/// One more edge in the prefix: its two directed weights replace what was
/// there, and every other pair keeps its weight.
proof fn lemma_encoded_step(edges: Seq<Edge>, o: RegistrationOptions, ids: Seq<i32>, t: int, a: i32, b: i32)
    requires
        0 <= t < edges.len(),
    ensures
        encoded_weight(edges.take(t + 1), o, ids, a, b) == if edges[t].source == a && edges[t].target == b {
            Some(effective_interval(edges[t], o).1)
        } else if edges[t].target == a && edges[t].source == b {
            Some(-effective_interval(edges[t], o).0)
        } else {
            encoded_weight(edges.take(t), o, ids, a, b)
        },
{
    assert(edges.take(t + 1).drop_last() =~= edges.take(t));
    assert(edges.take(t + 1).last() == edges[t]);
}

/// One more edge in the prefix: its ids are added as `discovered` says.
proof fn lemma_discovered_step(edges: Seq<Edge>, t: int)
    requires
        0 <= t < edges.len(),
    ensures
        discovered(edges.take(t + 1)) == ({
            let prev = discovered(edges.take(t));
            let with_source = if prev.contains(edges[t].source) { prev } else { prev.push(edges[t].source) };
            if with_source.contains(edges[t].target) { with_source } else { with_source.push(edges[t].target) }
        }),
{
    assert(edges.take(t + 1).drop_last() =~= edges.take(t));
    assert(edges.take(t + 1).last() == edges[t]);
}

/// The ordered pairs of distinct time points that some edge connects, in
/// either direction: one distance-graph edge each, besides the self-loops.
pub open spec fn touched(edges: Seq<Edge>) -> Set<(i32, i32)>
    decreases edges.len(),
{
    if edges.len() == 0 {
        Set::empty()
    } else {
        let e = edges.last();
        let prev = touched(edges.drop_last());
        if e.source == e.target {
            prev
        } else {
            prev.insert((e.source, e.target)).insert((e.target, e.source))
        }
    }
}

/// The touched pairs are finite, at most two per edge.
proof fn lemma_touched_finite(edges: Seq<Edge>)
    ensures
        touched(edges).finite(),
        touched(edges).len() <= 2 * edges.len(),
    decreases edges.len(),
{
    if edges.len() > 0 {
        lemma_touched_finite(edges.drop_last());
    }
}

/// A pair of distinct time points is touched exactly when it has a directed
/// weight.
proof fn lemma_touched_direct(edges: Seq<Edge>, o: RegistrationOptions, a: i32, b: i32)
    requires
        a != b,
    ensures
        touched(edges).contains((a, b)) <==> direct_weight(edges, o, a, b) is Some,
    decreases edges.len(),
{
    if edges.len() > 0 {
        lemma_touched_direct(edges.drop_last(), o, a, b);
    }
}

/// One more edge in the prefix: its pair is touched as `touched` says.
proof fn lemma_touched_step(edges: Seq<Edge>, t: int)
    requires
        0 <= t < edges.len(),
    ensures
        touched(edges.take(t + 1)) == if edges[t].source == edges[t].target {
            touched(edges.take(t))
        } else {
            touched(edges.take(t)).insert((edges[t].source, edges[t].target)).insert((edges[t].target, edges[t].source))
        },
{
    assert(edges.take(t + 1).drop_last() =~= edges.take(t));
    assert(edges.take(t + 1).last() == edges[t]);
}

/// A Simple Temporal Network: the time points, the distance graph over them,
/// and the propagated constraint table.
#[derive(Debug)]
pub struct STN {
    /// maps a time point id to its node in the graph
    node_indices: HashMap<i32, usize>,
    /// time point ids, by node index
    node_ids: Vec<i32>,
    distance_graph: Graph<i32, i64>,
    /// row-major `(from, to)` table of propagated distances, by node index
    constraint_table: Vec<Option<i64>>,
    /// the constraint table is the propagation of the current graph
    propagated: bool,
    elapsed_time: u64,
}

impl STN {
    /// The registered time point ids, by node index.
    pub closed spec fn ids(&self) -> Seq<i32> {
        self.node_ids@
    }

    /// The edges of the distance graph.
    pub closed spec fn edges(&self) -> Seq<(usize, usize, i64)> {
        graph_edges(self.distance_graph)
    }

    /// Whether `id` is a registered time point.
    pub closed spec fn has_id(&self, id: i32) -> bool {
        self.node_indices@.contains_key(id)
    }

    /// The node index of a registered time point.
    pub closed spec fn index_of(&self, id: i32) -> int {
        self.node_indices@[id] as int
    }

    /// The weight of `a -> b` in the distance graph.
    pub closed spec fn weight(&self, a: i32, b: i32) -> Option<int> {
        if self.has_id(a) && self.has_id(b) {
            weight_between(self.edges(), self.node_indices@[a], self.node_indices@[b])
        } else {
            None
        }
    }

    /// The distance graph as a table by node index: the start of propagation.
    pub closed spec fn seed(&self) -> Seq<Seq<Option<int>>> {
        Seq::new(
            self.ids().len(),
            |i: int| Seq::new(self.ids().len(), |j: int| weight_between(self.edges(), i as usize, j as usize)),
        )
    }

    /// The constraint table by node index.
    pub closed spec fn table(&self) -> Seq<Seq<Option<int>>> {
        square(self.constraint_table@, self.ids().len() as int)
    }

    /// The constraint table holds the result of a successful propagation of
    /// the current distance graph.
    pub closed spec fn is_propagated(&self) -> bool {
        self.propagated
    }

    /// The propagated distance from `a` to `b`.
    pub closed spec fn distance(&self, a: i32, b: i32) -> Option<int> {
        if self.has_id(a) && self.has_id(b) && self.propagated {
            self.table()[self.index_of(a)][self.index_of(b)]
        } else {
            None
        }
    }

    /// The invariant of a network handle.
    pub closed spec fn wf(&self) -> bool {
        let n = self.node_ids@.len();
        let edges = self.edges();
        &&& graph_nodes(self.distance_graph) == self.node_ids@
        &&& n <= index_limit()
        &&& edges.len() <= index_limit()
        &&& forall|id: i32| #[trigger] self.node_indices@.contains_key(id) ==> {
            &&& self.node_indices@[id] < n
            &&& self.node_ids@[self.node_indices@[id] as int] == id
        }
        &&& forall|i: int| 0 <= i < n ==> {
            &&& #[trigger] self.node_indices@.contains_key(self.node_ids@[i])
            &&& self.node_indices@[self.node_ids@[i]] == i
        }
        &&& forall|e: int| 0 <= e < edges.len() ==> #[trigger] edges[e].0 < n && edges[e].1 < n
        &&& distinct_pairs(edges)
        &&& self.constraint_table@.len() == 0 || self.constraint_table@.len() == n * n
        &&& self.propagated ==> {
            &&& self.constraint_table@.len() == n * n
            &&& fw_ok(self.seed(), n)
            &&& self.table() == fw(self.seed(), n)
        }
    }

    /// An empty network.
    pub fn new() -> (r: STN)
        ensures
            r.wf(),
            r.ids() == Seq::<i32>::empty(),
            r.edges() == Seq::<(usize, usize, i64)>::empty(),
            !r.is_propagated(),
            r.elapsed() == 0,
            forall|x: i32| !(#[trigger] r.has_id(x)),
    {
        STN {
            node_indices: HashMap::new(),
            node_ids: Vec::new(),
            distance_graph: graph_new(),
            constraint_table: Vec::new(),
            propagated: false,
            elapsed_time: 0,
        }
    }

    /// Whether the graph holds exactly one zero self-loop per time point, edge
    /// `i` on node `i`.
    closed spec fn self_loops_only(&self) -> bool {
        &&& self.edges().len() == self.ids().len()
        &&& forall|e: int| 0 <= e < self.edges().len() ==> #[trigger] self.edges()[e] == (e as usize, e as usize, 0i64)
    }

    /// A registered id is one of `ids()`, and the other way round.
    pub proof fn lemma_has_id(&self, x: i32)
        requires
            self.wf(),
        ensures
            self.has_id(x) <==> self.ids().contains(x),
            self.has_id(x) ==> 0 <= self.index_of(x) < self.ids().len() && self.ids()[self.index_of(x)] == x,
    {
        if self.ids().contains(x) {
            let i = choose|i: int| 0 <= i < self.ids().len() && self.ids()[i] == x;
            assert(self.node_indices@.contains_key(self.node_ids@[i]));
        }
    }

    /// Distinct registered ids have distinct node indices.
    pub proof fn lemma_index_injective(&self, x: i32, y: i32)
        requires
            self.wf(),
            self.has_id(x),
            self.has_id(y),
            self.index_of(x) == self.index_of(y),
        ensures
            x == y,
    {
    }

    /// The node index of a registered time point.
    fn lookup(&self, id: i32) -> (r: usize)
        requires
            self.wf(),
            self.has_id(id),
        ensures
            r == self.index_of(id),
            r < self.ids().len(),
    {
        match self.node_indices.get(&id) {
            Some(i) => *i,
            None => 0,
        }
    }

    /// The weight of the graph edge between two node indices.
    fn weight_at(&self, i: usize, j: usize) -> (r: Option<i64>)
        requires
            self.wf(),
            i < self.ids().len(),
            j < self.ids().len(),
        ensures
            opt_int(r) == weight_between(self.edges(), i, j),
    {
        match graph_find_edge(&self.distance_graph, i, j) {
            Some(e) => {
                proof {
                    lemma_weight_of_edge(self.edges(), e as int);
                }
                graph_edge_weight(&self.distance_graph, e)
            },
            None => None,
        }
    }

    /// Register constraint edges into this fresh network. Returns the node
    /// and edge counts of the distance graph; see `build_distance_graph`.
    pub fn register_graph(&mut self, payload: &RegistrationPayload, options: &RegistrationOptions) -> (r: RegistrationEnum)
        requires
            old(self).wf(),
            old(self).ids().len() == 0,
            4 * payload.edges@.len() < index_limit(),
            forall|u: int| 0 <= u < payload.edges@.len() ==> edge_fits(#[trigger] payload.edges@[u], *options),
        ensures
            final(self).wf(),
            final(self).ids() == discovered(payload.edges@),
            forall|x: i32| #[trigger] final(self).has_id(x) <==> discovered(payload.edges@).contains(x),
            forall|a: i32, b: i32| #[trigger] final(self).weight(a, b) == encoded_weight(
                payload.edges@,
                *options,
                discovered(payload.edges@),
                a,
                b,
            ),
            r.0 == final(self).ids().len(),
            r.1 == final(self).edges().len(),
            r.1 == discovered(payload.edges@).len() + touched(payload.edges@).len(),
            final(self).elapsed() == old(self).elapsed(),
            !final(self).is_propagated(),
    {
        let (nodes, edges) = build_distance_graph(self, payload, options);
        RegistrationEnum(nodes, edges)
    }

    /// Propagate the constraint table; see the free function `perform_apsp`.
    pub fn perform_apsp(&mut self) -> (r: Result<(), StnError>)
        requires
            old(self).wf(),
        ensures
            final(self).wf(),
            final(self).ids() == old(self).ids(),
            final(self).edges() == old(self).edges(),
            forall|x: i32| #[trigger] final(self).has_id(x) == old(self).has_id(x),
            forall|a: i32, b: i32| #[trigger] final(self).weight(a, b) == old(self).weight(a, b),
            final(self).seed() == old(self).seed(),
            final(self).elapsed() == old(self).elapsed(),
            is_square(final(self).seed(), final(self).ids().len() as int),
            forall|i: int, j: int| 0 <= i < final(self).ids().len() && 0 <= j < final(self).ids().len() ==> #[trigger] final(self).seed()[i][j]
                == final(self).weight(final(self).ids()[i], final(self).ids()[j]),
            r is Ok ==> forall|a: i32, b: i32| final(self).has_id(a) && final(self).has_id(b) ==> #[trigger] final(self).distance(a, b)
                == fw(final(self).seed(), final(self).ids().len())[final(self).index_of(a)][final(self).index_of(b)],
            r is Ok <==> (old(self).ids().len() * old(self).ids().len() <= usize::MAX && fw_ok(
                old(self).seed(),
                old(self).ids().len(),
            )),
            r is Ok ==> final(self).is_propagated(),
            r is Err ==> *final(self) == *old(self),
            r matches Err(StnError::NegativeCycle(id)) ==> exists|k: int, i: int|
                0 <= k < old(self).ids().len() && 0 <= i < old(self).ids().len() && fw_ok(old(self).seed(), k as nat)
                    && !not_negative(#[trigger] relax(fw(old(self).seed(), k as nat), k, i, i)) && id
                    == old(self).ids()[i],
            r matches Err(StnError::NegativeCycle(id)) ==> exists|i: int|
                0 <= i < old(self).ids().len() && id == old(self).ids()[i] && #[trigger] on_negative_cycle(
                    old(self).seed(),
                    i,
                ),
            r matches Err(StnError::Overflow) ==> old(self).ids().len() * old(self).ids().len() > usize::MAX
                || exists|k: int, i: int, j: int|
                0 <= k < old(self).ids().len() && 0 <= i < old(self).ids().len() && 0 <= j < old(self).ids().len()
                    && fw_ok(old(self).seed(), k as nat) && !fits(
                    #[trigger] relax(fw(old(self).seed(), k as nat), k, i, j),
                ),
    {
        perform_apsp(self)
    }

    /// The propagated distance from time point `from` to time point `to`:
    /// `None` when either is not registered, when no path between them is
    /// known, or when the table has not been propagated.
    pub fn constraint(&self, from: i32, to: i32) -> (r: Option<i64>)
        requires
            self.wf(),
        ensures
            opt_int(r) == self.distance(from, to),
    {
        let n = self.node_ids.len();
        proof {
            self.lemma_has_id(from);
            self.lemma_has_id(to);
        }
        if !self.node_indices.contains_key(&from) || !self.node_indices.contains_key(&to) {
            return None;
        }
        if !self.propagated {
            return None;
        }
        let total = self.constraint_table.len();
        assert(total == n * n);
        let i = self.lookup(from);
        let j = self.lookup(to);
        proof {
            lemma_flat_index(n as int, i as int, j as int, 0, 0);
        }
        let v = self.constraint_table[i * n + j];
        proof {
            assert(at(self.constraint_table@, n as int, i as int, j as int) == opt_int(v));
            assert(self.table()[i as int][j as int] == opt_int(v));
        }
        v
    }

    /// What a well-formed handle's views say about one another: the node
    /// index of each registered id, the seed as the graph's weights by node
    /// index, and the distances and known count as the propagation of the
    /// seed.
    pub proof fn lemma_view(&self)
        requires
            self.wf(),
        ensures
            is_square(self.seed(), self.ids().len() as int),
            self.ids().no_duplicates(),
            forall|x: i32| #[trigger] self.has_id(x) <==> self.ids().contains(x),
            forall|x: i32| #[trigger] self.has_id(x) ==> 0 <= self.index_of(x) < self.ids().len() && self.ids()[self.index_of(x)] == x,
            forall|i: int| 0 <= i < self.ids().len() ==> #[trigger] self.index_of(self.ids()[i]) == i,
            forall|i: int, j: int| 0 <= i < self.ids().len() && 0 <= j < self.ids().len() ==> #[trigger] self.seed()[i][j]
                == self.weight(self.ids()[i], self.ids()[j]),
            self.is_propagated() ==> fw_ok(self.seed(), self.ids().len()),
            forall|a: i32, b: i32| #[trigger] self.distance(a, b) == if self.is_propagated() && self.has_id(a) && self.has_id(b) {
                fw(self.seed(), self.ids().len())[self.index_of(a)][self.index_of(b)]
            } else {
                None
            },
            self.known_count() == if self.is_propagated() { table_known(fw(self.seed(), self.ids().len())) } else { 0 },
    {
        assert forall|x: i32| #[trigger] self.has_id(x) <==> self.ids().contains(x) by {
            self.lemma_has_id(x);
        }
        assert forall|i: int| 0 <= i < self.ids().len() implies #[trigger] self.index_of(self.ids()[i]) == i by {
            assert(self.node_indices@.contains_key(self.node_ids@[i]));
        }
        assert forall|i: int, j: int| 0 <= i < self.ids().len() && 0 <= j < self.ids().len() implies #[trigger] self.seed()[i][j]
            == self.weight(self.ids()[i], self.ids()[j]) by {
            assert(self.node_indices@.contains_key(self.node_ids@[i]));
            assert(self.node_indices@.contains_key(self.node_ids@[j]));
        }
        assert(self.ids().no_duplicates()) by {
            assert forall|i: int, j: int| 0 <= i < self.ids().len() && 0 <= j < self.ids().len() && i != j implies self.ids()[i]
                != self.ids()[j] by {
                assert(self.node_indices@.contains_key(self.node_ids@[i]));
                assert(self.node_indices@.contains_key(self.node_ids@[j]));
            }
        }
    }

    /// The time spent, as recorded by the handle; nothing in this library
    /// measures time, so it stays zero.
    pub closed spec fn elapsed(&self) -> nat {
        self.elapsed_time as nat
    }

    /// Diagnostic text: `<elapsed time> elapsed time`.
    pub fn to_string(&self) -> (r: String)
        ensures
            r@ == decimal(self.elapsed()) + " elapsed time"@,
    {
        proof {
            reveal_strlit(" elapsed time");
        }
        let mut s = String::new();
        push_decimal(&mut s, self.elapsed_time);
        s.append(" elapsed time");
        s
    }

    /// The number of registered time points.
    pub fn node_count(&self) -> (r: usize)
        requires
            self.wf(),
        ensures
            r == self.ids().len(),
    {
        self.node_ids.len()
    }

    /// The weight of the distance-graph edge from time point `from` to time
    /// point `to`, before propagation.
    pub fn graph_weight(&self, from: i32, to: i32) -> (r: Option<i64>)
        requires
            self.wf(),
        ensures
            opt_int(r) == self.weight(from, to),
    {
        if !self.node_indices.contains_key(&from) || !self.node_indices.contains_key(&to) {
            return None;
        }
        let i = self.lookup(from);
        let j = self.lookup(to);
        self.weight_at(i, j)
    }

    /// The number of known entries in the constraint table (zero before a
    /// successful propagation).
    pub fn constraint_count(&self) -> (r: usize)
        requires
            self.wf(),
        ensures
            r == self.known_count(),
    {
        if !self.propagated {
            return 0;
        }
        let n = self.node_ids.len();
        let ghost nn = n as int;
        let ghost d = self.table();
        let total = self.constraint_table.len();
        assert(total == n * n);
        let mut count: usize = 0;
        let mut i: usize = 0;
        while i < n
            invariant
                self.wf(),
                self.propagated,
                n == self.ids().len(),
                nn == n as int,
                d == self.table(),
                0 <= i <= n,
                count == table_known(d.take(i as int)),
                count <= i * n,
                nn * nn <= usize::MAX,
            decreases n - i,
        {
            let mut j: usize = 0;
            let ghost start = count;
            while j < n
                invariant
                    self.wf(),
                    self.propagated,
                    n == self.ids().len(),
                    nn == n as int,
                    d == self.table(),
                    0 <= i < n,
                    0 <= j <= n,
                    start == table_known(d.take(i as int)),
                    count == start + row_known(d[i as int].take(j as int)),
                    count <= i * n + j,
                    nn * nn <= usize::MAX,
                decreases n - j,
            {
                proof {
                    lemma_flat_index(nn, i as int, j as int, 0, 0);
                    assert(d[i as int].take(j + 1).drop_last() =~= d[i as int].take(j as int));
                    assert(d[i as int][j as int] == at(self.constraint_table@, nn, i as int, j as int));
                }
                if self.constraint_table[i * n + j].is_some() {
                    count = count + 1;
                }
                j = j + 1;
            }
            proof {
                assert(d[i as int].take(n as int) =~= d[i as int]);
                assert(d.take(i + 1).drop_last() =~= d.take(i as int));
                assert((i + 1) * n == i * n + n) by (nonlinear_arith);
            }
            i = i + 1;
        }
        proof {
            assert(d.take(n as int) =~= d);
        }
        count
    }

    /// The number of ordered pairs of time points with a known propagated
    /// distance.
    pub closed spec fn known_count(&self) -> nat {
        if self.propagated {
            table_known(self.table())
        } else {
            0
        }
    }

    /// The seed of propagation is the distance graph, read by node index.
    pub proof fn lemma_seed(&self, a: i32, b: i32)
        requires
            self.wf(),
            self.has_id(a),
            self.has_id(b),
        ensures
            is_square(self.seed(), self.ids().len() as int),
            self.seed()[self.index_of(a)][self.index_of(b)] == self.weight(a, b),
            self.is_propagated() ==> self.distance(a, b) == fw(self.seed(), self.ids().len())[self.index_of(a)][self.index_of(b)],
    {
    }

    /// Register `id` as a time point with a zero self-loop, unless it is
    /// registered already.
    fn add_time_point(&mut self, id: i32)
        requires
            old(self).wf(),
            old(self).self_loops_only(),
            old(self).ids().len() < index_limit(),
            old(self).constraint_table@.len() == 0,
            !old(self).propagated,
        ensures
            final(self).wf(),
            final(self).self_loops_only(),
            final(self).ids() == if old(self).ids().contains(id) {
                old(self).ids()
            } else {
                old(self).ids().push(id)
            },
            final(self).constraint_table@.len() == 0,
            !final(self).propagated,
            final(self).elapsed_time == old(self).elapsed_time,
    {
        proof {
            self.lemma_has_id(id);
        }
        if !self.node_indices.contains_key(&id) {
            let ghost before = *self;
            let n = self.node_ids.len();
            let idx = graph_add_node(&mut self.distance_graph, id);
            graph_add_edge(&mut self.distance_graph, idx, idx, 0);
            self.node_indices.insert(id, idx);
            self.node_ids.push(id);
            proof {
                assert(self.edges() == before.edges().push((idx, idx, 0i64)));
                assert forall|x: i32| #[trigger] self.node_indices@.contains_key(x) implies {
                    &&& self.node_indices@[x] < self.node_ids@.len()
                    &&& self.node_ids@[self.node_indices@[x] as int] == x
                } by {
                    if x != id {
                        assert(before.node_indices@.contains_key(x));
                    }
                }
                assert forall|i: int| 0 <= i < self.node_ids@.len() implies {
                    &&& #[trigger] self.node_indices@.contains_key(self.node_ids@[i])
                    &&& self.node_indices@[self.node_ids@[i]] == i
                } by {
                    if i < n {
                        assert(before.node_indices@.contains_key(before.node_ids@[i]));
                        assert(self.node_ids@[i] == before.node_ids@[i]);
                        if before.node_ids@[i] == id {
                            assert(before.ids().contains(id));
                        }
                    }
                }
                assert forall|e1: int, e2: int|
                    0 <= e1 < self.edges().len() && 0 <= e2 < self.edges().len() && e1 != e2 implies !(
                    #[trigger] self.edges()[e1].0 == #[trigger] self.edges()[e2].0 && self.edges()[e1].1
                        == self.edges()[e2].1) by {
                    assert(self.edges()[e1] == (e1 as usize, e1 as usize, 0i64));
                    assert(self.edges()[e2] == (e2 as usize, e2 as usize, 0i64));
                }
            }
        }
    }
}

/// The bounds `(lower, upper)` of an edge's effective interval, computed
/// without overflow.
fn effective_bounds(e: &Edge, o: &RegistrationOptions) -> (r: (i128, i128))
    ensures
        r.0 as int == effective_interval(*e, *o).0,
        r.1 as int == effective_interval(*e, *o).1,
{
    if o.implicit_intervals {
        let m: i128 = e.minutes as i128;
        let u: i128 = o.execution_uncertainty as i128;
        let scale: i128 = UNCERTAINTY_SCALE as i128;
        let err: i128 = if m >= 0 {
            assert(0 <= m * u <= 0x7fff_ffff_ffff_ffff * 0xffff_ffff) by (nonlinear_arith)
                requires
                    0 <= m <= 0x7fff_ffff_ffff_ffff,
                    0 <= u <= 0xffff_ffff,
            ;
            assert(0 <= (m * u + (scale - 1)) / (scale as int) <= m * u + 1) by (nonlinear_arith)
                requires
                    0 <= m * u,
                    scale == 1_000_000,
            ;
            (m * u + (scale - 1)) / scale
        } else {
            let p: i128 = -m;
            assert(0 <= p * u <= 0x8000_0000_0000_0000 * 0xffff_ffff) by (nonlinear_arith)
                requires
                    0 <= p <= 0x8000_0000_0000_0000,
                    0 <= u <= 0xffff_ffff,
            ;
            assert(0 <= (p * u + (scale - 1)) / (scale as int) <= p * u + 1) by (nonlinear_arith)
                requires
                    0 <= p * u,
                    scale == 1_000_000,
            ;
            -((p * u + (scale - 1)) / scale)
        };
        (m - err, m + err)
    } else {
        (e.interval.lower() as i128, e.interval.upper() as i128)
    }
}

/// The bounds `(lower, upper)` of an edge's effective interval.
fn edge_interval(e: &Edge, o: &RegistrationOptions) -> (r: (i64, i64))
    requires
        edge_fits(*e, *o),
    ensures
        r.0 as int == effective_interval(*e, *o).0,
        r.1 as int == effective_interval(*e, *o).1,
{
    let (lower, upper) = effective_bounds(e, o);
    (lower as i64, upper as i64)
}

/// Whether `payload` can be registered under `options` within the limits of
/// the machine: the graph's indices suffice, and every edge's weights fit in
/// an `i64`.
pub fn payload_fits(payload: &RegistrationPayload, options: &RegistrationOptions) -> (r: bool)
    ensures
        r == (4 * payload.edges@.len() < index_limit() && forall|u: int|
            0 <= u < payload.edges@.len() ==> edge_fits(#[trigger] payload.edges@[u], *options)),
{
    if payload.edges.len() >= 0x4000_0000 {
        return false;
    }
    let mut t: usize = 0;
    while t < payload.edges.len()
        invariant
            0 <= t <= payload.edges@.len(),
            forall|u: int| 0 <= u < t ==> edge_fits(#[trigger] payload.edges@[u], *options),
        decreases payload.edges@.len() - t,
    {
        let (lower, upper) = effective_bounds(&payload.edges[t], options);
        if lower <= i64::MIN as i128 || lower > i64::MAX as i128 || upper < i64::MIN as i128 || upper
            > i64::MAX as i128 {
            return false;
        }
        t = t + 1;
    }
    true
}

/// No edge touches the pair `(a, b)`, in either direction.
pub open spec fn untouched(edges: Seq<Edge>, a: i32, b: i32) -> bool {
    forall|u: int| 0 <= u < edges.len() ==> !(#[trigger] edges[u].source == a && edges[u].target == b) && !(
    edges[u].source == b && edges[u].target == a)
}

/// Edges that do not touch a pair give it no directed weight.
proof fn lemma_direct_weight_none(edges: Seq<Edge>, o: RegistrationOptions, a: i32, b: i32)
    requires
        untouched(edges, a, b),
    ensures
        direct_weight(edges, o, a, b) is None,
    decreases edges.len(),
{
    if edges.len() > 0 {
        assert(edges[edges.len() - 1] == edges.last());
        assert(untouched(edges.drop_last(), a, b)) by {
            assert forall|u: int| 0 <= u < edges.drop_last().len() implies !(#[trigger] edges.drop_last()[u].source == a
                && edges.drop_last()[u].target == b) && !(edges.drop_last()[u].source == b && edges.drop_last()[u].target
                == a) by {
                assert(edges.drop_last()[u] == edges[u]);
            }
        }
        lemma_direct_weight_none(edges.drop_last(), o, a, b);
    }
}

/// The weights of edge `t`, where no later edge touches its pair.
proof fn lemma_direct_weight_of(edges: Seq<Edge>, o: RegistrationOptions, t: int)
    requires
        0 <= t < edges.len(),
        edges[t].source != edges[t].target,
        untouched(edges.subrange(t + 1, edges.len() as int), edges[t].source, edges[t].target),
    ensures
        direct_weight(edges, o, edges[t].source, edges[t].target) == Some(effective_interval(edges[t], o).1),
        direct_weight(edges, o, edges[t].target, edges[t].source) == Some(-effective_interval(edges[t], o).0),
    decreases edges.len(),
{
    let l = edges.len() as int;
    assert(edges.last() == edges[l - 1]);
    if t < l - 1 {
        let rest = edges.subrange(t + 1, l);
        assert(rest[l - 2 - t] == edges[l - 1]);
        let v = edges.drop_last();
        assert(v[t] == edges[t]);
        assert(untouched(v.subrange(t + 1, v.len() as int), edges[t].source, edges[t].target)) by {
            let r2 = v.subrange(t + 1, v.len() as int);
            assert forall|u: int| 0 <= u < r2.len() implies !(#[trigger] r2[u].source == edges[t].source && r2[u].target
                == edges[t].target) && !(r2[u].source == edges[t].target && r2[u].target == edges[t].source) by {
                assert(r2[u] == rest[u]);
            }
        }
        lemma_direct_weight_of(v, o, t);
    }
}

/// Encoding correctness: an edge between two distinct time points, with no
/// later edge between them, gives the distance graph the weight `upper` from
/// source to target and `-lower` from target to source of its effective
/// interval `[lower, upper]`.
pub proof fn lemma_encoding(edges: Seq<Edge>, o: RegistrationOptions, t: int)
    requires
        0 <= t < edges.len(),
        edges[t].source != edges[t].target,
        untouched(edges.subrange(t + 1, edges.len() as int), edges[t].source, edges[t].target),
    ensures
        encoded_weight(edges, o, discovered(edges), edges[t].source, edges[t].target) == Some(
            effective_interval(edges[t], o).1,
        ),
        encoded_weight(edges, o, discovered(edges), edges[t].target, edges[t].source) == Some(
            -effective_interval(edges[t], o).0,
        ),
{
    lemma_direct_weight_of(edges, o, t);
}

/// A registered time point that no edge loops on keeps its zero self-loop.
pub proof fn lemma_unlooped_self_weight(edges: Seq<Edge>, o: RegistrationOptions, a: i32)
    requires
        discovered(edges).contains(a),
        untouched(edges, a, a),
    ensures
        encoded_weight(edges, o, discovered(edges), a, a) == Some(0int),
{
    lemma_direct_weight_none(edges, o, a, a);
}

/// Self-distance: after a successful propagation, a time point whose
/// self-loop weighs zero is at distance zero from itself.
pub proof fn lemma_propagated_self_distance(stn: &STN, a: i32)
    requires
        stn.wf(),
        stn.is_propagated(),
        stn.has_id(a),
        stn.weight(a, a) == Some(0int),
    ensures
        stn.distance(a, a) == Some(0int),
{
    stn.lemma_has_id(a);
    stn.lemma_seed(a, a);
    lemma_self_distance(stn.seed(), stn.index_of(a));
}

/// Triangle inequality: after a successful propagation, the distance from
/// `a` to `b` is at most the distance from `a` to `c` plus the distance from
/// `c` to `b`, whenever both of those are known.
pub proof fn lemma_propagated_triangle(stn: &STN, a: i32, b: i32, c: i32)
    requires
        stn.wf(),
        stn.is_propagated(),
        stn.has_id(a),
        stn.has_id(b),
        stn.has_id(c),
    ensures
        le_sum(stn.distance(a, b), stn.distance(a, c), stn.distance(c, b)),
{
    stn.lemma_has_id(a);
    stn.lemma_has_id(b);
    stn.lemma_has_id(c);
    stn.lemma_seed(a, b);
    stn.lemma_seed(a, c);
    stn.lemma_seed(c, b);
    lemma_triangle(stn.seed(), stn.index_of(a), stn.index_of(b), stn.index_of(c));
}

/// After a successful propagation no distance exceeds the weight of the
/// direct edge.
pub proof fn lemma_propagated_at_most_weight(stn: &STN, a: i32, b: i32)
    requires
        stn.wf(),
        stn.is_propagated(),
        stn.has_id(a),
        stn.has_id(b),
    ensures
        le(stn.distance(a, b), stn.weight(a, b)),
{
    stn.lemma_view();
    stn.lemma_seed(a, b);
    lemma_fw_decreasing(stn.seed(), stn.ids().len(), stn.index_of(a), stn.index_of(b));
}

/// After a successful propagation every known distance is the length of a
/// walk in the distance graph, read by node index.
pub proof fn lemma_propagated_sound(stn: &STN, a: i32, b: i32)
    requires
        stn.wf(),
        stn.is_propagated(),
        stn.has_id(a),
        stn.has_id(b),
        stn.distance(a, b) is Some,
    ensures
        realized(stn.seed(), stn.index_of(a), stn.index_of(b), stn.distance(a, b)->0),
{
    stn.lemma_view();
    lemma_fw_sound(stn.seed(), stn.ids().len(), stn.index_of(a), stn.index_of(b));
}

/// After a successful propagation no walk in the distance graph is shorter
/// than the distance between its ends: with the previous law, distances are
/// the shortest walk lengths.
pub proof fn lemma_propagated_minimal(stn: &STN, w: Seq<int>)
    requires
        stn.wf(),
        stn.is_propagated(),
        is_walk(stn.seed(), w),
    ensures
        le(stn.distance(stn.ids()[w[0]], stn.ids()[w[w.len() - 1]]), Some(walk_length(stn.seed(), w))),
{
    stn.lemma_view();
    let a = stn.ids()[w[0]];
    let b = stn.ids()[w[w.len() - 1]];
    assert(stn.ids().contains(a) && stn.ids().contains(b));
    lemma_walk_bound(stn.seed(), w);
}

/// Infeasibility detection: a closed walk of negative length in the distance
/// graph makes propagation fail (see `perform_apsp`).
pub proof fn lemma_negative_cycle_blocks(stn: &STN, w: Seq<int>)
    requires
        stn.wf(),
        is_walk(stn.seed(), w),
        w[0] == w[w.len() - 1],
        walk_length(stn.seed(), w) < 0,
    ensures
        !fw_ok(stn.seed(), stn.ids().len()),
{
    stn.lemma_view();
    lemma_negative_cycle_fails(stn.seed(), w);
}

/// Build the distance graph of a fresh network from constraint edges.
/// Returns `(node count, edge count)`.
///
/// The time points are the ids that the edges mention, in order of first
/// mention; each gets a zero self-loop. Then, edge by edge, the graph gets
/// `source -> target` with weight `upper` and `target -> source` with weight
/// `-lower` of the effective interval; a later edge between the same pair
/// replaces the earlier weights.
#[verifier::rlimit(40)]
pub fn build_distance_graph(stn: &mut STN, data: &RegistrationPayload, options: &RegistrationOptions) -> (r: (usize, usize))
    requires
        old(stn).wf(),
        old(stn).ids().len() == 0,
        4 * data.edges@.len() < index_limit(),
        forall|u: int| 0 <= u < data.edges@.len() ==> edge_fits(#[trigger] data.edges@[u], *options),
    ensures
        final(stn).wf(),
        final(stn).ids() == discovered(data.edges@),
        forall|x: i32| #[trigger] final(stn).has_id(x) <==> discovered(data.edges@).contains(x),
        forall|a: i32, b: i32| #[trigger] final(stn).weight(a, b) == encoded_weight(
            data.edges@,
            *options,
            discovered(data.edges@),
            a,
            b,
        ),
        r.0 == final(stn).ids().len(),
        r.1 == final(stn).edges().len(),
        r.1 == discovered(data.edges@).len() + touched(data.edges@).len(),
        final(stn).elapsed() == old(stn).elapsed(),
        !final(stn).is_propagated(),
{
    stn.propagated = false;
    let edges = &data.edges;
    let ghost all = edges@;
    proof {
        assert(stn.edges().len() == 0) by {
            if stn.edges().len() > 0 {
                assert(stn.edges()[0].0 < stn.ids().len());
            }
        }
        assert(all.take(0) =~= Seq::<Edge>::empty());
    }
    let mut t: usize = 0;
    while t < edges.len()
        invariant
            stn.wf(),
            stn.self_loops_only(),
            stn.constraint_table@.len() == 0,
            !stn.propagated,
            stn.elapsed() == old(stn).elapsed(),
            all == edges@,
            4 * all.len() < index_limit(),
            0 <= t <= all.len(),
            stn.ids() == discovered(all.take(t as int)),
            stn.ids().len() <= 2 * t,
        decreases all.len() - t,
    {
        let e = &edges[t];
        proof {
            lemma_discovered_step(all, t as int);
        }
        stn.add_time_point(e.source);
        stn.add_time_point(e.target);
        t = t + 1;
    }
    proof {
        assert(all.take(all.len() as int) =~= all);
        lemma_discovered_mentions(all);
        assert forall|a: i32, b: i32| stn.has_id(a) && stn.has_id(b) implies #[trigger] stn.weight(a, b)
            == encoded_weight(all.take(0), *options, discovered(all), a, b) by {
            stn.lemma_has_id(a);
            stn.lemma_has_id(b);
            let ia = stn.index_of(a);
            let ib = stn.index_of(b);
            assert(stn.edges()[ia] == (ia as usize, ia as usize, 0i64));
            lemma_weight_of_edge(stn.edges(), ia);
            if a != b {
                assert(!has_edge(stn.edges(), ia as usize, ib as usize)) by {
                    if has_edge(stn.edges(), ia as usize, ib as usize) {
                        let f = choose|f: int| 0 <= f < stn.edges().len() && stn.edges()[f].0 == ia as usize
                            && stn.edges()[f].1 == ib as usize;
                        assert(stn.edges()[f] == (f as usize, f as usize, 0i64));
                    }
                }
            }
        }
    }
    let ghost ids = stn.ids();
    proof {
        assert(touched(all.take(0)) == Set::<(i32, i32)>::empty());
    }
    let mut t: usize = 0;
    while t < edges.len()
        invariant
            stn.wf(),
            stn.constraint_table@.len() == 0,
            !stn.propagated,
            all == edges@,
            4 * all.len() < index_limit(),
            forall|u: int| 0 <= u < all.len() ==> edge_fits(#[trigger] all[u], *options),
            forall|x: i32| #[trigger] stn.has_id(x) <==> ids.contains(x),
            0 <= t <= all.len(),
            ids == discovered(all),
            stn.ids() == ids,
            ids.len() <= 2 * all.len(),
            stn.elapsed() == old(stn).elapsed(),
            touched(all.take(t as int)).finite(),
            touched(all.take(t as int)).len() <= 2 * t,
            stn.edges().len() == ids.len() + touched(all.take(t as int)).len(),
            forall|u: int| 0 <= u < all.len() ==> ids.contains(#[trigger] all[u].source) && ids.contains(
                all[u].target,
            ),
            forall|a: i32, b: i32| stn.has_id(a) && stn.has_id(b) ==> #[trigger] stn.weight(a, b) == encoded_weight(
                all.take(t as int),
                *options,
                ids,
                a,
                b,
            ),
        decreases all.len() - t,
    {
        let e = &edges[t];
        let ghost before = *stn;
        proof {
            assert(all[t as int] == *e);
            stn.lemma_has_id(e.source);
            stn.lemma_has_id(e.target);
        }
        let s = stn.lookup(e.source);
        let tg = stn.lookup(e.target);
        let (lower, upper) = edge_interval(e, options);
        let ghost g0 = stn.edges();
        let neg_lower: i64 = -lower;
        let r1 = graph_update_edge(&mut stn.distance_graph, tg, s, neg_lower);
        let ghost g1 = stn.edges();
        proof {
            lemma_update_weight(g0, g1, tg, s, neg_lower, r1);
        }
        let r2 = graph_update_edge(&mut stn.distance_graph, s, tg, upper);
        let ghost g2 = stn.edges();
        proof {
            lemma_update_weight(g1, g2, s, tg, upper, r2);
            assert forall|f: int| 0 <= f < g2.len() implies #[trigger] g2[f].0 < ids.len() && g2[f].1 < ids.len() by {
                if !(g2[f].0 == s && g2[f].1 == tg) {
                    let h = choose|h: int| 0 <= h < g1.len() && g1[h] == g2[f];
                    if !(g1[h].0 == tg && g1[h].1 == s) {
                        let h0 = choose|h0: int| 0 <= h0 < g0.len() && g0[h0] == g1[h];
                        assert(g0[h0].0 < ids.len());
                    }
                }
            }
            let src = e.source;
            let tgt = e.target;
            lemma_touched_step(all, t as int);
            lemma_touched_finite(all.take(t + 1));
            let prev = touched(all.take(t as int));
            assert(before.weight(tgt, src) == weight_between(g0, tg, s));
            assert(before.weight(src, tgt) == weight_between(g0, s, tg));
            assert(before.weight(tgt, src) == encoded_weight(all.take(t as int), *options, ids, tgt, src));
            assert(before.weight(src, tgt) == encoded_weight(all.take(t as int), *options, ids, src, tgt));
            if src == tgt {
                assert(has_edge(g0, tg, s));
                assert(has_edge(g1, s, tg));
                assert(g2.len() == g0.len());
            } else {
                lemma_touched_direct(all.take(t as int), *options, tgt, src);
                lemma_touched_direct(all.take(t as int), *options, src, tgt);
                assert(weight_between(g1, s, tg) == weight_between(g0, s, tg));
                assert(has_edge(g0, tg, s) == prev.contains((tgt, src)));
                assert(has_edge(g1, s, tg) == prev.contains((src, tgt)));
                assert(prev.insert((src, tgt)).contains((tgt, src)) == prev.contains((tgt, src)));
                assert(g2.len() == g0.len() + (if prev.contains((tgt, src)) { 0int } else { 1int }) + (if prev.contains(
                    (src, tgt),
                ) { 0int } else { 1int }));
            }
            assert forall|a: i32, b: i32| stn.has_id(a) && stn.has_id(b) implies #[trigger] stn.weight(a, b)
                == encoded_weight(all.take(t + 1), *options, ids, a, b) by {
                lemma_encoded_step(all, *options, ids, t as int, a, b);
                let ia = stn.node_indices@[a];
                let ib = stn.node_indices@[b];
                assert(before.has_id(a) && before.has_id(b));
                assert(before.weight(a, b) == encoded_weight(all.take(t as int), *options, ids, a, b));
                assert(before.weight(a, b) == weight_between(g0, ia, ib));
                assert(stn.weight(a, b) == weight_between(g2, ia, ib));
                if ia == s && ib == tg {
                    before.lemma_index_injective(a, e.source);
                    before.lemma_index_injective(b, e.target);
                } else if ia == tg && ib == s {
                    before.lemma_index_injective(a, e.target);
                    before.lemma_index_injective(b, e.source);
                } else {
                    if e.source == a && e.target == b {
                        assert(false);
                    }
                    if e.target == a && e.source == b {
                        assert(false);
                    }
                }
            }
        }
        t = t + 1;
    }
    proof {
        assert(all.take(all.len() as int) =~= all);
        assert(stn.edges().len() == ids.len() + touched(all).len());
        assert forall|a: i32, b: i32| #[trigger] stn.weight(a, b) == encoded_weight(all, *options, ids, a, b) by {
            if !(stn.has_id(a) && stn.has_id(b)) {
                if direct_weight(all, *options, a, b) is Some {
                    lemma_direct_weight_mentions(all, *options, a, b);
                }
            }
        }
    }
    (graph_node_count(&stn.distance_graph), graph_edge_count(&stn.distance_graph))
}

/// Perform All-Pairs-Shortest-Paths propagation and store the constraint
/// table.
///
/// The table starts as the distance graph (a known distance for each edge,
/// none elsewhere) and is then propagated by `floyd_warshall` on a scratch
/// copy. On success the network holds the result; on failure it is left as
/// it was. Fails with `NegativeCycle(id)` when a self-distance becomes
/// negative, with `id` the time point, and with `Overflow` when the table or
/// a distance does not fit the machine.
pub fn perform_apsp(stn: &mut STN) -> (r: Result<(), StnError>)
    requires
        old(stn).wf(),
    ensures
        final(stn).wf(),
        final(stn).ids() == old(stn).ids(),
        final(stn).edges() == old(stn).edges(),
        forall|x: i32| #[trigger] final(stn).has_id(x) == old(stn).has_id(x),
        forall|a: i32, b: i32| #[trigger] final(stn).weight(a, b) == old(stn).weight(a, b),
        final(stn).seed() == old(stn).seed(),
        final(stn).elapsed() == old(stn).elapsed(),
        is_square(final(stn).seed(), final(stn).ids().len() as int),
        forall|i: int, j: int| 0 <= i < final(stn).ids().len() && 0 <= j < final(stn).ids().len() ==> #[trigger] final(stn).seed()[i][j]
            == final(stn).weight(final(stn).ids()[i], final(stn).ids()[j]),
        r is Ok ==> forall|a: i32, b: i32| final(stn).has_id(a) && final(stn).has_id(b) ==> #[trigger] final(stn).distance(a, b)
            == fw(final(stn).seed(), final(stn).ids().len())[final(stn).index_of(a)][final(stn).index_of(b)],
        r is Ok <==> (old(stn).ids().len() * old(stn).ids().len() <= usize::MAX && fw_ok(
            old(stn).seed(),
            old(stn).ids().len(),
        )),
        r is Ok ==> final(stn).is_propagated(),
        r is Err ==> *final(stn) == *old(stn),
        r matches Err(StnError::NegativeCycle(id)) ==> exists|k: int, i: int|
            0 <= k < old(stn).ids().len() && 0 <= i < old(stn).ids().len() && fw_ok(old(stn).seed(), k as nat)
                && !not_negative(#[trigger] relax(fw(old(stn).seed(), k as nat), k, i, i)) && id
                == old(stn).ids()[i],
        r matches Err(StnError::NegativeCycle(id)) ==> exists|i: int|
            0 <= i < old(stn).ids().len() && id == old(stn).ids()[i] && #[trigger] on_negative_cycle(
                old(stn).seed(),
                i,
            ),
        r matches Err(StnError::Overflow) ==> old(stn).ids().len() * old(stn).ids().len() > usize::MAX
            || exists|k: int, i: int, j: int|
            0 <= k < old(stn).ids().len() && 0 <= i < old(stn).ids().len() && 0 <= j < old(stn).ids().len()
                && fw_ok(old(stn).seed(), k as nat) && !fits(
                #[trigger] relax(fw(old(stn).seed(), k as nat), k, i, j),
            ),
{
    let n = stn.node_ids.len();
    let ghost nn = n as int;
    let ghost seed = stn.seed();
    proof {
        stn.lemma_view();
    }
    if n.checked_mul(n).is_none() {
        return Err(StnError::Overflow);
    }
    let mut table: Vec<Option<i64>> = Vec::new();
    let mut i: usize = 0;
    while i < n
        invariant
            stn.wf(),
            n == stn.ids().len(),
            nn == n as int,
            seed == stn.seed(),
            nn * nn <= usize::MAX,
            0 <= i <= n,
            table@.len() == i * n,
            forall|a: int, b: int| 0 <= a < i && 0 <= b < n ==> #[trigger] at(table@, nn, a, b) == seed[a][b],
        decreases n - i,
    {
        let mut j: usize = 0;
        while j < n
            invariant
                stn.wf(),
                n == stn.ids().len(),
                nn == n as int,
                seed == stn.seed(),
                nn * nn <= usize::MAX,
                0 <= i < n,
                0 <= j <= n,
                table@.len() == i * n + j,
                forall|a: int, b: int| (0 <= a < i && 0 <= b < n) || (a == i && 0 <= b < j) ==> #[trigger] at(
                    table@,
                    nn,
                    a,
                    b,
                ) == seed[a][b],
            decreases n - j,
        {
            let ghost before = table@;
            let w = stn.weight_at(i, j);
            table.push(w);
            proof {
                lemma_flat_index(nn, i as int, j as int, 0, 0);
                assert(at(table@, nn, i as int, j as int) == seed[i as int][j as int]);
                assert forall|a: int, b: int| (0 <= a < i && 0 <= b < n) || (a == i && 0 <= b < j + 1) implies #[trigger] at(
                    table@,
                    nn,
                    a,
                    b,
                ) == seed[a][b] by {
                    if a != i || b != j {
                        lemma_flat_order(nn, a, b, i as int, j as int);
                        lemma_flat_index(nn, a, b, 0, 0);
                        assert(at(table@, nn, a, b) == at(before, nn, a, b));
                    }
                }
            }
            j = j + 1;
        }
        proof {
            assert((i + 1) * n == i * n + n) by (nonlinear_arith);
        }
        i = i + 1;
    }
    proof {
        assert(square(table@, nn) =~~= seed) by {
            assert forall|a: int| 0 <= a < nn implies #[trigger] square(table@, nn)[a] =~= seed[a] by {
                assert forall|b: int| 0 <= b < nn implies #[trigger] square(table@, nn)[a][b] == seed[a][b] by {
                    assert(at(table@, nn, a, b) == seed[a][b]);
                }
            }
        }
    }
    proof {
        stn.lemma_view();
    }
    match floyd_warshall(&mut table, n, &stn.node_ids) {
        Ok(()) => {
            stn.constraint_table = table;
            stn.propagated = true;
            proof {
                stn.lemma_view();
            }
            Ok(())
        },
        Err(e) => Err(e),
    }
}

} // verus!
