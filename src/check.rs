//! Reachability, shortest distances and the signal-power check.

use vstd::prelude::*;
use vstd::arithmetic::mul::lemma_mul_inequality;
use crate::geometry::Position;
use crate::circuit::{BlockInfo, Circuit, ModelObject};
use crate::graph::{
    Graph, Edge, Dot, EdgeDirect, NodeType, BuildError, BuildState, create_graph, first_block_from,
    graph_of, kind_indices, model_missing, ports_fit, wire_is_bad,
};
use crate::text::str_eq;
use vstd::set_lib::{lemma_int_range, lemma_len_subset, set_int_range};

verus! {

/// The smaller of two distances, `None` standing for "not reached".
pub open spec fn min_opt(a: Option<int>, b: Option<int>) -> Option<int> {
    match (a, b) {
        (None, _) => b,
        (_, None) => a,
        (Some(x), Some(y)) => Some(if x <= y { x } else { y }),
    }
}

/// The distance to `v` through edge `e`, from the distances `d` of its
/// other end; direction is ignored.
pub open spec fn via_edge(e: Edge, d: Seq<Option<int>>, v: int) -> Option<int> {
    let other = if e.start == v {
        e.end as int
    } else if e.end == v {
        e.start as int
    } else {
        -1
    };
    if 0 <= other < d.len() {
        match d[other] {
            Some(x) => Some(x + e.length),
            None => None,
        }
    } else {
        None
    }
}

/// The best distance to `v` through one of the first `m` edges.
pub open spec fn best_via(edges: Seq<Edge>, d: Seq<Option<int>>, v: int, m: int) -> Option<int>
    decreases m,
{
    if m <= 0 {
        None
    } else {
        min_opt(best_via(edges, d, v, m - 1), via_edge(edges[m - 1], d, v))
    }
}

/// One round of relaxation over every edge.
pub open spec fn relax_round(edges: Seq<Edge>, d: Seq<Option<int>>) -> Seq<Option<int>> {
    Seq::new(d.len(), |v: int| min_opt(d[v], best_via(edges, d, v, edges.len() as int)))
}

/// For each of the `n` dots, the least length of a walk from `s` to it that
/// crosses at most `k` edges, or `None` when there is no such walk.
pub open spec fn dist_rounds(edges: Seq<Edge>, n: nat, s: int, k: nat) -> Seq<Option<int>>
    decreases k,
{
    if k == 0 {
        Seq::new(n, |v: int| if v == s { Some(0int) } else { None })
    } else {
        relax_round(edges, dist_rounds(edges, n, s, (k - 1) as nat))
    }
}

/// The shortest-path distance from `s` to every dot, ignoring edge
/// direction: the least length of a walk of at most `n - 1` edges (a
/// shortest walk never needs more), `None` where `s` does not reach.
pub open spec fn shortest_distances(edges: Seq<Edge>, n: nat, s: int) -> Seq<Option<int>> {
    dist_rounds(edges, n, s, if n == 0 { 0 } else { (n - 1) as nat })
}

/// The distances that a vector holds, as integers.
pub open spec fn dist_view(d: Seq<Option<u128>>) -> Seq<Option<int>> {
    Seq::new(d.len(), |v: int| match d[v] {
        Some(x) => Some(x as int),
        None => None,
    })
}

/// The indices below `m` whose distance is known, in increasing order.
pub open spec fn reached_below(d: Seq<Option<int>>, m: int) -> Seq<usize>
    decreases m,
{
    if m <= 0 {
        Seq::empty()
    } else if d[m - 1] is Some {
        reached_below(d, m - 1).push((m - 1) as usize)
    } else {
        reached_below(d, m - 1)
    }
}

/// The largest value that `k` rounds can give: `k` edges of the longest length.
pub open spec fn round_bound(k: int) -> int {
    k * 0xFFFF_FFFF_FFFF_FFFFu64
}

fn min_dist(a: Option<u128>, b: Option<u128>) -> (r: Option<u128>)
    ensures
        (match r { Some(x) => Some(x as int), None => None::<int> }) == min_opt(
            match a { Some(x) => Some(x as int), None => None::<int> },
            match b { Some(x) => Some(x as int), None => None::<int> },
        ),
{
    match (a, b) {
        (None, _) => b,
        (_, None) => a,
        (Some(x), Some(y)) => Some(if x <= y { x } else { y }),
    }
}

proof fn lemma_round_step(k: int)
    requires
        0 <= k,
        k + 1 < 0x1_0000_0000_0000_0000int,
    ensures
        round_bound(k) + 0xFFFF_FFFF_FFFF_FFFFu64 == round_bound(k + 1),
        round_bound(k + 1) <= 0xFFFF_FFFF_FFFF_FFFFu64 * 0xFFFF_FFFF_FFFF_FFFFu64,
{
    assert(round_bound(k) + 0xFFFF_FFFF_FFFF_FFFFu64 == round_bound(k + 1)) by (nonlinear_arith);
    lemma_mul_inequality(k + 1, 0xFFFF_FFFF_FFFF_FFFFu64 as int, 0xFFFF_FFFF_FFFF_FFFFu64 as int);
}

/// One round of relaxation on the distances `d`.
fn relax_once(edges: &Vec<Edge>, d: &Vec<Option<u128>>, Ghost(k): Ghost<int>) -> (r: Vec<Option<u128>>)
    requires
        0 <= k,
        k + 1 < 0x1_0000_0000_0000_0000int,
        forall|i: int| 0 <= i < edges@.len() ==> #[trigger] edges@[i].start < d@.len() && edges@[i].end < d@.len(),
        forall|v: int| 0 <= v < d@.len() ==> (#[trigger] d@[v] matches Some(x) ==> x <= round_bound(k)),
    ensures
        r@.len() == d@.len(),
        dist_view(r@) == relax_round(edges@, dist_view(d@)),
        forall|v: int| 0 <= v < r@.len() ==> (#[trigger] r@[v] matches Some(x) ==> x <= round_bound(k + 1)),
{
    let ghost dv = dist_view(d@);
    proof {
        lemma_round_step(k);
    }
    let mut nd: Vec<Option<u128>> = Vec::new();
    let mut i: usize = 0;
    while i < d.len()
        invariant
            i <= d@.len(),
            nd@.len() == i,
            forall|v: int| 0 <= v < i ==> #[trigger] nd@[v] == d@[v],
        decreases d@.len() - i,
    {
        nd.push(d[i]);
        i = i + 1;
    }
    let mut j: usize = 0;
    while j < edges.len()
        invariant
            j <= edges@.len(),
            nd@.len() == d@.len(),
            dv == dist_view(d@),
            round_bound(k) + 0xFFFF_FFFF_FFFF_FFFFu64 == round_bound(k + 1),
            round_bound(k + 1) <= 0xFFFF_FFFF_FFFF_FFFFu64 * 0xFFFF_FFFF_FFFF_FFFFu64,
            forall|i: int| 0 <= i < edges@.len() ==> #[trigger] edges@[i].start < d@.len() && edges@[i].end < d@.len(),
            forall|v: int| 0 <= v < d@.len() ==> (#[trigger] d@[v] matches Some(x) ==> x <= round_bound(k)),
            forall|v: int| 0 <= v < nd@.len() ==> (#[trigger] nd@[v] matches Some(x) ==> x <= round_bound(k + 1)),
            forall|v: int| 0 <= v < nd@.len() ==> #[trigger] dist_view(nd@)[v] == min_opt(dv[v], best_via(edges@, dv, v, j as int)),
        decreases edges@.len() - j,
    {
        let e = edges[j];
        let ghost before = dist_view(nd@);
        let to_end: Option<u128> = match d[e.start] {
            Some(x) => Some(x + e.length as u128),
            None => None,
        };
        let cur_end = nd[e.end];
        nd.set(e.end, min_dist(cur_end, to_end));
        let to_start: Option<u128> = match d[e.end] {
            Some(x) => Some(x + e.length as u128),
            None => None,
        };
        let cur_start = nd[e.start];
        nd.set(e.start, min_dist(cur_start, to_start));
        assert forall|v: int| 0 <= v < nd@.len() implies #[trigger] dist_view(nd@)[v] == min_opt(dv[v], best_via(edges@, dv, v, j as int + 1)) by {
            assert(best_via(edges@, dv, v, j as int + 1) == min_opt(best_via(edges@, dv, v, j as int), via_edge(e, dv, v)));
            assert(before[v] == min_opt(dv[v], best_via(edges@, dv, v, j as int)));
        };
        j = j + 1;
    }
    assert(dist_view(nd@) =~= relax_round(edges@, dv));
    nd
}

impl Graph {
    /// The shortest-path distance from `start` to every dot, ignoring edge
    /// direction (`None` where `start` does not reach).
    pub fn shortest_distances(&self, start: usize) -> (r: Vec<Option<u128>>)
        requires
            self.wf(),
            start < self.dots@.len(),
        ensures
            r@.len() == self.dots@.len(),
            dist_view(r@) == shortest_distances(self.edges@, self.dots@.len(), start as int),
    {
        let n = self.dots.len();
        let mut d: Vec<Option<u128>> = Vec::new();
        let mut i: usize = 0;
        while i < n
            invariant
                i <= n,
                n == self.dots@.len(),
                start < n,
                d@.len() == i,
                forall|v: int| 0 <= v < i ==> #[trigger] d@[v] == (if v == start { Some(0u128) } else { None }),
            decreases n - i,
        {
            if i == start {
                d.push(Some(0));
            } else {
                d.push(None);
            }
            i = i + 1;
        }
        assert(dist_view(d@) =~= dist_rounds(self.edges@, n as nat, start as int, 0));
        let mut k: usize = 0;
        while k + 1 < n
            invariant
                self.wf(),
                n == self.dots@.len(),
                start < n,
                k + 1 <= n,
                d@.len() == n,
                dist_view(d@) == dist_rounds(self.edges@, n as nat, start as int, k as nat),
                forall|v: int| 0 <= v < d@.len() ==> (#[trigger] d@[v] matches Some(x) ==> x <= round_bound(k as int)),
            decreases n - k,
        {
            d = relax_once(&self.edges, &d, Ghost(k as int));
            k = k + 1;
        }
        d
    }

    /// The shortest-path distance from `start` to `end`, ignoring edge
    /// direction; `None` when `start` does not reach `end`.
    pub fn get_distance(&self, start: usize, end: usize) -> (r: Option<u128>)
        requires
            self.wf(),
            start < self.dots@.len(),
            end < self.dots@.len(),
        ensures
            (match r { Some(x) => Some(x as int), None => None::<int> }) == shortest_distances(self.edges@, self.dots@.len(), start as int)[end as int],
    {
        let d = self.shortest_distances(start);
        assert(dist_view(d@)[end as int] == (match d@[end as int] { Some(x) => Some(x as int), None => None::<int> }));
        d[end]
    }

    /// The dots that `dot` reaches over edges taken either way, itself
    /// included, in increasing order.
    pub fn get_reachables(&self, dot: usize) -> (r: Vec<usize>)
        requires
            self.wf(),
            dot < self.dots@.len(),
        ensures
            r@ == reached_below(shortest_distances(self.edges@, self.dots@.len(), dot as int), self.dots@.len() as int),
    {
        let d = self.shortest_distances(dot);
        let ghost dv = dist_view(d@);
        let mut r: Vec<usize> = Vec::new();
        let mut v: usize = 0;
        while v < d.len()
            invariant
                v <= d@.len(),
                dv == dist_view(d@),
                r@ == reached_below(dv, v as int),
            decreases d@.len() - v,
        {
            if d[v].is_some() {
                r.push(v);
            }
            v = v + 1;
        }
        r
    }
}

/// The power that a signal starts with, and how far it travels unboosted.
pub const MAX_REDSTONE_DISTANCE: u64 = 15;

/// The first block at `p` is exactly a repeater.
pub open spec fn literal_repeater_at(blocks: Seq<BlockInfo>, p: Position) -> bool {
    match first_block_from(blocks, p, 0) {
        Some(k) => blocks[k].id@ == "repeater"@,
        None => false,
    }
}

/// The power left after crossing `e` with `energy`. A reversed edge boosts
/// to full power. On a non-reversed edge the repeaters boost the signal to
/// full power, which arrives whole when the far end holds a repeater and
/// less the run after the last repeater otherwise. A bidirectional edge
/// spends its length. A result of zero or less means the signal dies.
pub open spec fn energy_after(e: Edge, energy: int, into_repeater: bool) -> int {
    match e.direct {
        EdgeDirect::Reversed => MAX_REDSTONE_DISTANCE as int,
        EdgeDirect::Nonreversed => if into_repeater {
            MAX_REDSTONE_DISTANCE as int
        } else {
            MAX_REDSTONE_DISTANCE - e.tail
        },
        EdgeDirect::Bidirectional => energy - e.length,
    }
}

/// Edge `j` extends the simple path `path`, from its last dot to a dot not
/// yet on it, and leaves positive power.
pub open spec fn can_step(dots: Seq<Dot>, edges: Seq<Edge>, blocks: Seq<BlockInfo>, path: Seq<usize>, energy: int, j: int) -> bool {
    let e = edges[j];
    &&& path.len() < dots.len()
    &&& e.start == path.last()
    &&& e.end < dots.len()
    &&& !path.contains(e.end)
    &&& energy_after(e, energy, literal_repeater_at(blocks, dots[e.end as int].pos)) > 0
}

/// Some simple path that follows edges from start to end, extends `path`
/// (whose power is `energy`) using at its next step only edges from index `j`
/// on, and reaches `t` with positive power all along.
pub open spec fn powered_search(dots: Seq<Dot>, edges: Seq<Edge>, blocks: Seq<BlockInfo>, t: int, path: Seq<usize>, energy: int, j: int) -> bool
    decreases dots.len() - path.len(), edges.len() - j,
{
    if path.len() == 0 {
        false
    } else if path.last() == t {
        true
    } else if j < 0 || j >= edges.len() {
        false
    } else {
        (can_step(dots, edges, blocks, path, energy, j) && powered_search(
            dots,
            edges,
            blocks,
            t,
            path.push(edges[j].end),
            energy_after(edges[j], energy, literal_repeater_at(blocks, dots[edges[j].end as int].pos)),
            0,
        )) || powered_search(dots, edges, blocks, t, path, energy, j + 1)
    }
}

/// Some simple path along edges from start to end leads from `s` to `t`
/// with positive power all along, starting from full power.
pub open spec fn has_powered_path(dots: Seq<Dot>, edges: Seq<Edge>, blocks: Seq<BlockInfo>, s: int, t: int) -> bool {
    powered_search(dots, edges, blocks, t, seq![s as usize], MAX_REDSTONE_DISTANCE as int, 0)
}

/// `s` reaches `t` only farther than an unboosted signal carries, and no
/// path keeps the signal powered.
pub open spec fn pair_violation(dots: Seq<Dot>, edges: Seq<Edge>, blocks: Seq<BlockInfo>, s: int, t: int) -> bool {
    match shortest_distances(edges, dots.len(), s)[t] {
        Some(d) => d > MAX_REDSTONE_DISTANCE && !has_powered_path(dots, edges, blocks, s, t),
        None => false,
    }
}

/// The violations from source `s` to the targets below `m`, in increasing order.
pub open spec fn source_violations(dots: Seq<Dot>, edges: Seq<Edge>, blocks: Seq<BlockInfo>, s: int, m: int) -> Seq<(usize, usize)>
    decreases m,
{
    if m <= 0 {
        Seq::empty()
    } else if pair_violation(dots, edges, blocks, s, m - 1) {
        source_violations(dots, edges, blocks, s, m - 1).push((s as usize, (m - 1) as usize))
    } else {
        source_violations(dots, edges, blocks, s, m - 1)
    }
}

/// The violations from the first `i` sources of `outs`.
pub open spec fn violations_upto(dots: Seq<Dot>, edges: Seq<Edge>, blocks: Seq<BlockInfo>, outs: Seq<usize>, i: int) -> Seq<(usize, usize)>
    decreases i,
{
    if i <= 0 {
        Seq::empty()
    } else {
        violations_upto(dots, edges, blocks, outs, i - 1) + source_violations(dots, edges, blocks, outs[i - 1] as int, dots.len() as int)
    }
}

/// Every (source, target) pair of a graph that breaks the power rule, by
/// source in the order of the output dots, then by target.
pub open spec fn graph_violations(st: BuildState, blocks: Seq<BlockInfo>) -> Seq<(usize, usize)> {
    let outs = kind_indices(st.0, NodeType::Output);
    violations_upto(st.0, st.1, blocks, outs, outs.len() as int)
}

/// Every component's model is in the table and no wire holds a repeater
/// without a usable facing.
pub open spec fn graph_builds(circuit: Circuit, models: Seq<ModelObject>) -> bool {
    &&& forall|k: int| 0 <= k < circuit.components@.len() ==> !#[trigger] model_missing(circuit, models, k)
    &&& forall|j: int| 0 <= j < circuit.wires@.len() ==> !wire_is_bad(circuit.blocks@, #[trigger] circuit.wires@[j])
}

proof fn lemma_kind_indices_bound(dots: Seq<Dot>, kind: NodeType)
    requires
        dots.len() <= usize::MAX,
    ensures
        forall|i: int| 0 <= i < kind_indices(dots, kind).len() ==> #[trigger] kind_indices(dots, kind)[i] < dots.len(),
    decreases dots.len(),
{
    if dots.len() > 0 {
        lemma_kind_indices_bound(dots.drop_last(), kind);
        let prev = kind_indices(dots.drop_last(), kind);
        assert forall|i: int| 0 <= i < kind_indices(dots, kind).len() implies #[trigger] kind_indices(dots, kind)[i] < dots.len() by {
            if i < prev.len() {
                assert(prev[i] < dots.drop_last().len());
            }
        };
    }
}

fn literal_repeater(blocks: &Vec<BlockInfo>, pos: Position) -> (r: bool)
    ensures
        r == literal_repeater_at(blocks@, pos),
{
    let mut i: usize = 0;
    while i < blocks.len()
        invariant
            i <= blocks@.len(),
            first_block_from(blocks@, pos, 0) == first_block_from(blocks@, pos, i as int),
        decreases blocks@.len() - i,
    {
        if blocks[i].position == pos {
            return str_eq(blocks[i].id.as_str(), "repeater");
        }
        i = i + 1;
    }
    false
}

fn extended(path: &Vec<usize>, x: usize) -> (r: Vec<usize>)
    ensures
        r@ == path@.push(x),
{
    let mut r: Vec<usize> = Vec::new();
    let mut i: usize = 0;
    while i < path.len()
        invariant
            i <= path@.len(),
            r@ == path@.take(i as int),
        decreases path@.len() - i,
    {
        r.push(path[i]);
        assert(path@.take(i as int + 1) =~= path@.take(i as int).push(path@[i as int]));
        i = i + 1;
    }
    assert(path@.take(i as int) =~= path@);
    r.push(x);
    r
}

fn holds_index(path: &Vec<usize>, x: usize) -> (r: bool)
    ensures
        r == path@.contains(x),
{
    let mut i: usize = 0;
    while i < path.len()
        invariant
            i <= path@.len(),
            forall|k: int| 0 <= k < i ==> path@[k] != x,
        decreases path@.len() - i,
    {
        if path[i] == x {
            return true;
        }
        i = i + 1;
    }
    false
}

impl Graph {
    fn powered_search(&self, blocks: &Vec<BlockInfo>, t: usize, path: &Vec<usize>, energy: u64) -> (r: bool)
        requires
            self.wf(),
            path@.len() > 0,
            energy <= MAX_REDSTONE_DISTANCE,
        ensures
            r == powered_search(self.dots@, self.edges@, blocks@, t as int, path@, energy as int, 0),
        decreases self.dots@.len() - path@.len(),
    {
        let cur = path[path.len() - 1];
        if cur == t {
            return true;
        }
        let ghost prefix = path@;
        let mut j: usize = 0;
        while j < self.edges.len()
            invariant
                self.wf(),
                path@ == prefix,
                prefix.len() > 0,
                cur == prefix.last(),
                cur != t,
                energy <= MAX_REDSTONE_DISTANCE,
                j <= self.edges@.len(),
                powered_search(self.dots@, self.edges@, blocks@, t as int, prefix, energy as int, 0)
                    == powered_search(self.dots@, self.edges@, blocks@, t as int, prefix, energy as int, j as int),
            decreases self.edges@.len() - j,
        {
            let e = self.edges[j];
            if path.len() < self.dots.len() && e.start == cur && e.end < self.dots.len() && !holds_index(path, e.end) {
                let into_repeater = literal_repeater(blocks, self.dots[e.end].pos);
                let next: u64 = match e.direct {
                    EdgeDirect::Reversed => MAX_REDSTONE_DISTANCE,
                    EdgeDirect::Nonreversed => if into_repeater {
                        MAX_REDSTONE_DISTANCE
                    } else if e.tail >= MAX_REDSTONE_DISTANCE {
                        0
                    } else {
                        MAX_REDSTONE_DISTANCE - e.tail
                    },
                    EdgeDirect::Bidirectional => if e.length >= energy {
                        0
                    } else {
                        energy - e.length
                    },
                };
                assert(next > 0 <==> energy_after(e, energy as int, into_repeater) > 0);
                if next > 0 {
                    assert(next == energy_after(e, energy as int, into_repeater));
                    let longer = extended(path, e.end);
                    let found = self.powered_search(blocks, t, &longer, next);
                    if found {
                        return true;
                    }
                }
            }
            j = j + 1;
        }
        false
    }

    /// Whether some simple path along edges from start to end leads from `s`
    /// to `t` with positive power all along.
    pub fn has_powered_path(&self, blocks: &Vec<BlockInfo>, s: usize, t: usize) -> (r: bool)
        requires
            self.wf(),
        ensures
            r == has_powered_path(self.dots@, self.edges@, blocks@, s as int, t as int),
    {
        let mut path: Vec<usize> = Vec::new();
        path.push(s);
        assert(path@ =~= seq![s]);
        self.powered_search(blocks, t, &path, MAX_REDSTONE_DISTANCE)
    }

    /// Every (source, target) pair, sources in the order of the output
    /// dots, targets in increasing order, where the target lies farther than
    /// an unboosted signal carries and no path keeps the signal powered.
    pub fn find_violations(&self, blocks: &Vec<BlockInfo>) -> (r: Vec<(usize, usize)>)
        requires
            self.wf(),
        ensures
            r@ == violations_upto(self.dots@, self.edges@, blocks@, self.outputs@, self.outputs@.len() as int),
    {
        let _n = self.dots.len();
        proof {
            lemma_kind_indices_bound(self.dots@, NodeType::Output);
        }
        let mut r: Vec<(usize, usize)> = Vec::new();
        let mut i: usize = 0;
        while i < self.outputs.len()
            invariant
                self.wf(),
                i <= self.outputs@.len(),
                forall|k: int| 0 <= k < self.outputs@.len() ==> #[trigger] self.outputs@[k] < self.dots@.len(),
                r@ == violations_upto(self.dots@, self.edges@, blocks@, self.outputs@, i as int),
            decreases self.outputs@.len() - i,
        {
            let s = self.outputs[i];
            let d = self.shortest_distances(s);
            let ghost base = r@;
            let mut t: usize = 0;
            while t < d.len()
                invariant
                    self.wf(),
                    s < self.dots@.len(),
                    d@.len() == self.dots@.len(),
                    dist_view(d@) == shortest_distances(self.edges@, self.dots@.len(), s as int),
                    t <= d@.len(),
                    r@ == base + source_violations(self.dots@, self.edges@, blocks@, s as int, t as int),
                decreases d@.len() - t,
            {
                assert(dist_view(d@)[t as int] == (match d@[t as int] { Some(x) => Some(x as int), None => None::<int> }));
                match d[t] {
                    Some(x) => {
                        if x > MAX_REDSTONE_DISTANCE as u128 && !self.has_powered_path(blocks, s, t) {
                            r.push((s, t));
                        }
                    },
                    None => {},
                }
                assert(r@ =~= base + source_violations(self.dots@, self.edges@, blocks@, s as int, t as int + 1));
                t = t + 1;
            }
            i = i + 1;
        }
        r
    }
}

/// Builds the circuit's graph and lists every (source, target) pair that
/// breaks the power rule, and whether the circuit passes: it does exactly when
/// the list is empty. Wires left out for opposing repeaters are recorded in
/// the graph and reported, but do not by themselves fail the check.
pub fn check_circuit(obj: &Circuit, model_objects: &Vec<ModelObject>) -> (r: Result<(bool, Vec<(usize, usize)>), BuildError>)
    requires
        ports_fit(*obj, model_objects@),
    ensures
        r is Ok <==> graph_builds(*obj, model_objects@),
        r matches Ok((passed, v)) ==> v@ == graph_violations(graph_of(*obj, model_objects@), obj.blocks@) && passed == (v@.len() == 0),
{
    match create_graph(obj, model_objects) {
        Ok(graph) => {
            let violations = graph.find_violations(&obj.blocks);
            let passed = violations.len() == 0;
            Ok((passed, violations))
        },
        Err(e) => Err(e),
    }
}

/// How many times `x` occurs in `s`.
pub open spec fn occurrences<T>(s: Seq<T>, x: T) -> int
    decreases s.len(),
{
    if s.len() == 0 {
        0
    } else {
        occurrences(s.drop_last(), x) + if s.last() == x { 1int } else { 0int }
    }
}

proof fn lemma_occurrences_concat<T>(a: Seq<T>, b: Seq<T>, x: T)
    ensures
        occurrences(a + b, x) == occurrences(a, x) + occurrences(b, x),
    decreases b.len(),
{
    if b.len() > 0 {
        assert((a + b).drop_last() =~= a + b.drop_last());
        lemma_occurrences_concat(a, b.drop_last(), x);
    } else {
        assert(a + b =~= a);
    }
}

proof fn lemma_occurrences_absent<T>(s: Seq<T>, x: T)
    requires
        forall|k: int| 0 <= k < s.len() ==> s[k] != x,
    ensures
        occurrences(s, x) == 0,
    decreases s.len(),
{
    if s.len() > 0 {
        lemma_occurrences_absent(s.drop_last(), x);
    }
}

proof fn lemma_source_occurrences(dots: Seq<Dot>, edges: Seq<Edge>, blocks: Seq<BlockInfo>, s: int, m: int, t: int)
    requires
        0 <= s <= usize::MAX,
        0 <= t <= usize::MAX,
        m <= usize::MAX + 1,
    ensures
        occurrences(source_violations(dots, edges, blocks, s, m), (s as usize, t as usize))
            == if 0 <= t < m && pair_violation(dots, edges, blocks, s, t) { 1int } else { 0int },
    decreases m,
{
    if m > 0 {
        lemma_source_occurrences(dots, edges, blocks, s, m - 1, t);
        let prev = source_violations(dots, edges, blocks, s, m - 1);
        if pair_violation(dots, edges, blocks, s, m - 1) {
            assert(prev.push((s as usize, (m - 1) as usize)).drop_last() =~= prev);
        }
    }
}

proof fn lemma_other_source_occurrences(dots: Seq<Dot>, edges: Seq<Edge>, blocks: Seq<BlockInfo>, s2: int, m: int, x: (usize, usize))
    requires
        0 <= s2 <= usize::MAX,
        x.0 as int != s2,
    ensures
        occurrences(source_violations(dots, edges, blocks, s2, m), x) == 0,
    decreases m,
{
    if m > 0 {
        lemma_other_source_occurrences(dots, edges, blocks, s2, m - 1, x);
        let prev = source_violations(dots, edges, blocks, s2, m - 1);
        if pair_violation(dots, edges, blocks, s2, m - 1) {
            assert(prev.push((s2 as usize, (m - 1) as usize)).drop_last() =~= prev);
        }
    }
}

proof fn lemma_upto_occurrences(dots: Seq<Dot>, edges: Seq<Edge>, blocks: Seq<BlockInfo>, outs: Seq<usize>, i: int, s: int, t: int)
    requires
        0 <= i <= outs.len(),
        0 <= s <= usize::MAX,
        0 <= t < dots.len() <= usize::MAX,
    ensures
        occurrences(violations_upto(dots, edges, blocks, outs, i), (s as usize, t as usize))
            == occurrences(outs.take(i), s as usize) * if pair_violation(dots, edges, blocks, s, t) { 1int } else { 0int },
    decreases i,
{
    let x = (s as usize, t as usize);
    if i > 0 {
        lemma_upto_occurrences(dots, edges, blocks, outs, i - 1, s, t);
        let o = outs[i - 1] as int;
        let prev = violations_upto(dots, edges, blocks, outs, i - 1);
        let here = source_violations(dots, edges, blocks, o, dots.len() as int);
        lemma_occurrences_concat(prev, here, x);
        assert(outs.take(i).drop_last() =~= outs.take(i - 1));
        if o == s {
            lemma_source_occurrences(dots, edges, blocks, s, dots.len() as int, t);
        } else {
            lemma_other_source_occurrences(dots, edges, blocks, o, dots.len() as int, x);
        }
        let c = occurrences(outs.take(i - 1), s as usize);
        let f = if pair_violation(dots, edges, blocks, s, t) { 1int } else { 0int };
        assert((c + 1) * f == c * f + f) by (nonlinear_arith);
    } else {
        assert(outs.take(0) =~= Seq::<usize>::empty());
    }
}

proof fn lemma_output_listed_once(dots: Seq<Dot>, s: int)
    requires
        0 <= s < dots.len() <= usize::MAX,
    ensures
        occurrences(kind_indices(dots, NodeType::Output), s as usize) == if dots[s].type_ == NodeType::Output { 1int } else { 0int },
    decreases dots.len(),
{
    let n = dots.len() - 1;
    let prev = kind_indices(dots.drop_last(), NodeType::Output);
    if s < n {
        lemma_output_listed_once(dots.drop_last(), s);
        if dots.last().type_ == NodeType::Output {
            assert(prev.push(n as usize).drop_last() =~= prev);
        }
    } else {
        lemma_kind_indices_bound(dots.drop_last(), NodeType::Output);
        lemma_occurrences_absent(prev, s as usize);
        if dots.last().type_ == NodeType::Output {
            assert(prev.push(n as usize).drop_last() =~= prev);
        }
    }
}

/// A target that its source reaches within the unboosted range is never
/// reported: the pair breaks no rule and does not occur in the list of
/// violations.
pub proof fn lemma_near_target_not_reported(st: BuildState, blocks: Seq<BlockInfo>, s: int, t: int)
    requires
        0 <= s < st.0.len(),
        0 <= t < st.0.len(),
        st.0.len() <= usize::MAX,
        shortest_distances(st.1, st.0.len(), s)[t] matches Some(d) && d <= MAX_REDSTONE_DISTANCE,
    ensures
        !pair_violation(st.0, st.1, blocks, s, t),
        occurrences(graph_violations(st, blocks), (s as usize, t as usize)) == 0,
{
    let outs = kind_indices(st.0, NodeType::Output);
    lemma_upto_occurrences(st.0, st.1, blocks, outs, outs.len() as int, s, t);
}

/// A target beyond the unboosted range of an output dot is reported
/// exactly once when no path keeps the signal powered to it, and not at all
/// when one does.
pub proof fn lemma_far_target_reported_once(st: BuildState, blocks: Seq<BlockInfo>, s: int, t: int)
    requires
        0 <= s < st.0.len(),
        0 <= t < st.0.len(),
        st.0.len() <= usize::MAX,
        st.0[s].type_ == NodeType::Output,
        shortest_distances(st.1, st.0.len(), s)[t] matches Some(d) && d > MAX_REDSTONE_DISTANCE,
    ensures
        powered_path_exists(st.0, st.1, blocks, s, t) ==> occurrences(graph_violations(st, blocks), (s as usize, t as usize)) == 0,
        !powered_path_exists(st.0, st.1, blocks, s, t) ==> occurrences(graph_violations(st, blocks), (s as usize, t as usize)) == 1,
{
    lemma_powered_search_exact(st.0, st.1, blocks, s, t);
    let outs = kind_indices(st.0, NodeType::Output);
    lemma_upto_occurrences(st.0, st.1, blocks, outs, outs.len() as int, s, t);
    lemma_output_listed_once(st.0, s);
    assert(outs.take(outs.len() as int) =~= outs);
}

/// `hops` lists the edges of a walk along the dots `path`, one edge fewer
/// than dots: each runs from start to end, from one dot of `path` to the
/// next, and the power, beginning at `energy`, stays positive after each.
pub open spec fn powered_walk(dots: Seq<Dot>, edges: Seq<Edge>, blocks: Seq<BlockInfo>, path: Seq<usize>, hops: Seq<int>, energy: int) -> bool
    decreases hops.len(),
{
    if hops.len() == 0 {
        path.len() == 1
    } else {
        let j = hops[0];
        let after = energy_after(edges[j], energy, literal_repeater_at(blocks, dots[path[1] as int].pos));
        path.len() == hops.len() + 1 && 0 <= j < edges.len() && edges[j].start == path[0] && edges[j].end == path[1]
            && edges[j].end < dots.len() && after > 0 && powered_walk(dots, edges, blocks, path.drop_first(), hops.drop_first(), after)
    }
}

/// Some simple path from `s` to `t` follows edges from start to end and
/// keeps the signal, starting at full power, positive all along.
pub open spec fn powered_path_exists(dots: Seq<Dot>, edges: Seq<Edge>, blocks: Seq<BlockInfo>, s: int, t: int) -> bool {
    exists|path: Seq<usize>, hops: Seq<int>| {
        &&& #[trigger] powered_walk(dots, edges, blocks, path, hops, MAX_REDSTONE_DISTANCE as int)
        &&& path[0] == s
        &&& path.last() == t
        &&& path.no_duplicates()
    }
}

proof fn lemma_simple_path_fits(path: Seq<usize>, n: nat)
    requires
        path.no_duplicates(),
        forall|k: int| 0 <= k < path.len() ==> #[trigger] path[k] < n,
    ensures
        path.len() <= n,
{
    let ip = path.map_values(|x: usize| x as int);
    assert(ip.no_duplicates()) by {
        assert forall|i: int, j: int| 0 <= i < ip.len() && 0 <= j < ip.len() && i != j implies ip[i] != ip[j] by {
            assert(path[i] != path[j]);
        };
    };
    ip.unique_seq_to_set();
    lemma_int_range(0, n as int);
    assert forall|x: int| ip.to_set().contains(x) implies set_int_range(0, n as int).contains(x) by {
        let k = choose|k: int| 0 <= k < ip.len() && ip[k] == x;
        assert(path[k] < n);
    };
    lemma_len_subset(ip.to_set(), set_int_range(0, n as int));
}

proof fn lemma_search_from_later(dots: Seq<Dot>, edges: Seq<Edge>, blocks: Seq<BlockInfo>, t: int, p: Seq<usize>, energy: int, i: int, j: int)
    requires
        0 <= i <= j,
        powered_search(dots, edges, blocks, t, p, energy, j),
    ensures
        powered_search(dots, edges, blocks, t, p, energy, i),
    decreases j - i,
{
    if i < j {
        lemma_search_from_later(dots, edges, blocks, t, p, energy, i + 1, j);
    }
}

proof fn lemma_walk_is_found(dots: Seq<Dot>, edges: Seq<Edge>, blocks: Seq<BlockInfo>, t: int, p: Seq<usize>, q: Seq<usize>, hops: Seq<int>, energy: int)
    requires
        p.len() > 0,
        q.len() > 0,
        q[0] == p.last(),
        q.last() == t,
        powered_walk(dots, edges, blocks, q, hops, energy),
        (p + q.drop_first()).no_duplicates(),
        forall|k: int| 0 <= k < p.len() ==> #[trigger] p[k] < dots.len(),
    ensures
        powered_search(dots, edges, blocks, t, p, energy, 0),
    decreases hops.len(),
{
    if hops.len() > 0 {
        let j = hops[0];
        let x = q[1];
        let e2 = energy_after(edges[j], energy, literal_repeater_at(blocks, dots[x as int].pos));
        let longer = p.push(x);
        let q2 = q.drop_first();
        assert(p + q.drop_first() =~= longer + q2.drop_first());
        assert(longer =~= (p + q.drop_first()).subrange(0, p.len() as int + 1));
        assert(longer.no_duplicates());
        assert forall|k: int| 0 <= k < longer.len() implies #[trigger] longer[k] < dots.len() by {};
        lemma_walk_is_found(dots, edges, blocks, t, longer, q2, hops.drop_first(), e2);
        lemma_simple_path_fits(longer, dots.len());
        assert(!p.contains(x)) by {
            if p.contains(x) {
                let k = choose|k: int| 0 <= k < p.len() && p[k] == x;
                assert(longer[k] == longer[p.len() as int]);
            }
        };
        if p.last() != t {
            assert(can_step(dots, edges, blocks, p, energy, j));
            assert(powered_search(dots, edges, blocks, t, p, energy, j));
            lemma_search_from_later(dots, edges, blocks, t, p, energy, 0, j);
        }
    }
}

proof fn lemma_found_is_walk(dots: Seq<Dot>, edges: Seq<Edge>, blocks: Seq<BlockInfo>, t: int, p: Seq<usize>, energy: int, j: int)
    requires
        p.len() > 0,
        p.no_duplicates(),
        0 <= j,
        powered_search(dots, edges, blocks, t, p, energy, j),
    ensures
        exists|q: Seq<usize>, hops: Seq<int>| {
            &&& #[trigger] powered_walk(dots, edges, blocks, q, hops, energy)
            &&& q[0] == p.last()
            &&& q.last() == t
            &&& (p + q.drop_first()).no_duplicates()
        },
    decreases dots.len() - p.len(), edges.len() - j,
{
    if p.last() == t {
        let q = seq![p.last()];
        let hops = Seq::<int>::empty();
        assert(p + q.drop_first() =~= p);
        assert(powered_walk(dots, edges, blocks, q, hops, energy));
    } else {
        let e = edges[j];
        let x = e.end;
        let e2 = energy_after(e, energy, literal_repeater_at(blocks, dots[x as int].pos));
        if can_step(dots, edges, blocks, p, energy, j) && powered_search(dots, edges, blocks, t, p.push(x), e2, 0) {
            let longer = p.push(x);
            assert(longer.no_duplicates()) by {
                assert forall|a: int, b: int| 0 <= a < longer.len() && 0 <= b < longer.len() && a != b implies longer[a] != longer[b] by {
                    if a == p.len() as int {
                        assert(!p.contains(x));
                    } else if b == p.len() as int {
                        assert(!p.contains(x));
                    }
                };
            };
            lemma_found_is_walk(dots, edges, blocks, t, longer, e2, 0);
            let (q2, hops2) = choose|q: Seq<usize>, hops: Seq<int>| {
                &&& #[trigger] powered_walk(dots, edges, blocks, q, hops, e2)
                &&& q[0] == longer.last()
                &&& q.last() == t
                &&& (longer + q.drop_first()).no_duplicates()
            };
            let q = seq![p.last()] + q2;
            let hops = seq![j] + hops2;
            assert(q.drop_first() =~= q2);
            assert(hops.drop_first() =~= hops2);
            assert(p + q.drop_first() =~= longer + q2.drop_first());
            assert(q[1] == q2[0]);
            assert(powered_walk(dots, edges, blocks, q, hops, energy));
        } else {
            lemma_found_is_walk(dots, edges, blocks, t, p, energy, j + 1);
        }
    }
}

/// The search of `has_powered_path` is exact: it succeeds precisely when
/// some simple path from `s` to `t` follows edges from start to end and
/// keeps the signal positive all along.
pub proof fn lemma_powered_search_exact(dots: Seq<Dot>, edges: Seq<Edge>, blocks: Seq<BlockInfo>, s: int, t: int)
    requires
        0 <= s < dots.len(),
        dots.len() <= usize::MAX,
    ensures
        has_powered_path(dots, edges, blocks, s, t) <==> powered_path_exists(dots, edges, blocks, s, t),
{
    let p = seq![s as usize];
    if has_powered_path(dots, edges, blocks, s, t) {
        lemma_found_is_walk(dots, edges, blocks, t, p, MAX_REDSTONE_DISTANCE as int, 0);
        let (q, hops) = choose|q: Seq<usize>, hops: Seq<int>| {
            &&& #[trigger] powered_walk(dots, edges, blocks, q, hops, MAX_REDSTONE_DISTANCE as int)
            &&& q[0] == p.last()
            &&& q.last() == t
            &&& (p + q.drop_first()).no_duplicates()
        };
        assert(p + q.drop_first() =~= q);
    }
    if powered_path_exists(dots, edges, blocks, s, t) {
        let (q, hops) = choose|q: Seq<usize>, hops: Seq<int>| {
            &&& #[trigger] powered_walk(dots, edges, blocks, q, hops, MAX_REDSTONE_DISTANCE as int)
            &&& q[0] == s
            &&& q.last() == t
            &&& q.no_duplicates()
        };
        assert(p + q.drop_first() =~= q);
        lemma_walk_is_found(dots, edges, blocks, t, p, q, hops, MAX_REDSTONE_DISTANCE as int);
    }
}

} // verus!
