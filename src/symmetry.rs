//! The shortest distance between two dots does not depend on which of them
//! the walk starts from.

use vstd::prelude::*;
use crate::graph::Edge;
use crate::check::{best_via, dist_rounds, min_opt, relax_round, shortest_distances, via_edge};

verus! {

/// The least of `g(0)`, ..., `g(m - 1)`, `None` standing for "none".
pub open spec fn fold_min(m: int, g: spec_fn(int) -> Option<int>) -> Option<int>
    decreases m,
{
    if m <= 0 {
        None
    } else {
        min_opt(fold_min(m - 1, g), g(m - 1))
    }
}

/// A distance lengthened by `c`.
pub open spec fn add_opt(a: Option<int>, c: int) -> Option<int> {
    match a {
        Some(x) => Some(x + c),
        None => None,
    }
}

/// The end of `e` other than `v`, or -1 when `e` does not touch `v`.
pub open spec fn other_end(e: Edge, v: int) -> int {
    if e.start == v {
        e.end as int
    } else if e.end == v {
        e.start as int
    } else {
        -1
    }
}

/// A walk from `s` to `t` that starts with edge `f` and then crosses at
/// most `k` edges.
pub open spec fn front_term(edges: Seq<Edge>, n: nat, s: int, k: nat, t: int, f: int) -> Option<int> {
    let o = other_end(edges[f], s);
    if 0 <= o < n {
        add_opt(dist_rounds(edges, n, o, k)[t], edges[f].length as int)
    } else {
        None
    }
}

/// The best walk from `s` to `t` that starts with some edge and then
/// crosses at most `k` edges.
pub open spec fn front_best(edges: Seq<Edge>, n: nat, s: int, k: nat, t: int) -> Option<int> {
    fold_min(edges.len() as int, |f: int| front_term(edges, n, s, k, t, f))
}

proof fn lemma_fold_ext(m: int, g1: spec_fn(int) -> Option<int>, g2: spec_fn(int) -> Option<int>)
    requires
        forall|j: int| 0 <= j < m ==> #[trigger] g1(j) == g2(j),
    ensures
        fold_min(m, g1) == fold_min(m, g2),
    decreases m,
{
    if m > 0 {
        lemma_fold_ext(m - 1, g1, g2);
    }
}

proof fn lemma_fold_split(m: int, a: spec_fn(int) -> Option<int>, b: spec_fn(int) -> Option<int>, ab: spec_fn(int) -> Option<int>)
    requires
        forall|j: int| 0 <= j < m ==> #[trigger] ab(j) == min_opt(a(j), b(j)),
    ensures
        fold_min(m, ab) == min_opt(fold_min(m, a), fold_min(m, b)),
    decreases m,
{
    if m > 0 {
        lemma_fold_split(m - 1, a, b, ab);
    }
}

proof fn lemma_fold_shift(m: int, a: spec_fn(int) -> Option<int>, c: int, ac: spec_fn(int) -> Option<int>)
    requires
        forall|j: int| 0 <= j < m ==> #[trigger] ac(j) == add_opt(a(j), c),
    ensures
        fold_min(m, ac) == add_opt(fold_min(m, a), c),
    decreases m,
{
    if m > 0 {
        lemma_fold_shift(m - 1, a, c, ac);
    }
}

proof fn lemma_fold_none(m: int, g: spec_fn(int) -> Option<int>)
    requires
        forall|j: int| 0 <= j < m ==> #[trigger] g(j) is None,
    ensures
        fold_min(m, g) is None,
    decreases m,
{
    if m > 0 {
        lemma_fold_none(m - 1, g);
    }
}

proof fn lemma_fold_swap(m1: int, m2: int, g: spec_fn(int, int) -> Option<int>)
    ensures
        fold_min(m1, |e: int| fold_min(m2, |f: int| g(e, f))) == fold_min(m2, |f: int| fold_min(m1, |e: int| g(e, f))),
    decreases m1,
{
    if m1 > 0 {
        lemma_fold_swap(m1 - 1, m2, g);
        let prev = |f: int| fold_min(m1 - 1, |e: int| g(e, f));
        let row = |f: int| g(m1 - 1, f);
        let whole = |f: int| fold_min(m1, |e: int| g(e, f));
        assert forall|f: int| 0 <= f < m2 implies #[trigger] whole(f) == min_opt(prev(f), row(f)) by {};
        lemma_fold_split(m2, prev, row, whole);
        lemma_fold_ext(m2, |f: int| g(m1 - 1, f), row);
        lemma_fold_ext(m2, |f: int| fold_min(m1 - 1, |e: int| g(e, f)), prev);
        let outer = |e: int| fold_min(m2, |f: int| g(e, f));
        lemma_fold_ext(m1 - 1, outer, |e: int| fold_min(m2, |f: int| g(e, f)));
        lemma_fold_ext(m2, whole, |f: int| fold_min(m1, |e: int| g(e, f)));
    } else {
        lemma_fold_none(m2, |f: int| fold_min(m1, |e: int| g(e, f)));
    }
}

proof fn lemma_best_via_fold(edges: Seq<Edge>, d: Seq<Option<int>>, v: int, m: int)
    ensures
        best_via(edges, d, v, m) == fold_min(m, |j: int| via_edge(edges[j], d, v)),
    decreases m,
{
    if m > 0 {
        lemma_best_via_fold(edges, d, v, m - 1);
    }
}

proof fn lemma_rounds_len(edges: Seq<Edge>, n: nat, s: int, k: nat)
    ensures
        dist_rounds(edges, n, s, k).len() == n,
    decreases k,
{
    if k > 0 {
        lemma_rounds_len(edges, n, s, (k - 1) as nat);
    }
}

proof fn lemma_back_step(edges: Seq<Edge>, n: nat, s: int, k: nat, t: int)
    requires
        0 <= t < n,
    ensures
        dist_rounds(edges, n, s, k + 1)[t] == min_opt(
            dist_rounds(edges, n, s, k)[t],
            fold_min(edges.len() as int, |e: int| via_edge(edges[e], dist_rounds(edges, n, s, k), t)),
        ),
{
    lemma_rounds_len(edges, n, s, k);
    lemma_best_via_fold(edges, dist_rounds(edges, n, s, k), t, edges.len() as int);
    assert(dist_rounds(edges, n, s, k + 1) == relax_round(edges, dist_rounds(edges, n, s, k)));
}

proof fn lemma_front_base(edges: Seq<Edge>, n: nat, s: int, t: int)
    requires
        0 <= s < n,
        0 <= t < n,
    ensures
        dist_rounds(edges, n, s, 1)[t] == min_opt(dist_rounds(edges, n, s, 0)[t], front_best(edges, n, s, 0, t)),
{
    let m = edges.len() as int;
    let d0 = dist_rounds(edges, n, s, 0);
    lemma_back_step(edges, n, s, 0, t);
    assert forall|e: int| 0 <= e < m implies #[trigger] via_edge(edges[e], d0, t) == front_term(edges, n, s, 0, t, e) by {
        let o = other_end(edges[e], s);
        if 0 <= o < n {
            assert(dist_rounds(edges, n, o, 0)[t] == if t == o { Some(0int) } else { None });
        }
    };
    lemma_fold_ext(m, |e: int| via_edge(edges[e], d0, t), |f: int| front_term(edges, n, s, 0, t, f));
}

proof fn lemma_front_step(edges: Seq<Edge>, n: nat, s: int, k: nat, t: int)
    requires
        0 <= s < n,
        0 <= t < n,
        forall|s2: int, t2: int| 0 <= s2 < n && 0 <= t2 < n ==> #[trigger] dist_rounds(edges, n, s2, k + 1)[t2]
            == min_opt(dist_rounds(edges, n, s2, k)[t2], front_best(edges, n, s2, k, t2)),
    ensures
        dist_rounds(edges, n, s, k + 2)[t] == min_opt(dist_rounds(edges, n, s, k + 1)[t], front_best(edges, n, s, k + 1, t)),
{
    let m = edges.len() as int;
    let dk = dist_rounds(edges, n, s, k);
    let a = dist_rounds(edges, n, s, k + 1);
    lemma_rounds_len(edges, n, s, k);
    lemma_rounds_len(edges, n, s, k + 1);
    // Left side: extend walks of at most k + 1 edges at their end.
    lemma_back_step(edges, n, s, k + 1, t);
    lemma_back_step(edges, n, s, k, t);
    let v2 = |e: int| {
        let o = other_end(edges[e], t);
        if 0 <= o < n {
            add_opt(front_best(edges, n, s, k, o), edges[e].length as int)
        } else {
            None
        }
    };
    assert forall|e: int| 0 <= e < m implies #[trigger] via_edge(edges[e], a, t) == min_opt(via_edge(edges[e], dk, t), v2(e)) by {
        let o = other_end(edges[e], t);
        if 0 <= o < n {
            assert(a[o] == min_opt(dk[o], front_best(edges, n, s, k, o)));
        }
    };
    lemma_fold_split(m, |e: int| via_edge(edges[e], dk, t), v2, |e: int| via_edge(edges[e], a, t));
    let g = |e: int, f: int| {
        let o = other_end(edges[e], t);
        if 0 <= o < n {
            add_opt(front_term(edges, n, s, k, o, f), edges[e].length as int)
        } else {
            None
        }
    };
    assert forall|e: int| 0 <= e < m implies #[trigger] v2(e) == fold_min(m, |f: int| g(e, f)) by {
        let o = other_end(edges[e], t);
        if 0 <= o < n {
            lemma_fold_shift(m, |f: int| front_term(edges, n, s, k, o, f), edges[e].length as int, |f: int| g(e, f));
        } else {
            lemma_fold_none(m, |f: int| g(e, f));
        }
    };
    lemma_fold_ext(m, v2, |e: int| fold_min(m, |f: int| g(e, f)));
    // Right side: extend walks of at most k + 1 edges at their start.
    let w = |f: int| {
        let o = other_end(edges[f], s);
        if 0 <= o < n {
            add_opt(fold_min(m, |e: int| via_edge(edges[e], dist_rounds(edges, n, o, k), t)), edges[f].length as int)
        } else {
            None
        }
    };
    assert forall|f: int| 0 <= f < m implies #[trigger] front_term(edges, n, s, k + 1, t, f) == min_opt(front_term(edges, n, s, k, t, f), w(f)) by {
        let o = other_end(edges[f], s);
        if 0 <= o < n {
            lemma_back_step(edges, n, o, k, t);
        }
    };
    lemma_fold_split(m, |f: int| front_term(edges, n, s, k, t, f), w, |f: int| front_term(edges, n, s, k + 1, t, f));
    assert forall|f: int| 0 <= f < m implies #[trigger] w(f) == fold_min(m, |e: int| g(e, f)) by {
        let o = other_end(edges[f], s);
        if 0 <= o < n {
            let dko = dist_rounds(edges, n, o, k);
            lemma_rounds_len(edges, n, o, k);
            assert forall|e: int| 0 <= e < m implies #[trigger] g(e, f) == add_opt(via_edge(edges[e], dko, t), edges[f].length as int) by {};
            lemma_fold_shift(m, |e: int| via_edge(edges[e], dko, t), edges[f].length as int, |e: int| g(e, f));
        } else {
            assert forall|e: int| 0 <= e < m implies #[trigger] g(e, f) is None by {};
            lemma_fold_none(m, |e: int| g(e, f));
        }
    };
    lemma_fold_ext(m, w, |f: int| fold_min(m, |e: int| g(e, f)));
    lemma_fold_swap(m, m, g);
    assert(a[t] == min_opt(dk[t], front_best(edges, n, s, k, t)));
}

proof fn lemma_front_form(edges: Seq<Edge>, n: nat, k: nat)
    ensures
        forall|s: int, t: int| 0 <= s < n && 0 <= t < n ==> #[trigger] dist_rounds(edges, n, s, k + 1)[t]
            == min_opt(dist_rounds(edges, n, s, k)[t], front_best(edges, n, s, k, t)),
    decreases k,
{
    if k == 0 {
        assert forall|s: int, t: int| 0 <= s < n && 0 <= t < n implies #[trigger] dist_rounds(edges, n, s, 0 + 1)[t]
            == min_opt(dist_rounds(edges, n, s, 0)[t], front_best(edges, n, s, 0, t)) by {
            lemma_front_base(edges, n, s, t);
        };
    } else {
        let j = (k - 1) as nat;
        lemma_front_form(edges, n, j);
        assert forall|s: int, t: int| 0 <= s < n && 0 <= t < n implies #[trigger] dist_rounds(edges, n, s, k + 1)[t]
            == min_opt(dist_rounds(edges, n, s, k)[t], front_best(edges, n, s, k, t)) by {
            lemma_front_step(edges, n, s, j, t);
        };
    }
}

proof fn lemma_rounds_symmetric(edges: Seq<Edge>, n: nat, k: nat)
    ensures
        forall|s: int, t: int| 0 <= s < n && 0 <= t < n ==> #[trigger] dist_rounds(edges, n, s, k)[t] == dist_rounds(edges, n, t, k)[s],
    decreases k,
{
    if k > 0 {
        let j = (k - 1) as nat;
        lemma_rounds_symmetric(edges, n, j);
        lemma_front_form(edges, n, j);
        let m = edges.len() as int;
        assert forall|s: int, t: int| 0 <= s < n && 0 <= t < n implies #[trigger] dist_rounds(edges, n, s, k)[t] == dist_rounds(edges, n, t, k)[s] by {
            lemma_back_step(edges, n, s, j, t);
            let ds = dist_rounds(edges, n, s, j);
            lemma_rounds_len(edges, n, s, j);
            assert forall|e: int| 0 <= e < m implies #[trigger] via_edge(edges[e], ds, t) == front_term(edges, n, t, j, s, e) by {
                let o = other_end(edges[e], t);
                if 0 <= o < n {
                    assert(ds[o] == dist_rounds(edges, n, o, j)[s]);
                }
            };
            lemma_fold_ext(m, |e: int| via_edge(edges[e], ds, t), |f: int| front_term(edges, n, t, j, s, f));
            assert(dist_rounds(edges, n, t, j + 1)[s] == min_opt(dist_rounds(edges, n, t, j)[s], front_best(edges, n, t, j, s)));
        };
    }
}

/// Shortest distance ignores direction: from `s` to `t` it equals that
/// from `t` to `s`.
pub proof fn lemma_distance_symmetric(edges: Seq<Edge>, n: nat, s: int, t: int)
    requires
        0 <= s < n,
        0 <= t < n,
    ensures
        shortest_distances(edges, n, s)[t] == shortest_distances(edges, n, t)[s],
{
    lemma_rounds_symmetric(edges, n, if n == 0 { 0 } else { (n - 1) as nat });
}

/// The distances from `a` when a single edge of length `len` joins `a`
/// and `b` and nothing else is reached.
pub open spec fn single_edge_distances(n: nat, a: int, b: int, len: int) -> Seq<Option<int>> {
    Seq::new(n, |v: int| if v == a { Some(0int) } else if v == b { Some(len) } else { None })
}

/// Edge `j0` joins `a` and `b`, and no other edge touches either of them.
pub open spec fn only_edge_between(edges: Seq<Edge>, j0: int, a: int, b: int) -> bool {
    &&& 0 <= j0 < edges.len()
    &&& (edges[j0].start == a && edges[j0].end == b) || (edges[j0].start == b && edges[j0].end == a)
    &&& forall|j: int| 0 <= j < edges.len() && j != j0 ==> {
        &&& (#[trigger] edges[j]).start != a && edges[j].start != b
        &&& edges[j].end != a && edges[j].end != b
    }
}

proof fn lemma_fold_single(m: int, g: spec_fn(int) -> Option<int>, j0: int)
    requires
        forall|j: int| 0 <= j < m && j != j0 ==> #[trigger] g(j) is None,
    ensures
        fold_min(m, g) == if 0 <= j0 < m { g(j0) } else { None },
    decreases m,
{
    if m > 0 {
        lemma_fold_single(m - 1, g, j0);
    }
}

proof fn lemma_isolated_edge_rounds(edges: Seq<Edge>, j0: int, n: nat, a: int, b: int, k: nat)
    requires
        k >= 1,
        a != b,
        0 <= a < n,
        0 <= b < n,
        only_edge_between(edges, j0, a, b),
    ensures
        dist_rounds(edges, n, a, k) == single_edge_distances(n, a, b, edges[j0].length as int),
    decreases k,
{
    let prev = dist_rounds(edges, n, a, (k - 1) as nat);
    if k > 1 {
        lemma_isolated_edge_rounds(edges, j0, n, a, b, (k - 1) as nat);
    }
    lemma_rounds_len(edges, n, a, (k - 1) as nat);
    let m = edges.len() as int;
    assert forall|v: int| 0 <= v < n implies #[trigger] relax_round(edges, prev)[v] == single_edge_distances(n, a, b, edges[j0].length as int)[v] by {
        let g = |j: int| via_edge(edges[j], prev, v);
        assert forall|j: int| 0 <= j < m && j != j0 implies #[trigger] g(j) is None by {
            let e = edges[j];
            assert(e.start != a && e.start != b && e.end != a && e.end != b);
        };
        lemma_fold_single(m, g, j0);
        lemma_best_via_fold(edges, prev, v, m);
        lemma_fold_ext(m, g, |j: int| via_edge(edges[j], prev, v));
    };
    assert(relax_round(edges, prev) =~= single_edge_distances(n, a, b, edges[j0].length as int));
}

/// When edge `j0` joins the distinct dots `a` and `b` and no other edge
/// touches either, the shortest distance between them, either way, is that
/// edge's length.
pub proof fn lemma_single_edge_distance(edges: Seq<Edge>, j0: int, n: nat, a: int, b: int)
    requires
        a != b,
        0 <= a < n,
        0 <= b < n,
        only_edge_between(edges, j0, a, b),
    ensures
        shortest_distances(edges, n, a)[b] == Some(edges[j0].length as int),
        shortest_distances(edges, n, b)[a] == Some(edges[j0].length as int),
{
    lemma_isolated_edge_rounds(edges, j0, n, a, b, (n - 1) as nat);
    lemma_isolated_edge_rounds(edges, j0, n, b, a, (n - 1) as nat);
}

} // verus!
