//! Kruskal's minimum-spanning-forest algorithm over a weighted undirected
//! graph, with a disjoint-set union (union by size, path compression).
//!
//! Edges are examined in ascending order of cost (a stable sort breaks
//! ties by input order); an edge is selected exactly when its endpoints
//! are not yet connected by the edges selected before it. On a connected
//! graph the selection is a minimum spanning tree; on a disconnected one,
//! a minimum spanning forest.

use vstd::prelude::*;
use vstd::math::abs;

verus! {

/// An undirected, weighted edge. Equality is by all three fields.
#[derive(Clone, Copy, Debug, PartialEq, Eq, Structural)]
pub struct Edge {
    pub source: i64,
    pub destination: i64,
    pub cost: i64,
}

impl Edge {
    /// Builds an edge from its endpoints and its cost.
    pub fn new(source: i64, destination: i64, cost: i64) -> (e: Edge)
        ensures
            e == (Edge { source, destination, cost }),
    {
        Edge { source, destination, cost }
    }
}

/// The sum of the costs of a sequence of edges.
pub open spec fn cost_sum(s: Seq<Edge>) -> int
    decreases s.len(),
{
    if s.len() == 0 {
        0
    } else {
        s[0].cost + cost_sum(s.drop_first())
    }
}

/// The sum of the absolute costs; it bounds every partial cost sum.
pub open spec fn abs_cost_sum(s: Seq<Edge>) -> int
    decreases s.len(),
{
    if s.len() == 0 {
        0
    } else {
        abs(s[0].cost as int) + abs_cost_sum(s.drop_first())
    }
}

/// Edges in ascending order of cost.
pub open spec fn sorted_by_cost(s: Seq<Edge>) -> bool {
    forall|i: int, j: int| 0 <= i < j < s.len() ==> s[i].cost <= s[j].cost
}

/// Where a stable sort by cost places `e` relative to `s`: after every
/// element whose cost is no greater than `e`'s.
pub open spec fn insert_sorted(e: Edge, s: Seq<Edge>) -> Seq<Edge>
    decreases s.len(),
{
    if s.len() == 0 {
        seq![e]
    } else if s.last().cost > e.cost {
        insert_sorted(e, s.drop_last()).push(s.last())
    } else {
        s.push(e)
    }
}

/// The input sorted by ascending cost; edges of equal cost keep their
/// input order.
pub open spec fn stable_sorted(es: Seq<Edge>) -> Seq<Edge>
    decreases es.len(),
{
    if es.len() == 0 {
        Seq::empty()
    } else {
        insert_sorted(es.last(), stable_sorted(es.drop_last()))
    }
}

/// The greedy selection over `rest`: keep an edge exactly when its
/// endpoints are not connected by the edges kept before it, stopping once
/// `stop` edges are kept.
pub open spec fn greedy_select(rest: Seq<Edge>, picked: Seq<Edge>, stop: int) -> Seq<Edge>
    decreases rest.len(),
{
    if rest.len() == 0 || picked.len() >= stop {
        picked
    } else if connected(picked, rest[0].source as int, rest[0].destination as int) {
        greedy_select(rest.drop_first(), picked, stop)
    } else {
        greedy_select(rest.drop_first(), picked.push(rest[0]), stop)
    }
}

/// The exact edge selection of Kruskal's algorithm: the stable-sorted
/// input filtered greedily, stopping after `n - 1` selections.
pub open spec fn kruskal_spec(es: Seq<Edge>, n: int) -> Seq<Edge> {
    greedy_select(stable_sorted(es), Seq::empty(), n - 1)
}

proof fn lemma_insert_sorted_position(e: Edge, s: Seq<Edge>, j: int)
    requires
        0 <= j <= s.len(),
        forall|l: int| j <= l < s.len() ==> s[l].cost > e.cost,
        j > 0 ==> s[j - 1].cost <= e.cost,
    ensures
        insert_sorted(e, s) == s.take(j) + seq![e] + s.skip(j),
    decreases s.len(),
{
    if s.len() == 0 {
        assert(insert_sorted(e, s) =~= s.take(j) + seq![e] + s.skip(j));
    } else if j == s.len() {
        assert(s[j - 1] == s.last());
        assert(insert_sorted(e, s) == s.push(e));
        assert(s.push(e) =~= s.take(j) + seq![e] + s.skip(j));
    } else {
        assert(s[s.len() - 1].cost > e.cost);
        let dl = s.drop_last();
        assert(forall|l: int| j <= l < dl.len() ==> dl[l] == s[l]);
        assert(j > 0 ==> dl[j - 1] == s[j - 1]);
        lemma_insert_sorted_position(e, dl, j);
        assert(insert_sorted(e, s) == (dl.take(j) + seq![e] + dl.skip(j)).push(s.last()));
        assert((dl.take(j) + seq![e] + dl.skip(j)).push(s.last()) =~= s.take(j) + seq![e] + s.skip(
            j,
        ));
    }
}

proof fn lemma_cost_sum_concat(a: Seq<Edge>, b: Seq<Edge>)
    ensures
        cost_sum(a + b) == cost_sum(a) + cost_sum(b),
        abs_cost_sum(a + b) == abs_cost_sum(a) + abs_cost_sum(b),
    decreases a.len(),
{
    if a.len() == 0 {
        assert(a + b =~= b);
    } else {
        assert((a + b)[0] == a[0]);
        assert((a + b).drop_first() =~= a.drop_first() + b);
        lemma_cost_sum_concat(a.drop_first(), b);
    }
}

proof fn lemma_cost_sum_single(e: Edge)
    ensures
        cost_sum(seq![e]) == e.cost,
        abs_cost_sum(seq![e]) == abs(e.cost as int),
{
    assert(seq![e].len() == 1);
    assert(seq![e][0] == e);
    assert(seq![e].drop_first() =~= Seq::<Edge>::empty());
    assert(cost_sum(seq![e].drop_first()) == 0);
    assert(abs_cost_sum(seq![e].drop_first()) == 0);
}

proof fn lemma_abs_cost_sum_bounds(s: Seq<Edge>)
    ensures
        0 <= abs_cost_sum(s),
        -abs_cost_sum(s) <= cost_sum(s) <= abs_cost_sum(s),
    decreases s.len(),
{
    if s.len() > 0 {
        lemma_abs_cost_sum_bounds(s.drop_first());
    }
}

proof fn lemma_cost_sum_push(s: Seq<Edge>, e: Edge)
    ensures
        cost_sum(s.push(e)) == cost_sum(s) + e.cost,
        abs_cost_sum(s.push(e)) == abs_cost_sum(s) + abs(e.cost as int),
{
    assert(s.push(e) =~= s + seq![e]);
    lemma_cost_sum_concat(s, seq![e]);
    lemma_cost_sum_single(e);
}

proof fn lemma_abs_cost_sum_take(s: Seq<Edge>, i: int)
    requires
        0 <= i <= s.len(),
    ensures
        abs_cost_sum(s.take(i)) <= abs_cost_sum(s),
{
    assert(s =~= s.take(i) + s.skip(i));
    lemma_cost_sum_concat(s.take(i), s.skip(i));
    lemma_abs_cost_sum_bounds(s.skip(i));
}

proof fn lemma_abs_sum_insert(s: Seq<Edge>, j: int, e: Edge)
    requires
        0 <= j <= s.len(),
    ensures
        abs_cost_sum(s.insert(j, e)) == abs_cost_sum(s) + abs(e.cost as int),
{
    assert(s =~= s.take(j) + s.skip(j));
    assert(s.insert(j, e) =~= s.take(j) + (seq![e] + s.skip(j)));
    lemma_cost_sum_concat(s.take(j), s.skip(j));
    lemma_cost_sum_concat(seq![e], s.skip(j));
    lemma_cost_sum_concat(s.take(j), seq![e] + s.skip(j));
    lemma_cost_sum_single(e);
}

proof fn lemma_abs_sum_remove(s: Seq<Edge>, j: int)
    requires
        0 <= j < s.len(),
    ensures
        abs_cost_sum(s.remove(j)) == abs_cost_sum(s) - abs(s[j].cost as int),
{
    assert(s =~= s.take(j) + (seq![s[j]] + s.skip(j + 1)));
    assert(s.remove(j) =~= s.take(j) + s.skip(j + 1));
    lemma_cost_sum_concat(s.take(j), seq![s[j]] + s.skip(j + 1));
    lemma_cost_sum_concat(seq![s[j]], s.skip(j + 1));
    lemma_cost_sum_concat(s.take(j), s.skip(j + 1));
    lemma_cost_sum_single(s[j]);
}

/// Sorts edges by ascending cost with a stable insertion sort: edges of
/// equal cost keep their input order.
#[verifier::loop_isolation(false)]
fn sort_edges(edges: Vec<Edge>) -> (r: Vec<Edge>)
    ensures
        sorted_by_cost(r@),
        r@ == stable_sorted(edges@),
        r@.to_multiset() == edges@.to_multiset(),
        r@.len() == edges@.len(),
        abs_cost_sum(r@) == abs_cost_sum(edges@),
{
    let mut v = edges;
    if v.len() <= 1 {
        proof {
            if v@.len() == 0 {
                assert(stable_sorted(edges@) == Seq::<Edge>::empty());
                assert(v@ =~= Seq::<Edge>::empty());
            } else {
                assert(edges@.drop_last() =~= Seq::<Edge>::empty());
                assert(stable_sorted(Seq::<Edge>::empty()) == Seq::<Edge>::empty());
                assert(stable_sorted(edges@) == insert_sorted(edges@.last(), Seq::<Edge>::empty()));
                assert(insert_sorted(edges@.last(), Seq::<Edge>::empty()) =~= seq![edges@.last()]);
                assert(v@ =~= seq![edges@.last()]);
            }
        }
        return v;
    }
    proof {
        assert(edges@.take(1).drop_last() =~= Seq::<Edge>::empty());
        assert(edges@.take(1).last() == edges@[0]);
        assert(stable_sorted(Seq::<Edge>::empty()) == Seq::<Edge>::empty());
        assert(stable_sorted(edges@.take(1)) == insert_sorted(edges@[0], Seq::<Edge>::empty()));
        assert(insert_sorted(edges@[0], Seq::<Edge>::empty()) =~= seq![edges@[0]]);
        assert(v@.take(1) =~= seq![edges@[0]]);
        assert(v@.skip(1) =~= edges@.skip(1));
    }
    let mut i: usize = 1;
    while i < v.len()
        invariant
            1 <= i <= v@.len(),
            v@.len() == edges@.len(),
            sorted_by_cost(v@.take(i as int)),
            v@.take(i as int) == stable_sorted(edges@.take(i as int)),
            v@.skip(i as int) == edges@.skip(i as int),
            v@.to_multiset() == edges@.to_multiset(),
            abs_cost_sum(v@) == abs_cost_sum(edges@),
        decreases v@.len() - i,
    {
        let ghost v0 = v@;
        let e = v.remove(i);
        proof {
            v0.to_multiset_ensures();
            lemma_abs_sum_remove(v0, i as int);
        }
        let mut j: usize = i;
        while j > 0 && v[j - 1].cost > e.cost
            invariant
                j <= i,
                forall|l: int| j <= l < i ==> v@[l].cost > e.cost,
            decreases j,
        {
            j = j - 1;
        }
        let ghost vr = v@;
        v.insert(j, e);
        proof {
            vstd::seq_lib::to_multiset_insert(vr, j as int, e);
            lemma_abs_sum_insert(vr, j as int, e);
            assert(v0.contains(e)) by {
                assert(v0[i as int] == e);
            }
            assert(vr.to_multiset().insert(e) =~= v0.to_multiset()) by {
                broadcast use vstd::multiset::group_multiset_axioms;
            }
            // index bookkeeping for the inserted element
            assert(vr =~= v0.remove(i as int));
            assert forall|l: int| 0 <= l < j implies v@[l] == v0[l] by {
                assert(v@[l] == vr[l]);
            }
            assert(v@[j as int] == e);
            assert forall|l: int| j < l <= i implies v@[l] == v0[l - 1] by {
                assert(v@[l] == vr[l - 1]);
            }
            assert forall|l1: int, l2: int| 0 <= l1 < l2 < i + 1 implies v@[l1].cost
                <= v@[l2].cost by {
                if l2 < j {
                    assert(v0.take(i as int)[l1] == v0[l1]);
                    assert(v0.take(i as int)[l2] == v0[l2]);
                } else if l1 < j && l2 == j {
                    assert(v0[j - 1].cost <= e.cost);
                    assert(v0.take(i as int)[l1] == v0[l1]);
                    assert(v0.take(i as int)[j - 1] == v0[j - 1]);
                } else if l1 < j && l2 > j {
                    assert(v0.take(i as int)[l1] == v0[l1]);
                    assert(v0.take(i as int)[l2 - 1] == v0[l2 - 1]);
                } else if l1 == j {
                    assert(vr[l2 - 1] == v0[l2 - 1]);
                    assert(v0[l2 - 1].cost > e.cost);
                } else {
                    assert(v0.take(i as int)[l1 - 1] == v0[l1 - 1]);
                    assert(v0.take(i as int)[l2 - 1] == v0[l2 - 1]);
                }
            }
            assert(sorted_by_cost(v@.take(i + 1)));
            // the prefix is exactly the stable sort of the processed edges
            assert(e == edges@[i as int]) by {
                assert(v0.skip(i as int)[0] == edges@.skip(i as int)[0]);
                assert(v0.skip(i as int)[0] == v0[i as int]);
                assert(edges@.skip(i as int)[0] == edges@[i as int]);
            }
            let s0 = v0.take(i as int);
            assert(forall|l: int| j <= l < s0.len() ==> #[trigger] s0[l].cost > e.cost) by {
                assert(forall|l: int| j <= l < i ==> vr[l] == v0[l]);
            }
            assert(j > 0 ==> s0[j - 1].cost <= e.cost) by {
                if j > 0 {
                    assert(vr[j - 1] == v0[j - 1]);
                }
            }
            lemma_insert_sorted_position(e, s0, j as int);
            assert forall|l: int| 0 <= l < i + 1 implies v@[l] == (s0.take(j as int) + seq![e]
                + s0.skip(j as int))[l] by {
                if l < j {
                    assert(v@[l] == v0[l]);
                    assert(s0.take(j as int)[l] == v0[l]);
                } else if l == j {
                } else {
                    assert(v@[l] == v0[l - 1]);
                    assert(s0.skip(j as int)[l - j - 1] == v0[l - 1]);
                }
            }
            assert(v@.take(i + 1) =~= s0.take(j as int) + seq![e] + s0.skip(j as int));
            assert(edges@.take(i + 1).drop_last() =~= edges@.take(i as int));
            assert(edges@.take(i + 1).last() == edges@[i as int]);
            assert(stable_sorted(edges@.take(i + 1)) == insert_sorted(
                edges@[i as int],
                stable_sorted(edges@.take(i as int)),
            ));
            assert(v@.take(i + 1) == stable_sorted(edges@.take(i + 1)));
            // the unprocessed tail is untouched
            assert forall|l: int| i + 1 <= l < v@.len() implies v@[l] == edges@[l] by {
                assert(v@[l] == vr[l - 1]);
                assert(vr[l - 1] == v0[l]);
                assert(v0.skip(i as int)[l - i] == edges@.skip(i as int)[l - i]);
                assert(v0.skip(i as int)[l - i] == v0[l]);
                assert(edges@.skip(i as int)[l - i] == edges@[l]);
            }
            assert(v@.skip(i + 1) =~= edges@.skip(i + 1));
        }
        i = i + 1;
    }
    proof {
        assert(v@.take(v@.len() as int) =~= v@);
        assert(edges@.take(edges@.len() as int) =~= edges@);
    }
    v
}

/// Edge `e` joins vertices `a` and `b`, in either direction.
pub open spec fn links(e: Edge, a: int, b: int) -> bool {
    (e.source as int == a && e.destination as int == b) || (e.source as int == b
        && e.destination as int == a)
}

/// Step `t` of the walk `p` crosses some edge of `es`.
pub open spec fn step_ok(es: Seq<Edge>, p: Seq<int>, t: int) -> bool {
    exists|j: int| 0 <= j < es.len() && links(#[trigger] es[j], p[t], p[t + 1])
}

/// `p` walks from `a` to `b` over the edges of `es`.
pub open spec fn is_path(es: Seq<Edge>, p: Seq<int>, a: int, b: int) -> bool {
    &&& p.len() >= 1
    &&& p[0] == a
    &&& p[p.len() - 1] == b
    &&& (forall|t: int| 0 <= t < p.len() - 1 ==> #[trigger] step_ok(es, p, t))
}

/// Vertices `a` and `b` are joined by some walk over `es`.
pub open spec fn connected(es: Seq<Edge>, a: int, b: int) -> bool {
    exists|p: Seq<int>| is_path(es, p, a, b)
}

proof fn lemma_conn_refl(es: Seq<Edge>, a: int)
    ensures
        connected(es, a, a),
{
    assert(is_path(es, seq![a], a, a));
}

proof fn lemma_conn_edge(es: Seq<Edge>, j: int, a: int, b: int)
    requires
        0 <= j < es.len(),
        links(es[j], a, b),
    ensures
        connected(es, a, b),
{
    let p = seq![a, b];
    assert(links(es[j], p[0], p[0int + 1]));
    assert(step_ok(es, p, 0));
    assert forall|t: int| 0 <= t < p.len() - 1 implies #[trigger] step_ok(es, p, t) by {
        assert(t == 0);
    }
    assert(is_path(es, p, a, b));
}

proof fn lemma_conn_trans(es: Seq<Edge>, a: int, b: int, c: int)
    requires
        connected(es, a, b),
        connected(es, b, c),
    ensures
        connected(es, a, c),
{
    let p1 = choose|p: Seq<int>| is_path(es, p, a, b);
    let p2 = choose|p: Seq<int>| is_path(es, p, b, c);
    if p2.len() == 1 {
        assert(is_path(es, p1, a, c));
    } else {
        let q = p1 + p2.skip(1);
        assert(q.len() == p1.len() + p2.len() - 1);
        assert(q[0] == p1[0]);
        assert(q[q.len() - 1] == p2.skip(1)[p2.len() - 2]);
        assert(p2.skip(1)[p2.len() - 2] == p2[p2.len() - 1]);
        assert forall|t: int| 0 <= t < q.len() - 1 implies #[trigger] step_ok(es, q, t) by {
            if t < p1.len() - 1 {
                assert(q[t] == p1[t]);
                assert(q[t + 1] == p1[t + 1]);
                assert(step_ok(es, p1, t));
                let j = choose|j: int|
                    0 <= j < es.len() && links(#[trigger] es[j], p1[t], p1[t + 1]);
                assert(links(es[j], q[t], q[t + 1]));
            } else if t == p1.len() - 1 {
                assert(q[t] == p1[p1.len() - 1]);
                assert(q[t + 1] == p2.skip(1)[0]);
                assert(p2.skip(1)[0] == p2[1]);
                assert(step_ok(es, p2, 0));
                let j = choose|j: int| 0 <= j < es.len() && links(#[trigger] es[j], p2[0], p2[1]);
                assert(links(es[j], q[t], q[t + 1]));
            } else {
                let s = t - p1.len() + 1;
                assert(q[t] == p2.skip(1)[t - p1.len()]);
                assert(p2.skip(1)[t - p1.len()] == p2[s]);
                assert(q[t + 1] == p2.skip(1)[t + 1 - p1.len()]);
                assert(p2.skip(1)[t + 1 - p1.len()] == p2[s + 1]);
                assert(step_ok(es, p2, s));
                let j = choose|j: int| 0 <= j < es.len() && links(#[trigger] es[j], p2[s], p2[s + 1]);
                assert(links(es[j], q[t], q[t + 1]));
            }
        }
        assert(is_path(es, q, a, c));
    }
}

proof fn lemma_conn_sym(es: Seq<Edge>, a: int, b: int)
    requires
        connected(es, a, b),
    ensures
        connected(es, b, a),
{
    let p = choose|p: Seq<int>| is_path(es, p, a, b);
    let m = p.len() as int;
    let q = Seq::new(p.len(), |i: int| p[m - 1 - i]);
    assert(q[0] == p[m - 1]);
    assert(q[q.len() - 1] == p[0]);
    assert forall|t: int| 0 <= t < q.len() - 1 implies #[trigger] step_ok(es, q, t) by {
        let s = m - 2 - t;
        assert(q[t] == p[s + 1]);
        assert(q[t + 1] == p[s]);
        assert(step_ok(es, p, s));
        let j = choose|j: int| 0 <= j < es.len() && links(#[trigger] es[j], p[s], p[s + 1]);
        assert(links(es[j], q[t], q[t + 1]));
    }
    assert(is_path(es, q, b, a));
}

proof fn lemma_conn_lift(es1: Seq<Edge>, es2: Seq<Edge>, a: int, b: int)
    requires
        connected(es1, a, b),
        forall|k: int| 0 <= k < es1.len() ==> es2.contains(#[trigger] es1[k]),
    ensures
        connected(es2, a, b),
{
    let p = choose|p: Seq<int>| is_path(es1, p, a, b);
    assert forall|t: int| 0 <= t < p.len() - 1 implies #[trigger] step_ok(es2, p, t) by {
        assert(step_ok(es1, p, t));
        let j = choose|j: int| 0 <= j < es1.len() && links(#[trigger] es1[j], p[t], p[t + 1]);
        assert(es2.contains(es1[j]));
        let j2 = choose|j2: int| 0 <= j2 < es2.len() && es2[j2] == es1[j];
        assert(links(es2[j2], p[t], p[t + 1]));
    }
    assert(is_path(es2, p, a, b));
}

proof fn lemma_conn_empty(es: Seq<Edge>, a: int, b: int)
    requires
        connected(es, a, b),
        es.len() == 0,
    ensures
        a == b,
{
    let p = choose|p: Seq<int>| is_path(es, p, a, b);
    if p.len() >= 2 {
        assert(step_ok(es, p, 0));
        let j = choose|j: int| 0 <= j < es.len() && links(#[trigger] es[j], p[0], p[1]);
        assert(false);
    }
}

proof fn lemma_path_add_edge(es: Seq<Edge>, e: Edge, p: Seq<int>, a: int, b: int)
    requires
        is_path(es.push(e), p, a, b),
    ensures
        connected(es, a, b) || (connected(es, a, e.source as int) && connected(
            es,
            e.destination as int,
            b,
        )) || (connected(es, a, e.destination as int) && connected(es, e.source as int, b)),
    decreases p.len(),
{
    let u = e.source as int;
    let v = e.destination as int;
    if p.len() == 1 {
        lemma_conn_refl(es, a);
    } else {
        let m = p.len() as int;
        let x = p[m - 2];
        let q = p.take(m - 1);
        assert(q[0] == p[0]);
        assert(q[q.len() - 1] == x);
        assert forall|t: int| 0 <= t < q.len() - 1 implies #[trigger] step_ok(es.push(e), q, t) by {
            assert(q[t] == p[t]);
            assert(q[t + 1] == p[t + 1]);
            assert(step_ok(es.push(e), p, t));
            let j = choose|j: int|
                0 <= j < es.push(e).len() && links(#[trigger] es.push(e)[j], p[t], p[t + 1]);
            assert(links(es.push(e)[j], q[t], q[t + 1]));
        }
        assert(is_path(es.push(e), q, a, x));
        lemma_path_add_edge(es, e, q, a, x);
        assert(step_ok(es.push(e), p, m - 2));
        let j = choose|j: int|
            0 <= j < es.push(e).len() && links(#[trigger] es.push(e)[j], p[m - 2], p[m - 1]);
        if j < es.len() {
            assert(es.push(e)[j] == es[j]);
            lemma_conn_edge(es, j, x, b);
            if connected(es, a, x) {
                lemma_conn_trans(es, a, x, b);
            } else if connected(es, a, u) && connected(es, v, x) {
                lemma_conn_trans(es, v, x, b);
            } else {
                lemma_conn_trans(es, u, x, b);
            }
        } else {
            assert(es.push(e)[j] == e);
            assert(links(e, x, b));
            if x == u && b == v {
                lemma_conn_refl(es, v);
                if connected(es, a, x) {
                } else if connected(es, a, u) && connected(es, v, x) {
                } else {
                    lemma_conn_trans(es, a, v, b);
                }
            } else {
                assert(x == v && b == u);
                lemma_conn_refl(es, u);
                if connected(es, a, x) {
                } else if connected(es, a, u) && connected(es, v, x) {
                    lemma_conn_trans(es, a, u, b);
                } else {
                }
            }
        }
    }
}

proof fn lemma_conn_add_edge(es: Seq<Edge>, e: Edge, a: int, b: int)
    ensures
        connected(es.push(e), a, b) <==> (connected(es, a, b) || (connected(es, a, e.source as int)
            && connected(es, e.destination as int, b)) || (connected(es, a, e.destination as int)
            && connected(es, e.source as int, b))),
{
    let u = e.source as int;
    let v = e.destination as int;
    if connected(es.push(e), a, b) {
        let p = choose|p: Seq<int>| is_path(es.push(e), p, a, b);
        lemma_path_add_edge(es, e, p, a, b);
    }
    assert(forall|k: int| 0 <= k < es.len() ==> es.push(e).contains(#[trigger] es[k])) by {
        assert forall|k: int| 0 <= k < es.len() implies es.push(e).contains(#[trigger] es[k]) by {
            assert(es.push(e)[k] == es[k]);
        }
    }
    if connected(es, a, b) {
        lemma_conn_lift(es, es.push(e), a, b);
    }
    assert(es.push(e)[es.len() as int] == e);
    if connected(es, a, u) && connected(es, v, b) {
        lemma_conn_lift(es, es.push(e), a, u);
        lemma_conn_lift(es, es.push(e), v, b);
        lemma_conn_edge(es.push(e), es.len() as int, u, v);
        lemma_conn_trans(es.push(e), a, u, v);
        lemma_conn_trans(es.push(e), a, v, b);
    }
    if connected(es, a, v) && connected(es, u, b) {
        lemma_conn_lift(es, es.push(e), a, v);
        lemma_conn_lift(es, es.push(e), u, b);
        lemma_conn_edge(es.push(e), es.len() as int, v, u);
        lemma_conn_trans(es.push(e), a, v, u);
        lemma_conn_trans(es.push(e), a, u, b);
    }
}

/// One vertex of the disjoint-set union: a parent pointer (by index) and
/// the size of the subtree below it (meaningful only at roots).
struct DSUNode {
    parent: i64,
    subtree_size: i64,
}

/// A disjoint-set union over the vertices `0..n`. The ghost `roots`
/// sequence labels each vertex with the canonical representative of its
/// set: two vertices are in one set exactly when their labels agree. The
/// ghost `depths` sequence increases strictly from a vertex to its parent,
/// which bounds every parent chain.
struct DisjointSets {
    nodes: Vec<DSUNode>,
    roots: Ghost<Seq<int>>,
    depths: Ghost<Seq<int>>,
}

/// The vertices labelled `r`.
spec fn class_of(d: DisjointSets, r: int) -> Set<int> {
    Set::new(|i: int| 0 <= i < d.nodes@.len() && d.roots@[i] == r)
}

/// Vertices `i` and `j` belong to the same set.
spec fn same_set(d: DisjointSets, i: int, j: int) -> bool {
    d.roots@[i] == d.roots@[j]
}

spec fn dsu_wf(d: DisjointSets) -> bool {
    let n = d.nodes@.len() as int;
    &&& n <= i64::MAX
    &&& d.roots@.len() == n
    &&& d.depths@.len() == n
    &&& (forall|i: int| 0 <= i < n ==> 0 <= (#[trigger] d.nodes@[i]).parent < n)
    &&& (forall|i: int| 0 <= i < n ==> 0 <= #[trigger] d.roots@[i] < n)
    &&& (forall|i: int|
        0 <= i < n ==> ((#[trigger] d.nodes@[i]).parent == i <==> d.roots@[i] == i))
    &&& (forall|i: int|
        0 <= i < n ==> d.roots@[(#[trigger] d.nodes@[i]).parent as int] == d.roots@[i])
    &&& (forall|i: int| 0 <= i < n ==> #[trigger] d.roots@[d.roots@[i]] == d.roots@[i])
    &&& (forall|i: int| 0 <= i < n ==> 0 <= #[trigger] d.depths@[i] < n)
    &&& (forall|i: int|
        0 <= i < n && (#[trigger] d.nodes@[i]).parent != i ==> d.depths@[d.nodes@[i].parent
            as int] > d.depths@[i])
    &&& (forall|r: int|
        0 <= r < n && #[trigger] d.roots@[r] == r ==> 1 <= d.nodes@[r].subtree_size <= class_of(
            d,
            r,
        ).len() && d.depths@[r] < class_of(d, r).len())
}

/// The canonical representatives: one vertex per set.
spec fn rep_set(d: DisjointSets) -> Set<int> {
    Set::new(|i: int| 0 <= i < d.nodes@.len() && d.roots@[i] == i)
}

/// How many sets the partition currently has.
spec fn num_sets(d: DisjointSets) -> int {
    rep_set(d).len() as int
}

proof fn lemma_rep_set_finite(d: DisjointSets)
    ensures
        rep_set(d).finite(),
        rep_set(d).len() <= d.nodes@.len(),
{
    let n = d.nodes@.len() as int;
    vstd::set_lib::lemma_int_range(0, n);
    assert(rep_set(d).subset_of(vstd::set_lib::set_int_range(0, n)));
    vstd::set_lib::lemma_len_subset(rep_set(d), vstd::set_lib::set_int_range(0, n));
}

/// Walking a path whose every edge joins vertices of one set stays in
/// that set.
proof fn lemma_path_same_set(d: DisjointSets, es: Seq<Edge>, p: Seq<int>, a: int, b: int)
    requires
        dsu_wf(d),
        is_path(es, p, a, b),
        0 <= a < d.nodes@.len(),
        forall|j: int|
            0 <= j < es.len() ==> 0 <= (#[trigger] es[j]).source < d.nodes@.len()
                && 0 <= es[j].destination < d.nodes@.len(),
        forall|j: int|
            0 <= j < es.len() ==> same_set(
                d,
                (#[trigger] es[j]).source as int,
                es[j].destination as int,
            ),
    ensures
        same_set(d, a, b),
    decreases p.len(),
{
    if p.len() > 1 {
        assert(step_ok(es, p, 0));
        let j = choose|j: int| 0 <= j < es.len() && links(#[trigger] es[j], p[0], p[1]);
        assert(same_set(d, a, p[1]));
        assert(0 <= p[1] < d.nodes@.len());
        let q = p.skip(1);
        assert(q[0] == p[1]);
        assert(q[q.len() - 1] == p[p.len() - 1]);
        assert forall|t: int| 0 <= t < q.len() - 1 implies #[trigger] step_ok(es, q, t) by {
            assert(q[t] == p[t + 1]);
            assert(q[t + 1] == p[t + 2]);
            assert(step_ok(es, p, t + 1));
            let j2 = choose|j2: int|
                0 <= j2 < es.len() && links(#[trigger] es[j2], p[t + 1], p[t + 2]);
            assert(links(es[j2], q[t], q[t + 1]));
        }
        assert(is_path(es, q, p[1], b));
        lemma_path_same_set(d, es, q, p[1], b);
    }
}

proof fn lemma_class_finite(d: DisjointSets, r: int)
    ensures
        class_of(d, r).finite(),
        class_of(d, r).len() <= d.nodes@.len(),
{
    let n = d.nodes@.len() as int;
    vstd::set_lib::lemma_int_range(0, n);
    assert(class_of(d, r).subset_of(vstd::set_lib::set_int_range(0, n)));
    vstd::set_lib::lemma_len_subset(class_of(d, r), vstd::set_lib::set_int_range(0, n));
}

/// Creates `number_of_vertices` singleton sets (none for a count below one).
fn make_sets(number_of_vertices: i64) -> (d: DisjointSets)
    ensures
        dsu_wf(d),
        d.nodes@.len() == (if number_of_vertices >= 0 {
            number_of_vertices as int
        } else {
            0
        }),
        forall|i: int| 0 <= i < d.nodes@.len() ==> #[trigger] d.roots@[i] == i,
        num_sets(d) == d.nodes@.len(),
{
    let mut nodes: Vec<DSUNode> = Vec::new();
    let mut i: i64 = 0;
    while i < number_of_vertices
        invariant
            0 <= i,
            number_of_vertices >= 0 ==> i <= number_of_vertices,
            number_of_vertices < 0 ==> i == 0,
            nodes@.len() == i as int,
            forall|l: int|
                0 <= l < i ==> (#[trigger] nodes@[l]).parent == l && nodes@[l].subtree_size == 1,
        decreases number_of_vertices - i,
    {
        nodes.push(DSUNode { parent: i, subtree_size: 1 });
        i = i + 1;
    }
    let ghost len = nodes@.len();
    let d = DisjointSets {
        nodes,
        roots: Ghost(Seq::new(len, |l: int| l)),
        depths: Ghost(Seq::new(len, |l: int| 0)),
    };
    proof {
        assert forall|rr: int|
            0 <= rr < d.nodes@.len() && #[trigger] d.roots@[rr] == rr implies 1
            <= d.nodes@[rr].subtree_size <= class_of(d, rr).len() && d.depths@[rr] < class_of(
            d,
            rr,
        ).len() by {
            assert(class_of(d, rr) =~= Set::<int>::empty().insert(rr));
            assert(class_of(d, rr).len() == 1);
        }
        assert(dsu_wf(d));
        vstd::set_lib::lemma_int_range(0, d.nodes@.len() as int);
        assert(rep_set(d) =~= vstd::set_lib::set_int_range(0, d.nodes@.len() as int));
    }
    d
}

/// Returns the canonical representative of the set of `x`, pointing the
/// vertices along the walk directly at it (path compression).
#[verifier::rlimit(100)]
#[verifier::spinoff_prover]
fn find(dsu: &mut DisjointSets, x: i64) -> (r: i64)
    requires
        dsu_wf(*old(dsu)),
        0 <= x < old(dsu).nodes@.len(),
    ensures
        dsu_wf(*final(dsu)),
        final(dsu).roots@ == old(dsu).roots@,
        final(dsu).depths@ == old(dsu).depths@,
        final(dsu).nodes@.len() == old(dsu).nodes@.len(),
        forall|i: int|
            0 <= i < final(dsu).nodes@.len() ==> (#[trigger] final(dsu).nodes@[i]).subtree_size
                == old(dsu).nodes@[i].subtree_size,
        r == old(dsu).roots@[x as int],
        old(dsu).depths@[r as int] >= old(dsu).depths@[x as int],
    decreases dsu.nodes@.len() - dsu.depths@[x as int],
{
    let nlen = dsu.nodes.len();
    let p = dsu.nodes[x as usize].parent;
    if p == x {
        proof {
            r_is_self(dsu, x);
        }
        x
    } else {
        let r = find(dsu, p);
        let sz = dsu.nodes[x as usize].subtree_size;
        let ghost d1 = *dsu;
        dsu.nodes[x as usize] = DSUNode { parent: r, subtree_size: sz };
        proof {
            assert(dsu.roots@[r as int] == r);
            assert(dsu.depths@[r as int] > dsu.depths@[x as int]);
            assert forall|rr: int|
                0 <= rr < dsu.nodes@.len() && #[trigger] dsu.roots@[rr] == rr implies 1
                <= dsu.nodes@[rr].subtree_size <= class_of(*dsu, rr).len() && dsu.depths@[rr]
                < class_of(*dsu, rr).len() by {
                assert(class_of(*dsu, rr) =~= class_of(d1, rr));
                assert(dsu.nodes@[rr].subtree_size == d1.nodes@[rr].subtree_size);
            }
            assert(dsu_wf(*dsu));
        }
        r
    }
}

/// At a self-parented vertex the root label is the vertex itself.
proof fn r_is_self(dsu: &DisjointSets, x: i64)
    requires
        dsu_wf(*dsu),
        0 <= x < dsu.nodes@.len(),
        dsu.nodes@[x as int].parent == x,
    ensures
        dsu.roots@[x as int] == x,
{
}

/// Whether `x` and `y` are already in the same set.
fn is_same_set(dsu: &mut DisjointSets, x: i64, y: i64) -> (b: bool)
    requires
        dsu_wf(*old(dsu)),
        0 <= x < old(dsu).nodes@.len(),
        0 <= y < old(dsu).nodes@.len(),
    ensures
        dsu_wf(*final(dsu)),
        final(dsu).roots@ == old(dsu).roots@,
        final(dsu).nodes@.len() == old(dsu).nodes@.len(),
        b <==> same_set(*old(dsu), x as int, y as int),
{
    let rx = find(dsu, x);
    let ry = find(dsu, y);
    rx == ry
}

/// Merges the (distinct) sets of `x` and `y`, attaching the smaller
/// subtree's root below the larger's and adding up their sizes.
#[verifier::rlimit(100)]
#[verifier::spinoff_prover]
fn merge(dsu: &mut DisjointSets, x: i64, y: i64)
    requires
        dsu_wf(*old(dsu)),
        0 <= x < old(dsu).nodes@.len(),
        0 <= y < old(dsu).nodes@.len(),
        !same_set(*old(dsu), x as int, y as int),
    ensures
        dsu_wf(*final(dsu)),
        final(dsu).nodes@.len() == old(dsu).nodes@.len(),
        num_sets(*final(dsu)) == num_sets(*old(dsu)) - 1,
        forall|i: int, j: int|
            0 <= i < old(dsu).nodes@.len() && 0 <= j < old(dsu).nodes@.len() ==> (
            #[trigger] same_set(*final(dsu), i, j) <==> (same_set(*old(dsu), i, j) || (same_set(
                *old(dsu),
                i,
                x as int,
            ) && same_set(*old(dsu), j, y as int)) || (same_set(*old(dsu), i, y as int)
                && same_set(*old(dsu), j, x as int)))),
        // the larger subtree's root survives (x's root on ties) and its
        // size becomes the sum of the two old root sizes
        ({
            let rx = old(dsu).roots@[x as int];
            let ry = old(dsu).roots@[y as int];
            let w = if old(dsu).nodes@[ry].subtree_size > old(dsu).nodes@[rx].subtree_size {
                ry
            } else {
                rx
            };
            &&& (forall|i: int|
                0 <= i < old(dsu).nodes@.len() ==> final(dsu).roots@[i] == (
                if old(dsu).roots@[i] == rx || #[trigger] old(dsu).roots@[i] == ry {
                    w
                } else {
                    old(dsu).roots@[i]
                }))
            &&& final(dsu).nodes@[w].subtree_size == old(dsu).nodes@[rx].subtree_size + old(
                dsu,
            ).nodes@[ry].subtree_size
        }),
{
    let rx0 = find(dsu, x);
    let ry0 = find(dsu, y);
    let nlen = dsu.nodes.len();
    proof {
        assert(dsu.roots@[rx0 as int] == rx0);
        assert(dsu.roots@[ry0 as int] == ry0);
        assert(rx0 != ry0);
    }
    let swap = dsu.nodes[ry0 as usize].subtree_size > dsu.nodes[rx0 as usize].subtree_size;
    let w = if swap {
        ry0
    } else {
        rx0
    };
    let l = if swap {
        rx0
    } else {
        ry0
    };
    let ghost d0 = *dsu;
    let ghost n = d0.nodes@.len() as int;
    let ghost rw = w as int;
    let ghost rl = l as int;
    proof {
        lemma_class_finite(d0, rw);
        lemma_class_finite(d0, rl);
        assert(class_of(d0, rw).disjoint(class_of(d0, rl)));
        vstd::set_lib::lemma_set_disjoint_lens(class_of(d0, rw), class_of(d0, rl));
        vstd::set_lib::lemma_int_range(0, n);
        assert((class_of(d0, rw) + class_of(d0, rl)).subset_of(
            vstd::set_lib::set_int_range(0, n),
        ));
        vstd::set_lib::lemma_len_subset(
            class_of(d0, rw) + class_of(d0, rl),
            vstd::set_lib::set_int_range(0, n),
        );
        assert(d0.nodes@[rw].subtree_size <= class_of(d0, rw).len());
        assert(d0.nodes@[rl].subtree_size <= class_of(d0, rl).len());
        assert((class_of(d0, rw) + class_of(d0, rl)).len() == class_of(d0, rw).len() + class_of(
            d0,
            rl,
        ).len());
    }
    let sw = dsu.nodes[w as usize].subtree_size;
    let sl = dsu.nodes[l as usize].subtree_size;
    dsu.nodes[l as usize] = DSUNode { parent: w, subtree_size: sl };
    dsu.nodes[w as usize] = DSUNode { parent: w, subtree_size: sw + sl };
    proof {
        let roots0 = d0.roots@;
        let depths0 = d0.depths@;
        let new_roots = Seq::new(roots0.len(), |i: int| if roots0[i] == rl {
            rw
        } else {
            roots0[i]
        });
        let dw: int = if depths0[rw] >= depths0[rl] + 1 {
            depths0[rw]
        } else {
            depths0[rl] + 1
        };
        let new_depths = depths0.update(rw, dw);
        dsu.roots@ = new_roots;
        dsu.depths@ = new_depths;
        lemma_merge_rebuild(d0, *dsu, x as int, y as int, rw, rl);
        // glue to the entry state: the two finds changed neither the
        // labels nor any subtree size
        assert(d0.roots@ == old(dsu).roots@);
        assert(rep_set(d0) =~= rep_set(*old(dsu)));
        assert(d0.nodes@[rw].subtree_size == old(dsu).nodes@[rw].subtree_size);
        assert(d0.nodes@[rl].subtree_size == old(dsu).nodes@[rl].subtree_size);
    }
}

/// Attaching the loser root `rl` below the winner `rw` (the larger
/// subtree's root, `x`'s on ties) rebuilds a well-formed union, merges
/// exactly the two sets of `x` and `y`, and sums the two root sizes.
#[verifier::rlimit(100)]
#[verifier::spinoff_prover]
proof fn lemma_merge_rebuild(d0: DisjointSets, d2: DisjointSets, x: int, y: int, rw: int, rl: int)
    requires
        dsu_wf(d0),
        0 <= x < d0.nodes@.len(),
        0 <= y < d0.nodes@.len(),
        d0.roots@[x] != d0.roots@[y],
        rw == (if d0.nodes@[d0.roots@[y]].subtree_size > d0.nodes@[d0.roots@[x]].subtree_size {
            d0.roots@[y]
        } else {
            d0.roots@[x]
        }),
        rl == (if d0.nodes@[d0.roots@[y]].subtree_size > d0.nodes@[d0.roots@[x]].subtree_size {
            d0.roots@[x]
        } else {
            d0.roots@[y]
        }),
        d2.nodes@.len() == d0.nodes@.len(),
        d2.nodes@[rl].parent == rw,
        d2.nodes@[rl].subtree_size == d0.nodes@[rl].subtree_size,
        d2.nodes@[rw].parent == rw,
        d2.nodes@[rw].subtree_size == d0.nodes@[rw].subtree_size + d0.nodes@[rl].subtree_size,
        forall|i: int|
            0 <= i < d0.nodes@.len() && i != rl && i != rw ==> #[trigger] d2.nodes@[i]
                == d0.nodes@[i],
        d2.roots@.len() == d0.nodes@.len(),
        forall|i: int|
            0 <= i < d0.nodes@.len() ==> #[trigger] d2.roots@[i] == (if d0.roots@[i] == rl {
                rw
            } else {
                d0.roots@[i]
            }),
        d2.depths@.len() == d0.nodes@.len(),
        d2.depths@[rw] == (if d0.depths@[rw] >= d0.depths@[rl] + 1 {
            d0.depths@[rw]
        } else {
            d0.depths@[rl] + 1
        }),
        forall|i: int|
            0 <= i < d0.nodes@.len() && i != rw ==> #[trigger] d2.depths@[i] == d0.depths@[i],
    ensures
        dsu_wf(d2),
        num_sets(d2) == num_sets(d0) - 1,
        forall|i: int, j: int|
            0 <= i < d0.nodes@.len() && 0 <= j < d0.nodes@.len() ==> (#[trigger] same_set(
                d2,
                i,
                j,
            ) <==> (same_set(d0, i, j) || (same_set(d0, i, x) && same_set(d0, j, y)) || (same_set(
                d0,
                i,
                y,
            ) && same_set(d0, j, x)))),
        forall|i: int|
            0 <= i < d0.nodes@.len() ==> #[trigger] d2.roots@[i] == (if d0.roots@[i] == d0.roots@[x]
                || d0.roots@[i] == d0.roots@[y] {
                rw
            } else {
                d0.roots@[i]
            }),
{
    let n = d0.nodes@.len() as int;
    let roots0 = d0.roots@;
    let depths0 = d0.depths@;
    let rx = d0.roots@[x];
    let ry = d0.roots@[y];
    let dw: int = if depths0[rw] >= depths0[rl] + 1 {
        depths0[rw]
    } else {
        depths0[rl] + 1
    };
    lemma_class_finite(d0, rw);
    lemma_class_finite(d0, rl);
    assert(class_of(d0, rw).disjoint(class_of(d0, rl)));
    vstd::set_lib::lemma_set_disjoint_lens(class_of(d0, rw), class_of(d0, rl));
    vstd::set_lib::lemma_int_range(0, n);
    assert((class_of(d0, rw) + class_of(d0, rl)).subset_of(vstd::set_lib::set_int_range(0, n)));
    vstd::set_lib::lemma_len_subset(
        class_of(d0, rw) + class_of(d0, rl),
        vstd::set_lib::set_int_range(0, n),
    );
    assert(rl != rw);
    assert(roots0[rw] == rw && roots0[rl] == rl);
    assert(d2.roots@[rw] == rw);
    assert(d2.roots@[rl] == rw);
    assert(depths0[rw] < class_of(d0, rw).len());
    assert(depths0[rl] < class_of(d0, rl).len());
    assert(class_of(d2, rw) =~= class_of(d0, rw) + class_of(d0, rl));
    // parent pointers stay in range
    assert forall|i: int| 0 <= i < n implies 0 <= (#[trigger] d2.nodes@[i]).parent < n by {
        if i != rl && i != rw {
            assert(d2.nodes@[i] == d0.nodes@[i]);
        }
    }
    // a vertex is self-parented exactly when it carries its own label
    assert forall|i: int|
        0 <= i < n implies ((#[trigger] d2.nodes@[i]).parent == i <==> d2.roots@[i] == i) by {
        if i == rl {
        } else if i == rw {
        } else {
            assert(d2.nodes@[i] == d0.nodes@[i]);
            if roots0[i] == rl {
                assert(roots0[i] != i);
                assert(d2.roots@[i] == rw);
                assert(rw != i);
            } else {
                assert(d2.roots@[i] == roots0[i]);
            }
        }
    }
    // the parent carries the same label
    assert forall|i: int|
        0 <= i < n implies d2.roots@[(#[trigger] d2.nodes@[i]).parent as int] == d2.roots@[i] by {
        if i == rl {
        } else if i == rw {
        } else {
            assert(d2.nodes@[i] == d0.nodes@[i]);
            let pp = d0.nodes@[i].parent as int;
            assert(roots0[pp] == roots0[i]);
        }
    }
    // labels are fixpoints
    assert forall|i: int| 0 <= i < n implies #[trigger] d2.roots@[d2.roots@[i]] == d2.roots@[i] by {
        if roots0[i] == rl {
            assert(d2.roots@[i] == rw);
        } else {
            assert(d2.roots@[i] == roots0[i]);
            assert(roots0[roots0[i]] == roots0[i]);
        }
    }
    // depths stay in range
    assert forall|i: int| 0 <= i < n implies 0 <= #[trigger] d2.depths@[i] < n by {
        if i == rw {
            assert(dw < class_of(d0, rw).len() + class_of(d0, rl).len());
        }
    }
    // depths grow strictly along parent pointers
    assert forall|i: int|
        0 <= i < n && (#[trigger] d2.nodes@[i]).parent != i implies d2.depths@[d2.nodes@[i].parent
        as int] > d2.depths@[i] by {
        if i == rl {
            assert(d2.depths@[rw] == dw);
            assert(d2.depths@[rl] == depths0[rl]);
        } else if i == rw {
        } else {
            assert(d2.nodes@[i] == d0.nodes@[i]);
            assert(d2.depths@[i] == depths0[i]);
            let pp = d0.nodes@[i].parent as int;
            assert(depths0[pp] > depths0[i]);
            if pp == rw {
                assert(d2.depths@[rw] >= depths0[rw]);
            } else {
                assert(d2.depths@[pp] == depths0[pp]);
            }
        }
    }
    // roots keep a size of at least one and at most their class size
    assert forall|rr: int|
        0 <= rr < n && #[trigger] d2.roots@[rr] == rr implies 1 <= d2.nodes@[rr].subtree_size
        <= class_of(d2, rr).len() && d2.depths@[rr] < class_of(d2, rr).len() by {
        if rr == rw {
            assert(class_of(d2, rw).len() == class_of(d0, rw).len() + class_of(d0, rl).len());
        } else {
            assert(rr != rl);
            assert(roots0[rr] == rr);
            assert(class_of(d2, rr) =~= class_of(d0, rr));
            assert(d2.nodes@[rr] == d0.nodes@[rr]);
            assert(d2.depths@[rr] == depths0[rr]);
        }
    }
    assert(dsu_wf(d2));
    // the loser's set merges into the winner's: one set fewer
    lemma_rep_set_finite(d0);
    assert(rep_set(d0).contains(rl));
    assert forall|i: int| #![trigger rep_set(d2).contains(i)]
        rep_set(d2).contains(i) <==> rep_set(d0).remove(rl).contains(i) by {
        if 0 <= i < n && i != rl && i != rw {
            if roots0[i] == rl {
                assert(roots0[i] != i);
                assert(d2.roots@[i] == rw);
            } else {
                assert(d2.roots@[i] == roots0[i]);
            }
        }
    }
    assert(rep_set(d2) =~= rep_set(d0).remove(rl));
    vstd::set::axiom_set_remove_len(rep_set(d0), rl);
    assert forall|i: int, j: int|
        0 <= i < n && 0 <= j < n implies (#[trigger] same_set(d2, i, j) <==> (same_set(d0, i, j) || (
        same_set(d0, i, x) && same_set(d0, j, y)) || (same_set(d0, i, y) && same_set(
        d0,
        j,
        x,
    )))) by {
        assert(roots0[x] == rx && roots0[y] == ry);
    }
}



/// The failure `kruskal` can signal: an edge endpoint outside the vertex
/// range.
#[derive(Clone, Copy, Debug, PartialEq, Eq, Structural)]
pub enum GraphError {
    OutOfRange,
}

/// Every edge's endpoints lie in `0..n`.
pub open spec fn edges_in_range(s: Seq<Edge>, n: int) -> bool {
    forall|k: int|
        0 <= k < s.len() ==> 0 <= (#[trigger] s[k]).source < n && 0 <= s[k].destination < n
}

/// Kruskal's minimum-spanning-forest algorithm.
///
/// Sorts the edges by ascending cost (ties keep input order), then selects
/// each edge whose endpoints are not yet connected by the edges selected
/// before it, stopping once `number_of_vertices - 1` edges are selected.
/// Returns the summed cost and the selected edges, in selection order —
/// exactly `kruskal_spec(edges@, number_of_vertices)`, so the result is
/// deterministic down to the tie-break. Rejects any edge with an endpoint
/// outside `0..number_of_vertices`. The absolute costs must have a
/// representable sum, since costs are summed in an `i64`.
#[verifier::loop_isolation(false)]
#[verifier::rlimit(100)]
#[verifier::spinoff_prover]
pub fn kruskal(edges: Vec<Edge>, number_of_vertices: i64) -> (r: Result<
    (i64, Vec<Edge>),
    GraphError,
>)
    requires
        abs_cost_sum(edges@) <= i64::MAX,
    ensures
        match r {
            Ok(res) => {
                &&& edges_in_range(edges@, number_of_vertices as int)
                &&& res.1@ == kruskal_spec(edges@, number_of_vertices as int)
                &&& res.0 == cost_sum(res.1@)
                &&& sorted_by_cost(res.1@)
                &&& res.1@.to_multiset().subset_of(edges@.to_multiset())
                &&& res.1@.len() <= (if number_of_vertices >= 1 {
                    (number_of_vertices - 1) as int
                } else {
                    0
                })
                &&& forall|k: int|
                    0 <= k < res.1@.len() ==> !connected(
                        res.1@.take(k),
                        (#[trigger] res.1@[k]).source as int,
                        res.1@[k].destination as int,
                    )
                &&& forall|a: int, b: int|
                    0 <= a < number_of_vertices && 0 <= b < number_of_vertices ==> ((
                    #[trigger] connected(edges@, a, b)) <==> connected(res.1@, a, b))
                &&& (number_of_vertices >= 1 && (forall|a: int, b: int|
                    0 <= a < number_of_vertices && 0 <= b < number_of_vertices
                        ==> #[trigger] connected(edges@, a, b)) ==> res.1@.len()
                    == number_of_vertices - 1)
            },
            Err(e) => e == GraphError::OutOfRange && !edges_in_range(
                edges@,
                number_of_vertices as int,
            ),
        },
{
    let mut k: usize = 0;
    while k < edges.len()
        invariant
            k <= edges@.len(),
            forall|l: int|
                0 <= l < k ==> 0 <= (#[trigger] edges@[l]).source < number_of_vertices
                    && 0 <= edges@[l].destination < number_of_vertices,
        decreases edges@.len() - k,
    {
        let e = edges[k];
        if !(0 <= e.source && e.source < number_of_vertices && 0 <= e.destination
            && e.destination < number_of_vertices) {
            return Err(GraphError::OutOfRange);
        }
        k = k + 1;
    }
    let ghost edges0 = edges@;
    let mut dsu = make_sets(number_of_vertices);
    let sorted = sort_edges(edges);
    let ghost sall = sorted@;
    proof {
        assert forall|p: int| 0 <= p < sall.len() implies 0 <= (#[trigger] sall[p]).source
            < number_of_vertices && 0 <= sall[p].destination < number_of_vertices by {
            sall.to_multiset_ensures();
            edges0.to_multiset_ensures();
            assert(sall.contains(sall[p]));
            assert(sall.to_multiset().count(sall[p]) > 0);
            assert(edges0.to_multiset().count(sall[p]) > 0);
            assert(edges0.contains(sall[p]));
        }
    }
    let mut total_cost: i64 = 0;
    let mut final_edges: Vec<Edge> = Vec::new();
    let mut merge_count: i64 = 0;
    let mut i: usize = 0;
    let ghost stop: int = number_of_vertices as int - 1;
    proof {
        assert(sall.skip(0) =~= sall);
    }
    proof {
        broadcast use vstd::multiset::group_multiset_axioms;
        final_edges@.to_multiset_ensures();
        assert forall|z: Edge|
            final_edges@.to_multiset().count(z) <= sall.take(0).to_multiset().count(z) by {
            if final_edges@.to_multiset().count(z) > 0 {
                assert(final_edges@.contains(z));
            }
        }
        // at the start no edges are selected and every vertex is its own set
        assert forall|a: int, b: int|
            0 <= a < dsu.nodes@.len() && 0 <= b < dsu.nodes@.len() implies ((#[trigger] same_set(
            dsu,
            a,
            b,
        )) <==> connected(final_edges@, a, b)) by {
            if a == b {
                lemma_conn_refl(final_edges@, a);
            }
            if connected(final_edges@, a, b) {
                lemma_conn_empty(final_edges@, a, b);
            }
        }
    }
    while i < sorted.len() && merge_count < number_of_vertices - 1
        invariant
            i <= sall.len(),
            dsu_wf(dsu),
            dsu.nodes@.len() == (if number_of_vertices >= 0 {
                number_of_vertices as int
            } else {
                0
            }),
            total_cost == cost_sum(final_edges@),
            abs_cost_sum(final_edges@) <= abs_cost_sum(sall.take(i as int)),
            sorted_by_cost(final_edges@),
            forall|l: int|
                0 <= l < final_edges@.len() ==> exists|p: int|
                    0 <= p < i && (#[trigger] final_edges@[l]) == sall[p],
            final_edges@.to_multiset().subset_of(sall.take(i as int).to_multiset()),
            merge_count == final_edges@.len(),
            0 <= merge_count <= (if number_of_vertices >= 1 {
                number_of_vertices - 1
            } else {
                0
            }),
            num_sets(dsu) == dsu.nodes@.len() - merge_count,
            forall|a: int, b: int|
                0 <= a < dsu.nodes@.len() && 0 <= b < dsu.nodes@.len() ==> ((#[trigger] same_set(
                dsu,
                a,
                b,
            )) <==> connected(final_edges@, a, b)),
            forall|j: int|
                0 <= j < i ==> same_set(
                    dsu,
                    (#[trigger] sall[j]).source as int,
                    sall[j].destination as int,
                ),
            forall|kk: int|
                0 <= kk < final_edges@.len() ==> !connected(
                    final_edges@.take(kk),
                    (#[trigger] final_edges@[kk]).source as int,
                    final_edges@[kk].destination as int,
                ),
            greedy_select(sall, Seq::<Edge>::empty(), stop) == greedy_select(
                sall.skip(i as int),
                final_edges@,
                stop,
            ),
        decreases sall.len() - i,
    {
        let ghost d_entry = dsu;
        let edge = sorted[i];
        let source = edge.source;
        let destination = edge.destination;
        let already_joined = is_same_set(&mut dsu, source, destination);
        proof {
            assert(dsu.roots@ == d_entry.roots@);
            assert(rep_set(dsu) =~= rep_set(d_entry));
        }
        let ghost d1 = dsu;
        if !already_joined {
            merge(&mut dsu, source, destination);
            merge_count = merge_count + 1;
            let cost = edge.cost;
            proof {
                lemma_abs_cost_sum_bounds(final_edges@);
                lemma_cost_sum_push(final_edges@, edge);
                assert(sall.take(i + 1) =~= sall.take(i as int).push(sall[i as int]));
                lemma_cost_sum_push(sall.take(i as int), edge);
                lemma_abs_cost_sum_take(sall, i + 1);
            }
            total_cost = total_cost + cost;
            let final_edge = Edge::new(source, destination, cost);
            proof {
                assert(final_edge == edge);
            }
            let ghost fe0 = final_edges@;
            final_edges.push(final_edge);
            proof {
                // multiset bookkeeping for the pushed edge
                broadcast use vstd::multiset::group_multiset_axioms;
                fe0.to_multiset_ensures();
                assert(final_edges@ =~= fe0.push(edge));
                assert(final_edges@.to_multiset() =~= fe0.to_multiset().insert(edge));
                sall.take(i as int).to_multiset_ensures();
                assert(sall.take(i + 1).to_multiset() =~= sall.take(
                    i as int,
                ).to_multiset().insert(sall[i as int]));
                assert(edge == sall[i as int]);
                assert forall|z: Edge|
                    final_edges@.to_multiset().count(z) <= sall.take(
                        i + 1,
                    ).to_multiset().count(z) by {
                    assert(fe0.to_multiset().count(z) <= sall.take(
                        i as int,
                    ).to_multiset().count(z));
                }
                // the pushed edge keeps the selection sorted
                assert forall|l1: int, l2: int|
                    0 <= l1 < l2 < final_edges@.len() implies final_edges@[l1].cost
                    <= final_edges@[l2].cost by {
                    if l2 == final_edges@.len() - 1 {
                        let p = choose|p: int| 0 <= p < i && (#[trigger] fe0[l1]) == sall[p];
                        assert(sall[p].cost <= sall[i as int].cost);
                    } else {
                        assert(fe0[l1] == final_edges@[l1]);
                        assert(fe0[l2] == final_edges@[l2]);
                    }
                }
                // the new edge joins exactly the two classes of its endpoints
                let u = edge.source as int;
                let v = edge.destination as int;
                assert(final_edges@ == fe0.push(edge));
                assert(0 <= u < dsu.nodes@.len() && 0 <= v < dsu.nodes@.len());
                assert(d1.roots@ == d_entry.roots@);
                assert forall|a: int, b: int|
                    0 <= a < dsu.nodes@.len() && 0 <= b < dsu.nodes@.len() implies ((
                #[trigger] same_set(dsu, a, b)) <==> connected(final_edges@, a, b)) by {
                    lemma_conn_add_edge(fe0, edge, a, b);
                    if connected(fe0, v, b) {
                        lemma_conn_sym(fe0, v, b);
                    }
                    if connected(fe0, b, v) {
                        lemma_conn_sym(fe0, b, v);
                    }
                    if connected(fe0, u, b) {
                        lemma_conn_sym(fe0, u, b);
                    }
                    if connected(fe0, b, u) {
                        lemma_conn_sym(fe0, b, u);
                    }
                    assert(same_set(dsu, a, b) <==> (same_set(d1, a, b) || (same_set(d1, a, u)
                        && same_set(d1, b, v)) || (same_set(d1, a, v) && same_set(d1, b, u))));
                    assert(same_set(d1, a, b) == same_set(d_entry, a, b));
                    assert(same_set(d1, a, u) == same_set(d_entry, a, u));
                    assert(same_set(d1, b, v) == same_set(d_entry, b, v));
                    assert(same_set(d1, a, v) == same_set(d_entry, a, v));
                    assert(same_set(d1, b, u) == same_set(d_entry, b, u));
                    assert(same_set(d_entry, a, b) <==> connected(fe0, a, b));
                    assert(same_set(d_entry, a, u) <==> connected(fe0, a, u));
                    assert(same_set(d_entry, a, v) <==> connected(fe0, a, v));
                    assert(same_set(d_entry, b, u) <==> connected(fe0, b, u));
                    assert(same_set(d_entry, b, v) <==> connected(fe0, b, v));
                }
                // every examined edge now joins vertices of one set
                assert forall|j: int|
                    0 <= j < i + 1 implies same_set(
                    dsu,
                    (#[trigger] sall[j]).source as int,
                    sall[j].destination as int,
                ) by {
                    if j < i {
                        assert(same_set(d_entry, sall[j].source as int, sall[j].destination as int));
                        assert(same_set(d1, sall[j].source as int, sall[j].destination as int));
                    } else {
                        assert(sall[j] == edge);
                        assert(same_set(d1, u, u) && same_set(d1, v, v));
                    }
                }
                // the selection stays a forest: the new edge joined two
                // different components
                assert forall|kk: int|
                    0 <= kk < final_edges@.len() implies !connected(
                    final_edges@.take(kk),
                    (#[trigger] final_edges@[kk]).source as int,
                    final_edges@[kk].destination as int,
                ) by {
                    if kk < fe0.len() {
                        assert(final_edges@.take(kk) =~= fe0.take(kk));
                        assert(final_edges@[kk] == fe0[kk]);
                    } else {
                        assert(final_edges@[kk] == edge);
                        assert(final_edges@.take(kk) =~= fe0);
                        assert(!same_set(d_entry, u, v));
                        assert(same_set(d_entry, u, v) <==> connected(fe0, u, v));
                        assert(!connected(fe0, u, v));
                    }
                }
                // the greedy specification takes the same step
                assert(!same_set(d_entry, u, v));
                assert(same_set(d_entry, u, v) <==> connected(fe0, u, v));
                assert(greedy_select(sall.skip(i as int), fe0, stop) == greedy_select(
                    sall.skip(i + 1),
                    final_edges@,
                    stop,
                )) by {
                    assert(sall.skip(i as int).len() > 0);
                    assert(fe0.len() < stop);
                    assert(sall.skip(i as int)[0] == sall[i as int]);
                    assert(sall.skip(i as int).drop_first() =~= sall.skip(i + 1));
                    assert(!connected(fe0, edge.source as int, edge.destination as int));
                }
            }
        } else {
            proof {
                assert(sall.take(i + 1) =~= sall.take(i as int).push(sall[i as int]));
                lemma_cost_sum_push(sall.take(i as int), sall[i as int]);
                sall.take(i as int).to_multiset_ensures();
                assert(sall.take(i + 1).to_multiset() =~= sall.take(
                    i as int,
                ).to_multiset().insert(sall[i as int]));
                broadcast use vstd::multiset::group_multiset_axioms;
                assert forall|z: Edge|
                    final_edges@.to_multiset().count(z) <= sall.take(
                        i + 1,
                    ).to_multiset().count(z) by {}
                // the skipped edge's endpoints were already in one set
                assert(dsu.roots@ == d_entry.roots@);
                assert forall|j: int|
                    0 <= j < i + 1 implies same_set(
                    dsu,
                    (#[trigger] sall[j]).source as int,
                    sall[j].destination as int,
                ) by {
                    if j == i {
                        assert(same_set(d_entry, edge.source as int, edge.destination as int));
                    } else {
                        assert(same_set(d_entry, sall[j].source as int, sall[j].destination as int));
                    }
                }
                // nothing else changes with the partition untouched
                assert forall|a: int, b: int|
                    0 <= a < dsu.nodes@.len() && 0 <= b < dsu.nodes@.len() implies ((
                #[trigger] same_set(dsu, a, b)) <==> connected(final_edges@, a, b)) by {
                    assert(same_set(dsu, a, b) == same_set(d_entry, a, b));
                    assert(same_set(d_entry, a, b) <==> connected(final_edges@, a, b));
                }
                // the greedy specification skips the same edge
                assert(connected(final_edges@, edge.source as int, edge.destination as int)) by {
                    assert(0 <= (edge.source as int) && (edge.source as int)
                        < dsu.nodes@.len());
                    assert(0 <= (edge.destination as int) && (edge.destination as int)
                        < dsu.nodes@.len());
                    assert(same_set(d_entry, edge.source as int, edge.destination as int));
                }
                assert(greedy_select(sall.skip(i as int), final_edges@, stop) == greedy_select(
                    sall.skip(i + 1),
                    final_edges@,
                    stop,
                )) by {
                    assert(sall.skip(i as int).len() > 0);
                    assert(final_edges@.len() < stop);
                    assert(sall.skip(i as int)[0] == sall[i as int]);
                    assert(sall.skip(i as int).drop_first() =~= sall.skip(i + 1));
                }
            }
        }
        i = i + 1;
    }
    proof {
        assert(sall.take(sall.len() as int) =~= sall);
        lemma_abs_cost_sum_take(sall, i as int);
        broadcast use vstd::multiset::group_multiset_axioms;
        assert forall|z: Edge|
            final_edges@.to_multiset().count(z) <= edges0.to_multiset().count(z) by {
            assert(final_edges@.to_multiset().count(z) <= sall.take(
                i as int,
            ).to_multiset().count(z));
            assert(sall.take(i as int).to_multiset().count(z) <= sall.to_multiset().count(z))
                by {
                assert(sall =~= sall.take(i as int) + sall.skip(i as int));
                vstd::seq_lib::lemma_multiset_commutative(sall.take(i as int), sall.skip(i as int));
            }
        }
        assert(final_edges@.to_multiset().subset_of(edges0.to_multiset()));
        // every selected edge is an edge of the input
        assert forall|l: int|
            0 <= l < final_edges@.len() implies edges0.contains(#[trigger] final_edges@[l]) by {
            let p = choose|p: int| 0 <= p < i && (#[trigger] final_edges@[l]) == sall[p];
            sall.to_multiset_ensures();
            edges0.to_multiset_ensures();
            assert(sall.contains(sall[p]));
            assert(sall.to_multiset().count(sall[p]) > 0);
            assert(edges0.to_multiset().count(sall[p]) > 0);
            assert(edges0.contains(final_edges@[l]));
        }
        // the sets of the partition are the components of the input graph
        assert forall|a: int, b: int|
            0 <= a < dsu.nodes@.len() && 0 <= b < dsu.nodes@.len() && #[trigger] connected(
            edges0,
            a,
            b,
        ) implies same_set(dsu, a, b) by {
            if i == sorted@.len() {
                // every input edge was examined, so its endpoints share a set
                assert forall|j: int|
                    0 <= j < edges0.len() implies same_set(
                    dsu,
                    (#[trigger] edges0[j]).source as int,
                    edges0[j].destination as int,
                ) by {
                    sall.to_multiset_ensures();
                    edges0.to_multiset_ensures();
                    assert(edges0.contains(edges0[j]));
                    assert(edges0.to_multiset().count(edges0[j]) > 0);
                    assert(sall.to_multiset().count(edges0[j]) > 0);
                    assert(sall.contains(edges0[j]));
                    let pj = choose|pj: int| 0 <= pj < sall.len() && sall[pj] == edges0[j];
                    assert(same_set(dsu, sall[pj].source as int, sall[pj].destination as int));
                }
                let p = choose|p: Seq<int>| is_path(edges0, p, a, b);
                lemma_path_same_set(dsu, edges0, p, a, b);
            } else {
                // the selection stopped early, so a single set remains
                assert(0 <= sall[i as int].source < number_of_vertices);
                assert(merge_count >= number_of_vertices - 1);
                assert(num_sets(dsu) == 1);
                lemma_rep_set_finite(dsu);
                let ra = dsu.roots@[a];
                let rb = dsu.roots@[b];
                assert(dsu.roots@[ra] == ra);
                assert(dsu.roots@[rb] == rb);
                assert(rep_set(dsu).contains(ra));
                assert(rep_set(dsu).contains(rb));
                vstd::set::axiom_set_remove_len(rep_set(dsu), ra);
                if ra != rb {
                    assert(rep_set(dsu).remove(ra).contains(rb));
                    vstd::set::axiom_set_remove_len(rep_set(dsu).remove(ra), rb);
                    assert(false);
                }
            }
        }
        // spanning: the selection connects exactly what the input connects
        assert forall|a: int, b: int|
            0 <= a < number_of_vertices && 0 <= b < number_of_vertices implies ((
        #[trigger] connected(edges0, a, b)) <==> connected(final_edges@, a, b)) by {
            assert(0 <= a < dsu.nodes@.len());
            if connected(final_edges@, a, b) {
                lemma_conn_lift(final_edges@, edges0, a, b);
            }
            if connected(edges0, a, b) {
                assert(same_set(dsu, a, b));
            }
        }
        // a connected input forces a spanning tree
        if number_of_vertices >= 1 && (forall|a: int, b: int|
            0 <= a < number_of_vertices && 0 <= b < number_of_vertices ==> #[trigger] connected(
                edges0,
                a,
                b,
            )) {
            lemma_rep_set_finite(dsu);
            let r0 = dsu.roots@[0];
            assert(rep_set(dsu).contains(r0));
            assert forall|rr: int| #[trigger] rep_set(dsu).contains(rr) implies rr == r0 by {
                assert(connected(edges0, rr, 0));
                assert(same_set(dsu, rr, 0));
            }
            assert(rep_set(dsu) =~= Set::<int>::empty().insert(r0));
            assert(num_sets(dsu) == 1);
            assert(final_edges@.len() == number_of_vertices - 1);
        }
        // the result equals the specified selection
        assert(stable_sorted(edges0) == sall);
        assert(greedy_select(sall.skip(i as int), final_edges@, stop) == final_edges@) by {
            if i as int == sall.len() {
                assert(sall.skip(i as int).len() == 0);
            } else {
                assert(merge_count >= number_of_vertices - 1);
                assert(final_edges@.len() >= stop);
            }
        }
        assert(final_edges@ == kruskal_spec(edges0, number_of_vertices as int));
    }
    Ok((total_cost, final_edges))
}

} // verus!
