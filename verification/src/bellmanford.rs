//! Negative-cycle detection over the rate graph (Bellman-Ford).
//!
//! Vertices are currencies, given dense indices in first-appearance order.
//! Edge weights are `-log10(rate)` in fixed point.  A currency cycle whose
//! compounded rate product exceeds one is exactly a cycle with negative
//! weight sum.  Every cycle returned by the finders is checked to be closed,
//! longer than two legs, made of graph edges, and of negative weight sum.

use vstd::prelude::*;
use vstd::pervasive::VecAdditionalExecFns;
use crate::logfp::{neg_log10_fp, spec_neg_log10_fp, WEIGHT_MAX};
use crate::strutil::str_eq;

verus! {

/// Largest number of edges the finder accepts; keeps all distance
/// arithmetic far inside `i128`.
pub const MAX_EDGES: usize = 1_000_000;

/// One directed edge of the rate graph.
#[derive(Debug)]
pub struct Edge {
    pub from: String,
    pub to: String,
    pub weight: i64,
}

/// The view of an edge: both currency names and the weight.
pub open spec fn edge_view(e: Edge) -> (Seq<char>, Seq<char>, i64) {
    (e.from@, e.to@, e.weight)
}

/// Consecutive edges hand their target currency to the next leg.
pub open spec fn linked(c: Seq<Edge>) -> bool {
    forall|i: int| 0 <= i < c.len() - 1 ==> (#[trigger] c[i]).to@ == c[i + 1].from@
}

/// The last edge returns to the first edge's source currency.
pub open spec fn closed(c: Seq<Edge>) -> bool {
    c.len() > 0 ==> c[c.len() - 1].to@ == c[0].from@
}

/// The sum of the edge weights.
pub open spec fn weight_sum(c: Seq<Edge>) -> int
    decreases c.len(),
{
    if c.len() == 0 {
        0
    } else {
        weight_sum(c.drop_last()) + c.last().weight
    }
}

/// The view of a whole cycle, edge by edge.
pub open spec fn cycle_view(c: Seq<Edge>) -> Seq<(Seq<char>, Seq<char>, i64)> {
    c.map_values(|e: Edge| edge_view(e))
}

/// Every edge of `c` occurs (by view) among `edges`.
pub open spec fn from_graph(edges: Seq<Edge>, c: Seq<Edge>) -> bool {
    forall|i: int| 0 <= i < c.len() ==> cycle_view(edges).contains(edge_view(#[trigger] c[i]))
}

/// A sound arbitrage cycle: at least three legs, structurally closed, and
/// with strictly negative weight sum (compounded rate product above one).
pub open spec fn is_negative_cycle(c: Seq<Edge>) -> bool {
    c.len() >= 3 && linked(c) && closed(c) && weight_sum(c) < 0
}

/// The names of a currency list.
pub open spec fn name_seq(cs: Seq<String>) -> Seq<Seq<char>> {
    cs.map_values(|s: String| s@)
}

/// Appends a currency if it is not present yet.
pub open spec fn insert_vertex(acc: Seq<Seq<char>>, s: Seq<char>) -> Seq<Seq<char>> {
    if acc.contains(s) {
        acc
    } else {
        acc.push(s)
    }
}

/// The vertex list built from the first `n` exchange rates, in
/// first-appearance order, source before target.
pub open spec fn spec_vertices(rates: Seq<(String, String, u64)>, n: int) -> Seq<Seq<char>>
    decreases n,
{
    if n <= 0 {
        Seq::empty()
    } else {
        insert_vertex(
            insert_vertex(spec_vertices(rates, n - 1), rates[n - 1].0@),
            rates[n - 1].1@,
        )
    }
}

/// The rate graph: edges with their currency names, the dense vertex list,
/// and per-edge vertex indices.
#[derive(Debug)]
pub struct BellmanFord {
    pub edges: Vec<Edge>,
    pub currencies: Vec<String>,
    pub links: Vec<(usize, usize)>,
}

impl BellmanFord {
    /// Well-formedness: indices in range and naming the edge endpoints,
    /// weights bounded, vertices distinct.
    pub open spec fn wf(self) -> bool {
        &&& self.links@.len() == self.edges@.len()
        &&& self.edges@.len() <= MAX_EDGES
        &&& self.currencies@.len() <= 2 * self.edges@.len()
        &&& forall|i: int|
            0 <= i < self.links@.len() ==> (#[trigger] self.links@[i]).0
                < self.currencies@.len() && self.links@[i].1 < self.currencies@.len()
        &&& forall|i: int|
            0 <= i < self.links@.len() ==> self.currencies@[(#[trigger] self.links@[i]).0 as int]@
                == self.edges@[i].from@ && self.currencies@[self.links@[i].1 as int]@
                == self.edges@[i].to@
        &&& forall|i: int|
            0 <= i < self.edges@.len() ==> -WEIGHT_MAX <= (#[trigger] self.edges@[i]).weight
                <= WEIGHT_MAX
        &&& forall|i: int, j: int|
            0 <= i < j < self.currencies@.len() ==> self.currencies@[i]@ != self.currencies@[j]@
    }

    /// Builds the graph from `(from, to, rate)` triples: one edge per triple
    /// with weight `-log10(rate)`, vertices indexed in first-appearance
    /// order.  Identical inputs give identical edges and indices.
    pub fn new(exchange_rates: &Vec<(String, String, u64)>) -> (bf: BellmanFord)
        requires
            exchange_rates@.len() <= MAX_EDGES,
            forall|i: int| 0 <= i < exchange_rates@.len() ==> (#[trigger] exchange_rates@[i]).2 >= 1,
        ensures
            bf.wf(),
            bf.edges@.len() == exchange_rates@.len(),
            forall|i: int|
                0 <= i < exchange_rates@.len() ==> (#[trigger] bf.edges@[i]).from@
                    == exchange_rates@[i].0@ && bf.edges@[i].to@ == exchange_rates@[i].1@
                    && bf.edges@[i].weight == spec_neg_log10_fp(exchange_rates@[i].2),
            name_seq(bf.currencies@) == spec_vertices(
                exchange_rates@,
                exchange_rates@.len() as int,
            ),
    {
        let mut edges: Vec<Edge> = Vec::new();
        let mut currencies: Vec<String> = Vec::new();
        let mut links: Vec<(usize, usize)> = Vec::new();
        let n = exchange_rates.len();
        let mut i: usize = 0;
        while i < n
            invariant
                n == exchange_rates@.len(),
                n <= MAX_EDGES,
                forall|k: int| 0 <= k < n ==> (#[trigger] exchange_rates@[k]).2 >= 1,
                i <= n,
                edges@.len() == i,
                links@.len() == i,
                currencies@.len() <= 2 * i,
                name_seq(currencies@) == spec_vertices(exchange_rates@, i as int),
                forall|a: int, b: int|
                    0 <= a < b < currencies@.len() ==> currencies@[a]@ != currencies@[b]@,
                forall|k: int|
                    0 <= k < i ==> (#[trigger] links@[k]).0 < currencies@.len() && links@[k].1
                        < currencies@.len(),
                forall|k: int|
                    0 <= k < i ==> currencies@[(#[trigger] links@[k]).0 as int]@ == edges@[k].from@
                        && currencies@[links@[k].1 as int]@ == edges@[k].to@,
                forall|k: int|
                    0 <= k < i ==> -WEIGHT_MAX <= (#[trigger] edges@[k]).weight <= WEIGHT_MAX,
                forall|k: int|
                    0 <= k < i ==> (#[trigger] edges@[k]).from@ == exchange_rates@[k].0@
                        && edges@[k].to@ == exchange_rates@[k].1@ && edges@[k].weight
                        == spec_neg_log10_fp(exchange_rates@[k].2),
            decreases n - i,
        {
            let from_idx = upsert_currency(&mut currencies, &exchange_rates[i].0);
            let to_idx = upsert_currency(&mut currencies, &exchange_rates[i].1);
            let w = neg_log10_fp(exchange_rates[i].2);
            let e = Edge {
                from: exchange_rates[i].0.clone(),
                to: exchange_rates[i].1.clone(),
                weight: w,
            };
            edges.push(e);
            links.push((from_idx, to_idx));
            proof {
                assert(currencies@[from_idx as int]@ == exchange_rates@[i as int].0@);
                assert(spec_vertices(exchange_rates@, i + 1) == insert_vertex(
                    insert_vertex(spec_vertices(exchange_rates@, i as int), exchange_rates@[
                    i as int].0@),
                    exchange_rates@[i as int].1@,
                ));
            }
            i = i + 1;
        }
        BellmanFord { edges, currencies, links }
    }
}

/// Returns the index of `s` in the currency list, appending it first if it
/// is not present.  Keeps the list duplicate-free and only grows it.
fn upsert_currency(cs: &mut Vec<String>, s: &String) -> (idx: usize)
    requires
        forall|a: int, b: int| 0 <= a < b < old(cs)@.len() ==> old(cs)@[a]@ != old(cs)@[b]@,
        old(cs)@.len() < usize::MAX,
    ensures
        forall|a: int, b: int|
            0 <= a < b < final(cs)@.len() ==> final(cs)@[a]@ != final(cs)@[b]@,
        idx < final(cs)@.len(),
        final(cs)@[idx as int]@ == s@,
        name_seq(final(cs)@) == insert_vertex(name_seq(old(cs)@), s@),
        final(cs)@.len() >= old(cs)@.len(),
        final(cs)@.len() <= old(cs)@.len() + 1,
        forall|j: int| 0 <= j < old(cs)@.len() ==> final(cs)@[j] == old(cs)@[j],
{
    let n = cs.len();
    let mut j: usize = 0;
    while j < n
        invariant
            cs@ == old(cs)@,
            n == cs@.len(),
            j <= n,
            forall|a: int, b: int| 0 <= a < b < cs@.len() ==> cs@[a]@ != cs@[b]@,
            forall|k: int| 0 <= k < j ==> cs@[k]@ != s@,
        decreases n - j,
    {
        if str_eq(cs[j].as_str(), s.as_str()) {
            proof {
                assert(name_seq(cs@)[j as int] == cs@[j as int]@);
                assert(name_seq(cs@).contains(s@));
            }
            return j;
        }
        j = j + 1;
    }
    proof {
        assert forall|k: int| 0 <= k < name_seq(cs@).len() implies name_seq(cs@)[k] != s@ by {
            assert(name_seq(cs@)[k] == cs@[k]@);
        }
        assert(!name_seq(cs@).contains(s@));
    }
    let ghost pre = cs@;
    cs.push(s.clone());
    proof {
        assert forall|a: int, b: int| 0 <= a < b < cs@.len() implies cs@[a]@ != cs@[b]@ by {
            if b < pre.len() {
            } else {
                assert(cs@[b]@ == s@);
                assert(name_seq(pre)[a] == pre[a]@);
            }
        }
        assert(name_seq(cs@) =~= name_seq(pre).push(s@)) by {
            assert forall|k: int| 0 <= k < cs@.len() implies name_seq(cs@)[k] == name_seq(
                pre,
            ).push(s@)[k] by {
                assert(name_seq(cs@)[k] == cs@[k]@);
                if k < pre.len() {
                    assert(name_seq(pre)[k] == pre[k]@);
                }
            }
        }
    }
    cs.len() - 1
}


/// Bound on every finite distance label produced by relaxation.
pub const DIST_BOUND: i128 = 3_000_000_000_000_000_000_000;

/// Checks the negative-cycle certificate at runtime: at least three legs,
/// consecutive legs linked, closed, and of negative weight sum.
pub fn cycle_is_valid(c: &Vec<Edge>) -> (r: bool)
    requires
        forall|i: int|
            0 <= i < c@.len() ==> -WEIGHT_MAX <= (#[trigger] c@[i]).weight <= WEIGHT_MAX,
    ensures
        r == is_negative_cycle(c@),
{
    let len = c.len();
    if len < 3 {
        return false;
    }
    let mut i: usize = 0;
    while i + 1 < len
        invariant
            len == c@.len(),
            i <= len - 1,
            forall|j: int| 0 <= j < i ==> (#[trigger] c@[j]).to@ == c@[j + 1].from@,
        decreases len - i,
    {
        if !str_eq(c[i].to.as_str(), c[i + 1].from.as_str()) {
            assert(!linked(c@));
            return false;
        }
        i = i + 1;
    }
    assert(linked(c@));
    if !str_eq(c[len - 1].to.as_str(), c[0].from.as_str()) {
        return false;
    }
    let mut acc: i128 = 0;
    let mut k: usize = 0;
    while k < len
        invariant
            len == c@.len(),
            k <= len,
            forall|j: int|
                0 <= j < c@.len() ==> -WEIGHT_MAX <= (#[trigger] c@[j]).weight <= WEIGHT_MAX,
            acc == weight_sum(c@.subrange(0, k as int)),
            -(k as int) * WEIGHT_MAX <= acc <= (k as int) * WEIGHT_MAX,
        decreases len - k,
    {
        proof {
            assert(c@.subrange(0, k + 1).drop_last() =~= c@.subrange(0, k as int));
            assert(c@.subrange(0, k + 1).last() == c@[k as int]);
            assert((k + 1) as int * WEIGHT_MAX <= 30_000_000_000_000_000_000_000_000_000)
                by (nonlinear_arith)
                requires
                    0 <= (k + 1) as int <= 20_000_000_000_000_000_000,
            ;
        }
        acc = acc + (c[k].weight as i128);
        k = k + 1;
    }
    proof {
        assert(c@.subrange(0, len as int) =~= c@);
    }
    acc < 0
}

/// Whether two cycles hold the same edges in the same order.
fn cycles_eq(a: &Vec<Edge>, b: &Vec<Edge>) -> (r: bool)
    ensures
        r == (cycle_view(a@) == cycle_view(b@)),
{
    if a.len() != b.len() {
        assert(cycle_view(a@).len() != cycle_view(b@).len());
        return false;
    }
    let len = a.len();
    let mut i: usize = 0;
    while i < len
        invariant
            len == a@.len(),
            len == b@.len(),
            i <= len,
            forall|j: int| 0 <= j < i ==> edge_view(#[trigger] a@[j]) == edge_view(b@[j]),
        decreases len - i,
    {
        let same = str_eq(a[i].from.as_str(), b[i].from.as_str()) && str_eq(
            a[i].to.as_str(),
            b[i].to.as_str(),
        ) && a[i].weight == b[i].weight;
        if !same {
            assert(cycle_view(a@)[i as int] != cycle_view(b@)[i as int]);
            return false;
        }
        i = i + 1;
    }
    proof {
        assert(cycle_view(a@) =~= cycle_view(b@));
    }
    true
}

/// Whether an equal cycle is already present.
fn contains_cycle(cycles: &Vec<Vec<Edge>>, c: &Vec<Edge>) -> (r: bool)
    ensures
        r == exists|k: int|
            0 <= k < cycles@.len() && cycle_view((#[trigger] cycles@[k])@) == cycle_view(c@),
{
    let mut i: usize = 0;
    while i < cycles.len()
        invariant
            i <= cycles@.len(),
            forall|k: int| 0 <= k < i ==> cycle_view((#[trigger] cycles@[k])@) != cycle_view(c@),
        decreases cycles@.len() - i,
    {
        if cycles_eq(&cycles[i], c) {
            return true;
        }
        i = i + 1;
    }
    false
}

/// Whether the endpoint pair `(u, v)` was already claimed by a reported cycle.
fn pair_visited(pairs: &Vec<(usize, usize)>, u: usize, v: usize) -> (r: bool)
    ensures
        r == exists|k: int| 0 <= k < pairs@.len() && #[trigger] pairs@[k] == (u, v),
{
    let mut i: usize = 0;
    while i < pairs.len()
        invariant
            i <= pairs@.len(),
            forall|k: int| 0 <= k < i ==> #[trigger] pairs@[k] != (u, v),
        decreases pairs@.len() - i,
    {
        if pairs[i].0 == u && pairs[i].1 == v {
            return true;
        }
        i = i + 1;
    }
    false
}

/// One relaxation state: distance labels, predecessor edge indices, and
/// whether the pass so far changed anything.
pub type RelaxState = (Seq<Option<i128>>, Seq<Option<usize>>, bool);

/// One relaxation pass over the first `j` edges.
pub open spec fn spec_pass(
    links: Seq<(usize, usize)>,
    weights: Seq<i64>,
    s: RelaxState,
    j: int,
) -> RelaxState
    decreases j,
{
    if j <= 0 {
        s
    } else {
        let prev = spec_pass(links, weights, s, j - 1);
        let u = links[j - 1].0;
        let v = links[j - 1].1;
        match prev.0[u as int] {
            None => prev,
            Some(du) => {
                let nd = ((du as int) + (weights[j - 1] as int)) as i128;
                let better = match prev.0[v as int] {
                    None => true,
                    Some(dv) => nd < dv,
                };
                if better {
                    (
                        prev.0.update(v as int, Some(nd)),
                        prev.1.update(v as int, Some((j - 1) as usize)),
                        true,
                    )
                } else {
                    prev
                }
            },
        }
    }
}

/// The state after `r` full passes over all edges.
pub open spec fn spec_rounds(
    links: Seq<(usize, usize)>,
    weights: Seq<i64>,
    s: (Seq<Option<i128>>, Seq<Option<usize>>),
    r: int,
) -> (Seq<Option<i128>>, Seq<Option<usize>>)
    decreases r,
{
    if r <= 0 {
        s
    } else {
        let prev = spec_rounds(links, weights, s, r - 1);
        let next = spec_pass(links, weights, (prev.0, prev.1, false), links.len() as int);
        (next.0, next.1)
    }
}

/// The initial labels: the source vertex at zero, everything else
/// unreached.
pub open spec fn spec_init_dist(n: int) -> Seq<Option<i128>> {
    Seq::new(n as nat, |i: int| if i == 0 { Some(0i128) } else { None })
}

/// The labels and predecessors after running the full relaxation.
pub open spec fn spec_relaxed(bf: BellmanFord) -> (Seq<Option<i128>>, Seq<Option<usize>>) {
    let n = bf.currencies@.len() as int;
    spec_rounds(
        bf.links@,
        bf.edges@.map_values(|e: Edge| e.weight),
        (spec_init_dist(n), Seq::new(n as nat, |i: int| None)),
        n,
    )
}

/// A pass that changed nothing left the state as it was.
proof fn lemma_pass_stable(links: Seq<(usize, usize)>, weights: Seq<i64>, s: RelaxState, j: int)
    requires
        !spec_pass(links, weights, s, j).2,
        !s.2,
    ensures
        spec_pass(links, weights, s, j) == s,
    decreases j,
{
    if j > 0 {
        let prev = spec_pass(links, weights, s, j - 1);
        assert(!prev.2);
        lemma_pass_stable(links, weights, s, j - 1);
    }
}

/// Once a full pass changes nothing, further rounds change nothing.
proof fn lemma_rounds_stable(
    links: Seq<(usize, usize)>,
    weights: Seq<i64>,
    s: (Seq<Option<i128>>, Seq<Option<usize>>),
    r: int,
    k: int,
)
    requires
        0 <= r <= k,
        !spec_pass(
            links,
            weights,
            (spec_rounds(links, weights, s, r).0, spec_rounds(links, weights, s, r).1, false),
            links.len() as int,
        ).2,
    ensures
        spec_rounds(links, weights, s, k) == spec_rounds(links, weights, s, r),
    decreases k - r,
{
    if r < k {
        lemma_pass_stable(
            links,
            weights,
            (spec_rounds(links, weights, s, r).0, spec_rounds(links, weights, s, r).1, false),
            links.len() as int,
        );
        assert(spec_rounds(links, weights, s, r + 1) == spec_rounds(links, weights, s, r));
        lemma_rounds_stable(links, weights, s, r + 1, k);
    }
}

impl BellmanFord {
    /// Runs Bellman-Ford relaxation from source vertex 0 for as many rounds
    /// as there are vertices (optionally stopping early when a round changes
    /// nothing), returning distance labels and the predecessor edge of each
    /// vertex.
    fn relax(&self, early_exit: bool) -> (r: (Vec<Option<i128>>, Vec<Option<usize>>))
        requires
            self.wf(),
            self.currencies@.len() > 0,
        ensures
            r.0@.len() == self.currencies@.len(),
            r.1@.len() == self.currencies@.len(),
            forall|v: int|
                0 <= v < r.1@.len() ==> ((#[trigger] r.1@[v]) is Some ==> r.1@[v]->0
                    < self.edges@.len() && self.links@[r.1@[v]->0 as int].1 == v),
            forall|v: int|
                0 <= v < r.0@.len() ==> ((#[trigger] r.0@[v]) is Some ==> -DIST_BOUND <= r.0@[v]->0
                    <= DIST_BOUND),
            (r.0@, r.1@) == spec_relaxed(*self),
    {
        let n = self.currencies.len();
        let m = self.edges.len();
        let ghost links = self.links@;
        let ghost ws = self.edges@.map_values(|e: Edge| e.weight);
        let ghost init = (
            spec_init_dist(n as int),
            Seq::new(n as nat, |i: int| None::<usize>),
        );
        let mut dist: Vec<Option<i128>> = Vec::new();
        let mut pred: Vec<Option<usize>> = Vec::new();
        let mut t: usize = 0;
        while t < n
            invariant
                t <= n,
                dist@.len() == t,
                pred@.len() == t,
                forall|v: int| 0 <= v < t ==> (#[trigger] dist@[v]) is None,
                forall|v: int| 0 <= v < t ==> (#[trigger] pred@[v]) is None,
            decreases n - t,
        {
            dist.push(None);
            pred.push(None);
            t = t + 1;
        }
        dist.set(0, Some(0));
        proof {
            assert(dist@ =~= init.0);
            assert(pred@ =~= init.1);
        }
        let ghost mut relaxed: int = 0;

        let mut round: usize = 0;
        while round < n
            invariant
                self.wf(),
                n == self.currencies@.len(),
                m == self.edges@.len(),
                round <= n,
                dist@.len() == n,
                pred@.len() == n,
                0 <= relaxed,
                relaxed <= round * m,
                forall|v: int|
                    0 <= v < n ==> ((#[trigger] pred@[v]) is Some ==> pred@[v]->0
                        < self.edges@.len() && self.links@[pred@[v]->0 as int].1 == v),
                forall|v: int|
                    0 <= v < n ==> ((#[trigger] dist@[v]) is Some ==> -(relaxed + 1) * WEIGHT_MAX
                        <= dist@[v]->0 <= (relaxed + 1) * WEIGHT_MAX),
                links == self.links@,
                ws == self.edges@.map_values(|e: Edge| e.weight),
                init == (
                    spec_init_dist(n as int),
                    Seq::new(n as nat, |i: int| None::<usize>),
                ),
                (dist@, pred@) == spec_rounds(links, ws, init, round as int),
            ensures
                (dist@, pred@) == spec_rounds(links, ws, init, n as int),
            decreases n - round,
        {
            let ghost rs = (dist@, pred@);
            let mut updated = false;
            let mut j: usize = 0;
            while j < m
                invariant
                    self.wf(),
                    n == self.currencies@.len(),
                    m == self.edges@.len(),
                    round < n,
                    j <= m,
                    dist@.len() == n,
                    pred@.len() == n,
                    0 <= relaxed,
                    relaxed <= round * m + j,
                    forall|v: int|
                        0 <= v < n ==> ((#[trigger] pred@[v]) is Some ==> pred@[v]->0
                            < self.edges@.len() && self.links@[pred@[v]->0 as int].1 == v),
                    forall|v: int|
                        0 <= v < n ==> ((#[trigger] dist@[v]) is Some ==> -(relaxed + 1)
                            * WEIGHT_MAX <= dist@[v]->0 <= (relaxed + 1) * WEIGHT_MAX),
                    links == self.links@,
                    ws == self.edges@.map_values(|e: Edge| e.weight),
                    (dist@, pred@, updated) == spec_pass(links, ws, (rs.0, rs.1, false), j as int),
                decreases m - j,
            {
                proof {
                    assert(ws[j as int] == self.edges@[j as int].weight);
                }
                let ghost before = (dist@, pred@, updated);
                let (u, v) = self.links[j];
                if let Some(du) = dist[u] {
                    proof {
                        assert(relaxed + 2 <= n as int * m as int + m as int + 2)
                            by (nonlinear_arith)
                            requires
                                relaxed <= round as int * m as int + j as int,
                                0 <= round as int <= n as int - 1,
                                0 <= j as int <= m as int,
                                0 <= m as int,
                        ;
                        assert((n as int * m as int + m as int + 2) * WEIGHT_MAX <= DIST_BOUND)
                            by (nonlinear_arith)
                            requires
                                0 <= n as int <= 2_000_000,
                                0 <= m as int <= 1_000_000,
                        ;
                        assert((relaxed + 2) * WEIGHT_MAX <= DIST_BOUND) by (nonlinear_arith)
                            requires
                                0 <= relaxed + 2 <= n as int * m as int + m as int + 2,
                                (n as int * m as int + m as int + 2) * WEIGHT_MAX <= DIST_BOUND,
                        ;
                        assert((relaxed + 1) * WEIGHT_MAX + WEIGHT_MAX == (relaxed + 2)
                            * WEIGHT_MAX) by (nonlinear_arith);
                    }
                    let nd: i128 = du + (self.edges[j].weight as i128);
                    let better = match dist[v] {
                        None => true,
                        Some(dv) => nd < dv,
                    };
                    if better {
                        dist.set(v, Some(nd));
                        pred.set(v, Some(j));
                        updated = true;
                        proof {
                            relaxed = relaxed + 1;
                        }
                    }
                }
                proof {
                    assert(spec_pass(links, ws, (rs.0, rs.1, false), j + 1) == (
                    dist@,
                    pred@,
                    updated,
                ));
                }
                j = j + 1;
            }
            proof {
                assert((round as int + 1) * m as int == round as int * m as int + m as int)
                    by (nonlinear_arith);
                assert(spec_rounds(links, ws, init, round as int + 1) == (dist@, pred@));
            }
            round = round + 1;
            if early_exit && !updated {
                proof {
                    // A pass that changed nothing has reached the fixed
                    // point: the remaining rounds change nothing either.
                    lemma_pass_stable(links, ws, (rs.0, rs.1, false), m as int);
                    lemma_rounds_stable(links, ws, init, round as int - 1, n as int);
                }
                break;
            }
        }
        proof {
            assert(relaxed + 2 <= n as int * m as int + m as int + 2) by (nonlinear_arith)
                requires
                    relaxed <= round as int * m as int,
                    0 <= round as int <= n as int,
                    0 <= m as int,
            ;
            assert forall|v: int|
                0 <= v < n && (#[trigger] dist@[v]) is Some implies -DIST_BOUND <= dist@[v]->0
                <= DIST_BOUND by {
                assert((relaxed + 2) * WEIGHT_MAX <= DIST_BOUND) by (nonlinear_arith)
                    requires
                        0 <= relaxed + 2 <= n as int * m as int + m as int + 2,
                        0 <= n as int <= 2_000_000,
                        0 <= m as int <= 1_000_000,
                ;
                assert((relaxed + 1) * WEIGHT_MAX <= (relaxed + 2) * WEIGHT_MAX)
                    by (nonlinear_arith)
                    requires
                        relaxed >= 0,
                ;
            }
        }
        (dist, pred)
    }

    /// Phase one of reconstruction: walk predecessors from `current`,
    /// marking vertices, until one repeats (the loop's entry), the chain
    /// dies out, or the step allowance runs dry.
    pub open spec fn spec_find_entry(
        links: Seq<(usize, usize)>,
        pred: Seq<Option<usize>>,
        visited: Seq<bool>,
        current: int,
        rem: int,
    ) -> Option<int>
        decreases rem,
    {
        if rem <= 0 {
            None
        } else {
            match pred[current] {
                None => None,
                Some(e) => {
                    if visited[current] {
                        Some(current)
                    } else {
                        Self::spec_find_entry(
                            links,
                            pred,
                            visited.update(current, true),
                            links[e as int].0 as int,
                            rem - 1,
                        )
                    }
                },
            }
        }
    }

    /// Phase two: collect the loop's edge indices from the entry, last leg
    /// first.
    pub open spec fn spec_collect(
        links: Seq<(usize, usize)>,
        pred: Seq<Option<usize>>,
        visited: Seq<bool>,
        current: int,
        rem: int,
    ) -> Seq<usize>
        decreases rem,
    {
        if rem <= 0 {
            Seq::empty()
        } else {
            match pred[current] {
                None => Seq::empty(),
                Some(e) => {
                    if visited[current] {
                        Seq::empty()
                    } else {
                        seq![e] + Self::spec_collect(
                            links,
                            pred,
                            visited.update(current, true),
                            links[e as int].0 as int,
                            rem - 1,
                        )
                    }
                },
            }
        }
    }

    /// The certificate gate of reconstruction: anything shorter than three
    /// legs, unlinked, or unclosed is discarded.
    pub open spec fn spec_certify(links: Seq<(usize, usize)>, c: Seq<usize>) -> Seq<usize> {
        if c.len() >= 3 && (forall|i: int|
            0 <= i < c.len() - 1 ==> (#[trigger] links[c[i] as int]).1 == links[c[i + 1] as int].0)
            && links[c[c.len() - 1] as int].1 == links[c[0] as int].0 {
            c
        } else {
            Seq::empty()
        }
    }

    /// The whole reconstruction from `start`, as the walk computes it.
    pub open spec fn spec_construct(
        links: Seq<(usize, usize)>,
        pred: Seq<Option<usize>>,
        n: int,
        start: int,
    ) -> Seq<usize> {
        let fresh = Seq::new(n as nat, |i: int| false);
        match Self::spec_find_entry(links, pred, fresh, start, n + 1) {
            None => Seq::empty(),
            Some(entry) => Self::spec_certify(
                links,
                Self::spec_collect(links, pred, fresh, entry, n + 1).reverse(),
            ),
        }
    }

    /// Walks the predecessor edges from `start` to locate the loop they
    /// form, then collects that loop's edge indices in trade order.  A
    /// non-empty result is a certified reconstruction: at least three legs,
    /// consecutive legs linked through the vertex indices, and closed; a
    /// walk that yields anything shorter (the spurious two-edge
    /// reciprocation) or unlinked comes back empty.
    fn construct_cycle(&self, start: usize, pred: &Vec<Option<usize>>) -> (r: Vec<usize>)
        requires
            self.wf(),
            pred@.len() == self.currencies@.len(),
            start < self.currencies@.len(),
            forall|v: int|
                0 <= v < pred@.len() ==> ((#[trigger] pred@[v]) is Some ==> pred@[v]->0
                    < self.edges@.len() && self.links@[pred@[v]->0 as int].1 == v),
        ensures
            forall|i: int| 0 <= i < r@.len() ==> (#[trigger] r@[i]) < self.edges@.len(),
            r@.len() == 0 || (r@.len() >= 3 && (forall|i: int|
                0 <= i < r@.len() - 1 ==> (#[trigger] self.links@[r@[i] as int]).1
                    == self.links@[r@[i + 1] as int].0) && self.links@[r@[r@.len() - 1] as int].1
                == self.links@[r@[0] as int].0),
            r@ == Self::spec_construct(
                self.links@,
                pred@,
                self.currencies@.len() as int,
                start as int,
            ),
    {
        let n = self.currencies.len();
        let ghost links = self.links@;
        let ghost fresh = Seq::new(n as nat, |i: int| false);
        let mut visited: Vec<bool> = Vec::new();
        let mut t: usize = 0;
        while t < n
            invariant
                t <= n,
                visited@.len() == t,
                forall|k: int| 0 <= k < t ==> !(#[trigger] visited@[k]),
            decreases n - t,
        {
            visited.push(false);
            t = t + 1;
        }
        proof {
            assert(visited@ =~= fresh);
        }

        // Find the entry vertex of the predecessor loop.
        let mut current = start;
        let mut entry: Option<usize> = None;
        let mut steps: usize = 0;
        while steps <= n
            invariant_except_break
                entry is None,
            invariant
                self.wf(),
                n == self.currencies@.len(),
                links == self.links@,
                pred@.len() == n,
                visited@.len() == n,
                current < n,
                steps <= n + 1,
                Self::spec_find_entry(links, pred@, fresh, start as int, n + 1)
                    == Self::spec_find_entry(
                    links,
                    pred@,
                    visited@,
                    current as int,
                    n + 1 - steps,
                ),
                forall|v: int|
                    0 <= v < pred@.len() ==> ((#[trigger] pred@[v]) is Some ==> pred@[v]->0
                        < self.edges@.len() && self.links@[pred@[v]->0 as int].1 == v),
            ensures
                match entry {
                    None => Self::spec_find_entry(links, pred@, fresh, start as int, n + 1)
                        is None,
                    Some(en) => en < n && Self::spec_find_entry(
                        links,
                        pred@,
                        fresh,
                        start as int,
                        n + 1,
                    ) == Some(en as int),
                },
            decreases n + 1 - steps,
        {
            match pred[current] {
                None => {
                    break;
                },
                Some(e) => {
                    if visited[current] {
                        entry = Some(current);
                        break;
                    }
                    visited.set(current, true);
                    current = self.links[e].0;
                },
            }
            steps = steps + 1;
        }
        let entry_v = match entry {
            None => {
                let none_found: Vec<usize> = Vec::new();
                proof {
                    assert(none_found@ =~= Seq::<usize>::empty());
                }
                return none_found;
            },
            Some(v) => v,
        };

        // Collect the loop's edges, last leg first.
        let mut visited2: Vec<bool> = Vec::new();
        let mut t2: usize = 0;
        while t2 < n
            invariant
                t2 <= n,
                visited2@.len() == t2,
                forall|k: int| 0 <= k < t2 ==> !(#[trigger] visited2@[k]),
            decreases n - t2,
        {
            visited2.push(false);
            t2 = t2 + 1;
        }
        proof {
            assert(visited2@ =~= fresh);
        }
        let mut rev: Vec<usize> = Vec::new();
        current = entry_v;
        let mut steps2: usize = 0;
        while steps2 <= n
            invariant
                self.wf(),
                n == self.currencies@.len(),
                links == self.links@,
                pred@.len() == n,
                visited2@.len() == n,
                current < n,
                steps2 <= n + 1,
                forall|i: int| 0 <= i < rev@.len() ==> (#[trigger] rev@[i]) < self.edges@.len(),
                rev@.len() <= steps2,
                Self::spec_collect(links, pred@, fresh, entry_v as int, n + 1) == rev@
                    + Self::spec_collect(links, pred@, visited2@, current as int, n + 1 - steps2),
                forall|v: int|
                    0 <= v < pred@.len() ==> ((#[trigger] pred@[v]) is Some ==> pred@[v]->0
                        < self.edges@.len() && self.links@[pred@[v]->0 as int].1 == v),
            ensures
                rev@ == Self::spec_collect(links, pred@, fresh, entry_v as int, n + 1),
                forall|i: int| 0 <= i < rev@.len() ==> (#[trigger] rev@[i]) < self.edges@.len(),
            decreases n + 1 - steps2,
        {
            let ghost rev_pre = rev@;
            match pred[current] {
                None => {
                    proof {
                        assert(Self::spec_collect(
                            links,
                            pred@,
                            visited2@,
                            current as int,
                            n + 1 - steps2,
                        ) =~= Seq::<usize>::empty());
                        assert(rev@ + Seq::<usize>::empty() =~= rev@);
                    }
                    break;
                },
                Some(e) => {
                    if visited2[current] {
                        proof {
                            assert(Self::spec_collect(
                                links,
                                pred@,
                                visited2@,
                                current as int,
                                n + 1 - steps2,
                            ) =~= Seq::<usize>::empty());
                            assert(rev@ + Seq::<usize>::empty() =~= rev@);
                        }
                        break;
                    }
                    visited2.set(current, true);
                    rev.push(e);
                    proof {
                        assert(rev@ =~= rev_pre.push(e));
                        assert(rev_pre + (seq![e] + Self::spec_collect(
                            links,
                            pred@,
                            visited2@,
                            links[e as int].0 as int,
                            n + 1 - steps2 - 1,
                        )) =~= rev@ + Self::spec_collect(
                            links,
                            pred@,
                            visited2@,
                            links[e as int].0 as int,
                            n + 1 - steps2 - 1,
                        ));
                    }
                    current = self.links[e].0;
                },
            }
            steps2 = steps2 + 1;
        }
        proof {
            if steps2 > n {
                assert(rev@ + Self::spec_collect(
                    links,
                    pred@,
                    visited2@,
                    current as int,
                    n + 1 - steps2,
                ) =~= rev@);
            }
        }

        // Reverse so the edges follow trade direction.
        let mut out: Vec<usize> = Vec::new();
        let mut i = rev.len();
        while i > 0
            invariant
                i <= rev@.len(),
                out@.len() == rev@.len() - i,
                forall|k: int| 0 <= k < rev@.len() ==> (#[trigger] rev@[k]) < self.edges@.len(),
                forall|k: int| 0 <= k < out@.len() ==> (#[trigger] out@[k]) < self.edges@.len(),
                forall|k: int|
                    0 <= k < out@.len() ==> (#[trigger] out@[k]) == rev@[rev@.len() - 1 - k],
            decreases i,
        {
            i = i - 1;
            out.push(rev[i]);
        }
        proof {
            assert(out@ =~= rev@.reverse());
        }

        // Certify the reconstruction: discard anything shorter than three
        // legs, unlinked, or unclosed.
        if out.len() < 3 {
            let discarded: Vec<usize> = Vec::new();
            proof {
                assert(Self::spec_certify(links, out@) =~= Seq::<usize>::empty());
                assert(discarded@ =~= Seq::<usize>::empty());
            }
            return discarded;
        }
        let len = out.len();
        let mut t3: usize = 0;
        while t3 + 1 < len
            invariant
                self.wf(),
                links == self.links@,
                n == self.currencies@.len(),
                len == out@.len(),
                3 <= len,
                t3 <= len - 1,
                forall|k: int| 0 <= k < out@.len() ==> (#[trigger] out@[k]) < self.edges@.len(),
                forall|k: int|
                    0 <= k < t3 ==> (#[trigger] self.links@[out@[k] as int]).1 == self.links@[out@[
                    k + 1] as int].0,
                Self::spec_construct(links, pred@, n as int, start as int) == Self::spec_certify(
                    links,
                    out@,
                ),
            ensures
                forall|k: int|
                    0 <= k < len - 1 ==> (#[trigger] self.links@[out@[k] as int]).1
                        == self.links@[out@[k + 1] as int].0,
            decreases len - t3,
        {
            if self.links[out[t3]].1 != self.links[out[t3 + 1]].0 {
                let discarded: Vec<usize> = Vec::new();
                proof {
                    assert(Self::spec_certify(links, out@) =~= Seq::<usize>::empty());
                    assert(discarded@ =~= Seq::<usize>::empty());
                }
                return discarded;
            }
            t3 = t3 + 1;
        }
        if self.links[out[len - 1]].1 != self.links[out[0]].0 {
            let discarded: Vec<usize> = Vec::new();
            proof {
                assert(Self::spec_certify(links, out@) =~= Seq::<usize>::empty());
                assert(discarded@ =~= Seq::<usize>::empty());
            }
            return discarded;
        }
        proof {
            assert(Self::spec_certify(links, out@) =~= out@);
        }
        out
    }

    /// Copies the edges at the given indices out of the graph.
    fn edges_of(&self, idxs: &Vec<usize>) -> (r: Vec<Edge>)
        requires
            self.wf(),
            forall|i: int| 0 <= i < idxs@.len() ==> (#[trigger] idxs@[i]) < self.edges@.len(),
        ensures
            r@.len() == idxs@.len(),
            from_graph(self.edges@, r@),
            forall|i: int|
                0 <= i < r@.len() ==> -WEIGHT_MAX <= (#[trigger] r@[i]).weight <= WEIGHT_MAX,
            r@ == Self::spec_cycle_edges(*self, idxs@),
    {
        let mut r: Vec<Edge> = Vec::new();
        let mut i: usize = 0;
        while i < idxs.len()
            invariant
                self.wf(),
                forall|k: int| 0 <= k < idxs@.len() ==> (#[trigger] idxs@[k]) < self.edges@.len(),
                i <= idxs@.len(),
                r@.len() == i,
                forall|k: int|
                    0 <= k < i ==> edge_view(#[trigger] r@[k]) == edge_view(
                        self.edges@[idxs@[k] as int],
                    ),
                forall|k: int| 0 <= k < i ==> #[trigger] r@[k] == self.edges@[idxs@[k] as int],
                forall|k: int|
                    0 <= k < i ==> -WEIGHT_MAX <= (#[trigger] r@[k]).weight <= WEIGHT_MAX,
            decreases idxs@.len() - i,
        {
            let e = &self.edges[idxs[i]];
            r.push(Edge { from: e.from.clone(), to: e.to.clone(), weight: e.weight });
            proof {
                assert(r@.last() == self.edges@[idxs@[i as int] as int]);
            }
            i = i + 1;
        }
        proof {
            assert(r@ =~= Self::spec_cycle_edges(*self, idxs@));
        }
        proof {
            assert forall|k: int|
                0 <= k < r@.len() implies cycle_view(self.edges@).contains(
                edge_view(#[trigger] r@[k]),
            ) by {
                let jj = idxs@[k] as int;
                assert(cycle_view(self.edges@)[jj] == edge_view(r@[k]));
            }
            assert(from_graph(self.edges@, r@));
        }
        r
    }

    /// Whether an edge still admits relaxation against the given labels.
    pub open spec fn spec_violates(bf: BellmanFord, dist: Seq<Option<i128>>, j: int) -> bool {
        let u = bf.links@[j].0;
        let v = bf.links@[j].1;
        match dist[u as int] {
            None => false,
            Some(du) => {
                let nd = (du as int) + (bf.edges@[j].weight as int);
                match dist[v as int] {
                    None => true,
                    Some(dv) => nd < dv as int,
                }
            },
        }
    }

    /// The edges at the given indices.
    pub open spec fn spec_cycle_edges(bf: BellmanFord, c: Seq<usize>) -> Seq<Edge> {
        c.map_values(|idx: usize| bf.edges@[idx as int])
    }

    /// The scan from edge `j` on: the reconstruction of the first violating
    /// edge whose predecessor loop certifies as a negative cycle.
    pub open spec fn spec_scan(
        bf: BellmanFord,
        dist: Seq<Option<i128>>,
        pred: Seq<Option<usize>>,
        j: int,
    ) -> Option<Seq<Edge>>
        decreases bf.links@.len() - j,
    {
        if j < 0 || j >= bf.links@.len() {
            None
        } else if Self::spec_violates(bf, dist, j) {
            let cyc = Self::spec_cycle_edges(
                bf,
                Self::spec_construct(
                    bf.links@,
                    pred,
                    bf.currencies@.len() as int,
                    bf.links@[j].1 as int,
                ),
            );
            if is_negative_cycle(cyc) {
                Some(cyc)
            } else {
                Self::spec_scan(bf, dist, pred, j + 1)
            }
        } else {
            Self::spec_scan(bf, dist, pred, j + 1)
        }
    }

    /// The single-cycle finder, as a function of the graph: relax, then
    /// scan.
    pub open spec fn spec_find_negative_cycle(bf: BellmanFord) -> Option<Seq<Edge>> {
        if bf.currencies@.len() == 0 {
            None
        } else {
            let labels = spec_relaxed(bf);
            Self::spec_scan(bf, labels.0, labels.1, 0)
        }
    }

    /// Finds one arbitrage cycle, if the relaxed labels expose a violating
    /// edge whose predecessor loop is a sound cycle of three or more legs.
    /// A reconstruction of two or fewer legs is the spurious base/quote
    /// reciprocation pair and is discarded.  The contract states soundness
    /// of every returned cycle; that a cycle is found whenever the graph
    /// holds one is exercised by the end-to-end tests, not stated.
    pub fn find_negative_cycle(&self) -> (r: Option<Vec<Edge>>)
        requires
            self.wf(),
        ensures
            r is Some ==> is_negative_cycle(r->0@) && from_graph(self.edges@, r->0@),
            match r {
                Some(c) => Self::spec_find_negative_cycle(*self) == Some(c@),
                None => Self::spec_find_negative_cycle(*self) is None,
            },
    {
        let n = self.currencies.len();
        if n == 0 {
            return None;
        }
        let (dist, pred) = self.relax(true);
        let m = self.edges.len();
        let mut j: usize = 0;
        while j < m
            invariant
                self.wf(),
                n == self.currencies@.len(),
                n > 0,
                m == self.edges@.len(),
                j <= m,
                dist@.len() == self.currencies@.len(),
                pred@.len() == self.currencies@.len(),
                (dist@, pred@) == spec_relaxed(*self),
                Self::spec_scan(*self, dist@, pred@, 0) == Self::spec_scan(
                    *self,
                    dist@,
                    pred@,
                    j as int,
                ),
                forall|v: int|
                    0 <= v < dist@.len() ==> ((#[trigger] dist@[v]) is Some ==> -DIST_BOUND
                        <= dist@[v]->0 <= DIST_BOUND),
                forall|v: int|
                    0 <= v < pred@.len() ==> ((#[trigger] pred@[v]) is Some ==> pred@[v]->0
                        < self.edges@.len() && self.links@[pred@[v]->0 as int].1 == v),
            decreases m - j,
        {
            let (u, v) = self.links[j];
            if let Some(du) = dist[u] {
                let nd: i128 = du + (self.edges[j].weight as i128);
                let violating = match dist[v] {
                    None => true,
                    Some(dv) => nd < dv,
                };
                proof {
                    assert(violating == Self::spec_violates(*self, dist@, j as int));
                }
                if violating {
                    let idxs = self.construct_cycle(v, &pred);
                    let cyc = self.edges_of(&idxs);
                    if cycle_is_valid(&cyc) {
                        proof {
                            assert(Self::spec_scan(*self, dist@, pred@, j as int) == Some(cyc@));
                        }
                        return Some(cyc);
                    }
                }
            }
            j = j + 1;
        }
        None
    }

    /// Finds all disjoint arbitrage cycles exposed by the relaxed labels:
    /// each violating edge whose endpoint pair is not already claimed by a
    /// reported cycle is reconstructed, validated, and deduplicated.  The
    /// contract states soundness and pairwise distinctness of the returned
    /// cycles; that each was triggered by a violating edge with a fresh
    /// endpoint pair concerns the scan, not the result, and is not a
    /// function of the output.
    /// The endpoint pairs of the edges at the given indices.
    pub open spec fn spec_pairs_of(bf: BellmanFord, idxs: Seq<usize>) -> Seq<(usize, usize)> {
        idxs.map_values(|idx: usize| bf.links@[idx as int])
    }

    /// The all-cycles scan from edge `j` on: each violating edge whose
    /// endpoint pair is not already claimed is reconstructed, validated,
    /// its pairs claimed, and its cycle kept unless an equal one is present.
    pub open spec fn spec_scan_all(
        bf: BellmanFord,
        dist: Seq<Option<i128>>,
        pred: Seq<Option<usize>>,
        j: int,
        pairs: Seq<(usize, usize)>,
        acc: Seq<Seq<Edge>>,
    ) -> Seq<Seq<Edge>>
        decreases bf.links@.len() - j,
    {
        if j < 0 || j >= bf.links@.len() {
            acc
        } else if pairs.contains(bf.links@[j]) {
            Self::spec_scan_all(bf, dist, pred, j + 1, pairs, acc)
        } else if Self::spec_violates(bf, dist, j) {
            let idxs = Self::spec_construct(
                bf.links@,
                pred,
                bf.currencies@.len() as int,
                bf.links@[j].1 as int,
            );
            let cyc = Self::spec_cycle_edges(bf, idxs);
            if is_negative_cycle(cyc) {
                let pairs2 = pairs + Self::spec_pairs_of(bf, idxs);
                let acc2 = if exists|k: int|
                    0 <= k < acc.len() && cycle_view(#[trigger] acc[k]) == cycle_view(cyc) {
                    acc
                } else {
                    acc.push(cyc)
                };
                Self::spec_scan_all(bf, dist, pred, j + 1, pairs2, acc2)
            } else {
                Self::spec_scan_all(bf, dist, pred, j + 1, pairs, acc)
            }
        } else {
            Self::spec_scan_all(bf, dist, pred, j + 1, pairs, acc)
        }
    }

    /// The all-cycles finder, as a function of the graph.
    pub open spec fn spec_find_all_negative_cycles(bf: BellmanFord) -> Seq<Seq<Edge>> {
        if bf.currencies@.len() == 0 {
            Seq::empty()
        } else {
            let labels = spec_relaxed(bf);
            Self::spec_scan_all(bf, labels.0, labels.1, 0, Seq::empty(), Seq::empty())
        }
    }

    #[verifier::rlimit(60)]
    pub fn find_all_negative_cycles(&self) -> (r: Vec<Vec<Edge>>)
        requires
            self.wf(),
        ensures
            forall|k: int|
                0 <= k < r@.len() ==> is_negative_cycle((#[trigger] r@[k])@) && from_graph(
                    self.edges@,
                    r@[k]@,
                ),
            forall|a: int, b: int|
                0 <= a < b < r@.len() ==> cycle_view(r@[a]@) != cycle_view(r@[b]@),
            r@.map_values(|c: Vec<Edge>| c@) == Self::spec_find_all_negative_cycles(*self),
    {
        let n = self.currencies.len();
        let mut cycles: Vec<Vec<Edge>> = Vec::new();
        if n == 0 {
            proof {
                assert(cycles@.map_values(|c: Vec<Edge>| c@) =~= Seq::<Seq<Edge>>::empty());
            }
            return cycles;
        }
        let (dist, pred) = self.relax(false);
        let m = self.edges.len();
        let mut visited_pairs: Vec<(usize, usize)> = Vec::new();
        proof {
            assert(visited_pairs@ =~= Seq::<(usize, usize)>::empty());
            assert(cycles@.map_values(|c: Vec<Edge>| c@) =~= Seq::<Seq<Edge>>::empty());
        }
        let mut j: usize = 0;
        while j < m
            invariant
                self.wf(),
                n == self.currencies@.len(),
                n > 0,
                j <= m,
                (dist@, pred@) == spec_relaxed(*self),
                Self::spec_scan_all(
                    *self,
                    dist@,
                    pred@,
                    0,
                    Seq::empty(),
                    Seq::empty(),
                ) == Self::spec_scan_all(
                    *self,
                    dist@,
                    pred@,
                    j as int,
                    visited_pairs@,
                    cycles@.map_values(|c: Vec<Edge>| c@),
                ),
                m == self.edges@.len(),
                dist@.len() == self.currencies@.len(),
                pred@.len() == self.currencies@.len(),
                forall|v: int|
                    0 <= v < dist@.len() ==> ((#[trigger] dist@[v]) is Some ==> -DIST_BOUND
                        <= dist@[v]->0 <= DIST_BOUND),
                forall|v: int|
                    0 <= v < pred@.len() ==> ((#[trigger] pred@[v]) is Some ==> pred@[v]->0
                        < self.edges@.len() && self.links@[pred@[v]->0 as int].1 == v),
                forall|k: int|
                    0 <= k < cycles@.len() ==> is_negative_cycle((#[trigger] cycles@[k])@)
                        && from_graph(self.edges@, cycles@[k]@),
                forall|a: int, b: int|
                    0 <= a < b < cycles@.len() ==> cycle_view(cycles@[a]@) != cycle_view(
                        cycles@[b]@,
                    ),
            decreases m - j,
        {
            let ghost pairs_pre = visited_pairs@;
            let ghost acc_pre = cycles@.map_values(|c: Vec<Edge>| c@);
            let (u, v) = self.links[j];
            let seen = pair_visited(&visited_pairs, u, v);
            proof {
                assert(seen == pairs_pre.contains(self.links@[j as int]));
            }
            if !seen {
                if let Some(du) = dist[u] {
                    let nd: i128 = du + (self.edges[j].weight as i128);
                    let violating = match dist[v] {
                        None => true,
                        Some(dv) => nd < dv,
                    };
                    proof {
                        assert(violating == Self::spec_violates(*self, dist@, j as int));
                    }
                    if violating {
                        let idxs = self.construct_cycle(v, &pred);
                        let cyc = self.edges_of(&idxs);
                        if cycle_is_valid(&cyc) {
                            let mut t: usize = 0;
                            while t < idxs.len()
                                invariant
                                    self.wf(),
                                    forall|k: int|
                                        0 <= k < idxs@.len() ==> (#[trigger] idxs@[k])
                                            < self.edges@.len(),
                                    t <= idxs@.len(),
                                    visited_pairs@ =~= pairs_pre + Self::spec_pairs_of(
                                        *self,
                                        idxs@.subrange(0, t as int),
                                    ),
                                decreases idxs@.len() - t,
                            {
                                let lk = self.links[idxs[t]];
                                visited_pairs.push(lk);
                                proof {
                                    assert(Self::spec_pairs_of(
                                        *self,
                                        idxs@.subrange(0, t + 1),
                                    ) =~= Self::spec_pairs_of(
                                        *self,
                                        idxs@.subrange(0, t as int),
                                    ).push(self.links@[idxs@[t as int] as int]));
                                    assert(visited_pairs@ =~= pairs_pre + Self::spec_pairs_of(
                                        *self,
                                        idxs@.subrange(0, t + 1),
                                    ));
                                }
                                t = t + 1;
                            }
                            proof {
                                assert(idxs@.subrange(0, idxs@.len() as int) =~= idxs@);
                                assert(visited_pairs@ =~= pairs_pre + Self::spec_pairs_of(
                                    *self,
                                    idxs@,
                                ));
                            }
                            let dup = contains_cycle(&cycles, &cyc);
                            proof {
                                assert forall|k: int|
                                    0 <= k < acc_pre.len() implies #[trigger] acc_pre[k]
                                    == cycles@[k]@ by {
                                }
                                assert(dup == (exists|k: int|
                                    0 <= k < acc_pre.len() && cycle_view(#[trigger] acc_pre[k])
                                        == cycle_view(cyc@))) by {
                                    if dup {
                                        let kk = choose|k: int|
                                            0 <= k < cycles@.len() && cycle_view(
                                                (#[trigger] cycles@[k])@,
                                            ) == cycle_view(cyc@);
                                        assert(cycle_view(acc_pre[kk]) == cycle_view(cyc@));
                                    }
                                    if exists|k: int|
                                        0 <= k < acc_pre.len() && cycle_view(
                                            #[trigger] acc_pre[k],
                                        ) == cycle_view(cyc@) {
                                        let kk = choose|k: int|
                                            0 <= k < acc_pre.len() && cycle_view(
                                                #[trigger] acc_pre[k],
                                            ) == cycle_view(cyc@);
                                        assert(cycle_view(cycles@[kk]@) == cycle_view(cyc@));
                                    }
                                }
                            }
                            if !dup {
                                cycles.push(cyc);
                                proof {
                                    assert(cycles@.map_values(|c: Vec<Edge>| c@) =~= acc_pre.push(
                                        cycles@.last()@,
                                    ));
                                }
                            }
                        }
                    }
                }
            }
            j = j + 1;
        }
        cycles
    }
}

} // verus!
