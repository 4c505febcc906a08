//! Read-only analyzers over a finished [`Graph`].
//!
//! Degree sums, breadth-first shortest-path distances, and clustering
//! pair counts. None of them changes the graph; each result is a pure
//! function of the graph (and the queried node), so re-running an
//! analyzer on the same graph always yields the same answer.
//!
//! The two ratio-valued statistics are returned as exact integer
//! numerator and denominator pairs; turning them into floating-point
//! quotients is presentation and is left to the caller.

use vstd::prelude::*;

verus! {

use crate::graph::Graph;
use crate::graph::GraphModel;
use crate::graph::edge_between;
use crate::graph::undirected_adjacent;
use crate::graph::id_index;
use crate::graph::lemma_distinct_ids_bound;

/// Everything that can end a single query; the graph itself is never
/// affected.
#[derive(Clone, Copy, Debug, PartialEq, Eq)]
pub enum QueryError {
    /// The queried external identifier is not registered in the graph.
    NodeNotFound,
}

/// Number of edges ending at internal index `v`.
pub open spec fn in_deg(links: Seq<(usize, usize)>, v: int) -> int
    decreases links.len(),
{
    if links.len() == 0 {
        0
    } else {
        in_deg(links.drop_last(), v) + if links.last().1 as int == v {
            1int
        } else {
            0int
        }
    }
}

/// Number of edges starting at internal index `v`.
pub open spec fn out_deg(links: Seq<(usize, usize)>, v: int) -> int
    decreases links.len(),
{
    if links.len() == 0 {
        0
    } else {
        out_deg(links.drop_last(), v) + if links.last().0 as int == v {
            1int
        } else {
            0int
        }
    }
}

/// Sum of the in-degrees of the internal indices below `n`.
pub open spec fn in_deg_sum(links: Seq<(usize, usize)>, n: int) -> int
    decreases n,
{
    if n <= 0 {
        0
    } else {
        in_deg_sum(links, n - 1) + in_deg(links, n - 1)
    }
}

/// Sum of the out-degrees of the internal indices below `n`.
pub open spec fn out_deg_sum(links: Seq<(usize, usize)>, n: int) -> int
    decreases n,
{
    if n <= 0 {
        0
    } else {
        out_deg_sum(links, n - 1) + out_deg(links, n - 1)
    }
}

proof fn lemma_deg_nonneg(links: Seq<(usize, usize)>, v: int)
    ensures
        in_deg(links, v) >= 0,
        out_deg(links, v) >= 0,
    decreases links.len(),
{
    if links.len() > 0 {
        lemma_deg_nonneg(links.drop_last(), v);
    }
}

proof fn lemma_deg_push(links: Seq<(usize, usize)>, e: (usize, usize), v: int)
    ensures
        in_deg(links.push(e), v) == in_deg(links, v) + if e.1 as int == v {
            1int
        } else {
            0int
        },
        out_deg(links.push(e), v) == out_deg(links, v) + if e.0 as int == v {
            1int
        } else {
            0int
        },
{
    assert(links.push(e).drop_last() =~= links);
}

proof fn lemma_deg_sum_push(links: Seq<(usize, usize)>, e: (usize, usize), n: int)
    ensures
        in_deg_sum(links.push(e), n) == in_deg_sum(links, n) + if 0 <= (e.1 as int) < n {
            1int
        } else {
            0int
        },
        out_deg_sum(links.push(e), n) == out_deg_sum(links, n) + if 0 <= (e.0 as int) < n {
            1int
        } else {
            0int
        },
    decreases n,
{
    if n > 0 {
        lemma_deg_sum_push(links, e, n - 1);
        lemma_deg_push(links, e, n - 1);
    }
}

proof fn lemma_deg_sum_empty(n: int)
    ensures
        in_deg_sum(Seq::<(usize, usize)>::empty(), n) == 0,
        out_deg_sum(Seq::<(usize, usize)>::empty(), n) == 0,
    decreases n,
{
    if n > 0 {
        lemma_deg_sum_empty(n - 1);
    }
}

/// Every edge contributes exactly one unit of in-degree and one unit of
/// out-degree, so each degree sum equals the number of edges.
pub proof fn lemma_deg_sum_is_edge_count(links: Seq<(usize, usize)>, n: int)
    requires
        forall|k: int|
            0 <= k < links.len() ==> (#[trigger] links[k]).0 < n && links[k].1 < n,
    ensures
        in_deg_sum(links, n) == links.len(),
        out_deg_sum(links, n) == links.len(),
    decreases links.len(),
{
    if links.len() == 0 {
        lemma_deg_sum_empty(n);
        assert(links =~= Seq::<(usize, usize)>::empty());
    } else {
        let dl = links.drop_last();
        let e = links.last();
        assert(forall|k: int|
            0 <= k < dl.len() ==> (#[trigger] dl[k]).0 < n && dl[k].1 < n);
        lemma_deg_sum_is_edge_count(dl, n);
        assert(links =~= dl.push(e));
        lemma_deg_sum_push(dl, e, n);
    }
}

proof fn lemma_deg_sum_mono(links: Seq<(usize, usize)>, k: int, n: int)
    requires
        k <= n,
    ensures
        in_deg_sum(links, k) <= in_deg_sum(links, n),
        out_deg_sum(links, k) <= out_deg_sum(links, n),
    decreases n - k,
{
    if k < n {
        lemma_deg_sum_mono(links, k, n - 1);
        lemma_deg_nonneg(links, n - 1);
    }
}

/// In-degree of the node with internal index `idx`: how many edges end
/// there, parallel edges and self-loops each counting once.
pub fn in_degree(g: &Graph, idx: usize) -> (d: usize)
    requires
        g.wf(),
        idx < g@.ids.len(),
    ensures
        d as int == in_deg(g@.links, idx as int),
{
    let m = g.edge_count();
    let mut d: usize = 0;
    let mut k: usize = 0;
    while k < m
        invariant
            k <= m,
            m == g@.links.len(),
            g.wf(),
            d <= k,
            d as int == in_deg(g@.links.take(k as int), idx as int),
        decreases m - k,
    {
        proof {
            assert(g@.links.take(k + 1).drop_last() =~= g@.links.take(k as int));
            assert(g@.links.take(k + 1).last() == g@.links[k as int]);
        }
        let e = g.link_at(k);
        if e.1 == idx {
            d = d + 1;
        }
        k = k + 1;
    }
    proof {
        assert(g@.links.take(m as int) =~= g@.links);
    }
    d
}

/// Out-degree of the node with internal index `idx`.
pub fn out_degree(g: &Graph, idx: usize) -> (d: usize)
    requires
        g.wf(),
        idx < g@.ids.len(),
    ensures
        d as int == out_deg(g@.links, idx as int),
{
    let m = g.edge_count();
    let mut d: usize = 0;
    let mut k: usize = 0;
    while k < m
        invariant
            k <= m,
            m == g@.links.len(),
            g.wf(),
            d <= k,
            d as int == out_deg(g@.links.take(k as int), idx as int),
        decreases m - k,
    {
        proof {
            assert(g@.links.take(k + 1).drop_last() =~= g@.links.take(k as int));
            assert(g@.links.take(k + 1).last() == g@.links[k as int]);
        }
        let e = g.link_at(k);
        if e.0 == idx {
            d = d + 1;
        }
        k = k + 1;
    }
    proof {
        assert(g@.links.take(m as int) =~= g@.links);
    }
    d
}

/// Per-node in- and out-degrees, indexed by internal index.
pub fn node_degrees(g: &Graph) -> (r: (Vec<usize>, Vec<usize>))
    requires
        g.wf(),
    ensures
        r.0@.len() == g@.ids.len(),
        r.1@.len() == g@.ids.len(),
        forall|i: int| 0 <= i < g@.ids.len() ==> (#[trigger] r.0@[i]) as int == in_deg(g@.links, i),
        forall|i: int| 0 <= i < g@.ids.len() ==> (#[trigger] r.1@[i]) as int == out_deg(g@.links, i),
{
    let n = g.node_count();
    let mut ins: Vec<usize> = Vec::new();
    let mut outs: Vec<usize> = Vec::new();
    let mut i: usize = 0;
    while i < n
        invariant
            i <= n,
            n == g@.ids.len(),
            g.wf(),
            ins@.len() == i,
            outs@.len() == i,
            forall|p: int| 0 <= p < i ==> (#[trigger] ins@[p]) as int == in_deg(g@.links, p),
            forall|p: int| 0 <= p < i ==> (#[trigger] outs@[p]) as int == out_deg(g@.links, p),
        decreases n - i,
    {
        let d_in = in_degree(g, i);
        let d_out = out_degree(g, i);
        let ghost old_ins = ins@;
        let ghost old_outs = outs@;
        ins.push(d_in);
        outs.push(d_out);
        proof {
            assert forall|p: int| 0 <= p < i + 1 implies (#[trigger] ins@[p]) as int == in_deg(
                g@.links,
                p,
            ) by {
                if p < i {
                    assert(ins@[p] == old_ins[p]);
                } else {
                    assert(ins@[p] == d_in);
                }
            }
            assert forall|p: int| 0 <= p < i + 1 implies (#[trigger] outs@[p]) as int == out_deg(
                g@.links,
                p,
            ) by {
                if p < i {
                    assert(outs@[p] == old_outs[p]);
                } else {
                    assert(outs@[p] == d_out);
                }
            }
        }
        i = i + 1;
    }
    (ins, outs)
}

/// Totals of the degree distribution of a graph: the arithmetic means
/// are `in_degree_sum / node_count` and `out_degree_sum / node_count`
/// (both 0 when the graph has no nodes).
#[derive(Clone, Copy, Debug, PartialEq, Eq)]
pub struct DegreeStats {
    pub in_degree_sum: usize,
    pub out_degree_sum: usize,
    pub node_count: usize,
}

/// Aggregates per-node degrees over the whole graph. Both sums equal the
/// edge count: every edge gives one unit of in-degree and one of
/// out-degree (a self-loop gives one of each to its node).
pub fn degree_analysis(g: &Graph) -> (r: DegreeStats)
    requires
        g.wf(),
    ensures
        r.node_count == g@.ids.len(),
        r.in_degree_sum as int == in_deg_sum(g@.links, g@.ids.len() as int),
        r.out_degree_sum as int == out_deg_sum(g@.links, g@.ids.len() as int),
        r.in_degree_sum == g@.links.len(),
        r.out_degree_sum == g@.links.len(),
        degree_stats_match(g@, r),
{
    let n = g.node_count();
    let m = g.edge_count();
    proof {
        lemma_deg_sum_is_edge_count(g@.links, n as int);
    }
    let mut in_sum: usize = 0;
    let mut out_sum: usize = 0;
    let mut i: usize = 0;
    while i < n
        invariant
            i <= n,
            n == g@.ids.len(),
            m == g@.links.len(),
            g.wf(),
            in_sum as int == in_deg_sum(g@.links, i as int),
            out_sum as int == out_deg_sum(g@.links, i as int),
            in_deg_sum(g@.links, n as int) == g@.links.len(),
            out_deg_sum(g@.links, n as int) == g@.links.len(),
        decreases n - i,
    {
        proof {
            lemma_deg_sum_mono(g@.links, i + 1, n as int);
            lemma_deg_nonneg(g@.links, i as int);
            assert(in_deg_sum(g@.links, i + 1) == in_deg_sum(g@.links, i as int) + in_deg(
                g@.links,
                i as int,
            ));
            assert(out_deg_sum(g@.links, i + 1) == out_deg_sum(g@.links, i as int) + out_deg(
                g@.links,
                i as int,
            ));
            assert(in_deg_sum(g@.links, i + 1) <= m);
            assert(out_deg_sum(g@.links, i + 1) <= m);
        }
        let d_in = in_degree(g, i);
        let d_out = out_degree(g, i);
        in_sum = in_sum + d_in;
        out_sum = out_sum + d_out;
        i = i + 1;
    }
    DegreeStats { in_degree_sum: in_sum, out_degree_sum: out_sum, node_count: n }
}

/// `j` is an undirected neighbor of `c`: another node joined to `c` by
/// at least one edge in either direction, whatever its multiplicity. A
/// self-loop does not make a node its own neighbor.
pub open spec fn is_neighbor(m: GraphModel, c: int, j: int) -> bool {
    j != c && undirected_adjacent(m, c, j)
}

/// The undirected neighbors of `c` among internal indices below `j`, in
/// increasing order, each once.
pub open spec fn neighbor_seq(m: GraphModel, c: int, j: int) -> Seq<usize>
    decreases j,
{
    if j <= 0 {
        Seq::empty()
    } else if is_neighbor(m, c, j - 1) {
        neighbor_seq(m, c, j - 1).push((j - 1) as usize)
    } else {
        neighbor_seq(m, c, j - 1)
    }
}

/// How many of `nb[j..]` are joined to `x` by an edge in either direction.
pub open spec fn adj_count(m: GraphModel, x: int, nb: Seq<usize>, j: int) -> int
    decreases nb.len() - j,
{
    if j < 0 || j >= nb.len() {
        0
    } else {
        (if undirected_adjacent(m, x, nb[j] as int) {
            1int
        } else {
            0int
        }) + adj_count(m, x, nb, j + 1)
    }
}

/// How many unordered pairs of distinct positions in `nb[i..]` hold
/// nodes joined by an edge in either direction.
pub open spec fn pair_count(m: GraphModel, nb: Seq<usize>, i: int) -> int
    decreases nb.len() - i,
{
    if i < 0 || i >= nb.len() {
        0
    } else {
        adj_count(m, nb[i] as int, nb, i + 1) + pair_count(m, nb, i + 1)
    }
}

/// Number of unordered pairs of `l` things: `l` choose 2.
pub open spec fn pair_total(l: int) -> int
    decreases l,
{
    if l <= 1 {
        0
    } else {
        pair_total(l - 1) + (l - 1)
    }
}

proof fn lemma_adj_count_bounds(m: GraphModel, x: int, nb: Seq<usize>, j: int)
    requires
        0 <= j <= nb.len(),
    ensures
        0 <= adj_count(m, x, nb, j) <= nb.len() - j,
    decreases nb.len() - j,
{
    if j < nb.len() {
        lemma_adj_count_bounds(m, x, nb, j + 1);
    }
}

proof fn lemma_pair_total_double(l: int)
    requires
        l >= 0,
    ensures
        2 * pair_total(l) == l * (l - 1),
    decreases l,
{
    if l > 1 {
        lemma_pair_total_double(l - 1);
        assert((l - 1) * (l - 2) + 2 * (l - 1) == l * (l - 1)) by (nonlinear_arith);
    } else {
        assert(l * (l - 1) == 0) by (nonlinear_arith)
            requires
                0 <= l <= 1,
        ;
    }
}

proof fn lemma_pair_count_bounds(m: GraphModel, nb: Seq<usize>, i: int)
    requires
        0 <= i <= nb.len(),
    ensures
        0 <= pair_count(m, nb, i) <= pair_total(nb.len() - i),
    decreases nb.len() - i,
{
    if i < nb.len() {
        lemma_pair_count_bounds(m, nb, i + 1);
        lemma_adj_count_bounds(m, nb[i] as int, nb, i + 1);
    }
}


/// `neighbor_seq` holds exactly the undirected neighbors below `j`, in
/// increasing order and each exactly once.
pub proof fn lemma_neighbor_seq_complete(m: GraphModel, c: int, j: int)
    requires
        0 <= j,
    ensures
        forall|q: int|
            0 <= q < neighbor_seq(m, c, j).len() ==> is_neighbor(
                m,
                c,
                (#[trigger] neighbor_seq(m, c, j)[q]) as int,
            ) && (neighbor_seq(m, c, j)[q] as int) < j,
        forall|v: int|
            0 <= v < j && is_neighbor(m, c, v) ==> neighbor_seq(m, c, j).contains(v as usize),
        neighbor_seq(m, c, j).no_duplicates(),
    decreases j,
{
    if j > 0 {
        lemma_neighbor_seq_complete(m, c, j - 1);
        let prev = neighbor_seq(m, c, j - 1);
        let cur = neighbor_seq(m, c, j);
        if is_neighbor(m, c, j - 1) {
            assert(cur == prev.push((j - 1) as usize));
            assert forall|i1: int, i2: int|
                0 <= i1 < cur.len() && 0 <= i2 < cur.len() && i1 != i2 implies cur[i1]
                != cur[i2] by {
                if i1 < prev.len() && i2 < prev.len() {
                    assert(prev[i1] != prev[i2]);
                } else if i2 == prev.len() {
                    assert((prev[i1] as int) < j - 1);
                } else {
                    assert((prev[i2] as int) < j - 1);
                }
            }
        }
        assert forall|v: int|
            0 <= v < j && is_neighbor(m, c, v) implies cur.contains(v as usize) by {
            if v < j - 1 {
                assert(prev.contains(v as usize));
                let q = choose|q: int| 0 <= q < prev.len() && prev[q] == v as usize;
                assert(cur[q] == v as usize);
            } else {
                assert(cur[cur.len() - 1] == v as usize);
            }
        }
    }
}

/// Whether `x` and `y` are joined by at least one edge, in either
/// direction.
fn has_undirected_edge(g: &Graph, x: usize, y: usize) -> (b: bool)
    requires
        g.wf(),
    ensures
        b == undirected_adjacent(g@, x as int, y as int),
{
    let m = g.edge_count();
    let mut k: usize = 0;
    while k < m
        invariant
            k <= m,
            m == g@.links.len(),
            g.wf(),
            forall|p: int|
                0 <= p < k ==> !((#[trigger] g@.links[p]).0 == x && g@.links[p].1 == y) && !(
                g@.links[p].0 == y && g@.links[p].1 == x),
        decreases m - k,
    {
        let e = g.link_at(k);
        if (e.0 == x && e.1 == y) || (e.0 == y && e.1 == x) {
            proof {
                assert(g@.links[k as int] == e);
            }
            return true;
        }
        k = k + 1;
    }
    proof {
        assert(!edge_between(g@, x as int, y as int));
        assert(!edge_between(g@, y as int, x as int));
    }
    false
}

/// The undirected neighbor set of internal index `c`, as a vector of
/// internal indices in increasing order.
pub fn undirected_neighbors(g: &Graph, c: usize) -> (nb: Vec<usize>)
    requires
        g.wf(),
        c < g@.ids.len(),
    ensures
        nb@ == neighbor_seq(g@, c as int, g@.ids.len() as int),
        nb@.len() <= g@.ids.len(),
{
    let n = g.node_count();
    let mut nb: Vec<usize> = Vec::new();
    let mut j: usize = 0;
    while j < n
        invariant
            j <= n,
            n == g@.ids.len(),
            g.wf(),
            c < n,
            nb@ == neighbor_seq(g@, c as int, j as int),
            nb@.len() <= j,
        decreases n - j,
    {
        if j != c && has_undirected_edge(g, c, j) {
            nb.push(j);
            proof {
                assert(is_neighbor(g@, c as int, j as int));
            }
        } else {
            proof {
                assert(!is_neighbor(g@, c as int, j as int));
            }
        }
        j = j + 1;
    }
    nb
}

/// Exact value of a local clustering coefficient: of the
/// `total_pairs` unordered pairs of distinct undirected neighbors,
/// `connected_pairs` are themselves joined by an edge in either
/// direction. The coefficient is `connected_pairs / total_pairs`, taken
/// as 0 when `total_pairs` is 0 (fewer than two neighbors).
#[derive(Clone, Copy, Debug, PartialEq, Eq)]
pub struct ClusteringMeasure {
    pub connected_pairs: u64,
    pub total_pairs: u64,
}

/// The two counts behind the clustering coefficient of `node`:
/// connected neighbor pairs, and all neighbor pairs.
pub open spec fn clustering_of(m: GraphModel, node: u32) -> (int, int) {
    let c = id_index(m.ids, node);
    let nb = neighbor_seq(m, c, m.ids.len() as int);
    (
        if nb.len() < 2 {
            0int
        } else {
            pair_count(m, nb, 0)
        },
        pair_total(nb.len() as int),
    )
}

/// Local clustering coefficient of the node with external identifier
/// `node`, as an exact ratio. Fails only when `node` is not in the
/// graph. Cost is quadratic in the node's undirected degree.
pub fn clustering_coefficient(g: &Graph, node: u32) -> (r: Result<ClusteringMeasure, QueryError>)
    requires
        g.wf(),
    ensures
        match r {
            Ok(cm) => g@.ids.contains(node) && cm.connected_pairs as int == clustering_of(
                g@,
                node,
            ).0 && cm.total_pairs as int == clustering_of(g@, node).1 && cm.connected_pairs
                <= cm.total_pairs,
            Err(e) => e == QueryError::NodeNotFound && !g@.ids.contains(node),
        },
        r is Ok ==> clustering_match(g@, node, r->Ok_0),
{
    let c = match g.find_node(node) {
        None => {
            return Err(QueryError::NodeNotFound);
        },
        Some(i) => i,
    };
    proof {
        assert(g@.ids[c as int] == node);
        assert(g@.ids.contains(node));
        let ci = id_index(g@.ids, node);
        assert(0 <= ci < g@.ids.len() && g@.ids[ci] == node);
        assert(ci == c as int);
    }
    let nb = undirected_neighbors(g, c);
    let l = nb.len();
    if l < 2 {
        proof {
            if l == 1 {
                assert(pair_total(1) == 0);
            }
        }
        return Ok(ClusteringMeasure { connected_pairs: 0, total_pairs: 0 });
    }
    proof {
        lemma_distinct_ids_bound(g@.ids);
        assert(l <= 0x1_0000_0000);
        lemma_pair_total_double(l as int);
        assert((l as int) * (l as int - 1) <= 0x1_0000_0000 * 0xFFFF_FFFF) by (nonlinear_arith)
            requires
                0 <= l as int <= 0x1_0000_0000,
        ;
        assert(pair_total(l as int) < 0x8000_0000_0000_0000);
        lemma_pair_count_bounds(g@, nb@, 0);
    }
    let lu = l as u64;
    let total = lu * (lu - 1) / 2;
    proof {
        assert(total as int == pair_total(l as int));
    }
    let mut connected: u64 = 0;
    let mut i: usize = 0;
    while i < l
        invariant
            i <= l,
            l == nb@.len(),
            l >= 2,
            g.wf(),
            connected as int + pair_count(g@, nb@, i as int) == pair_count(g@, nb@, 0),
            pair_count(g@, nb@, 0) <= pair_total(l as int),
            pair_total(l as int) < 0x8000_0000_0000_0000,
            connected as int <= pair_total(l as int),
        decreases l - i,
    {
        let x = nb[i];
        let mut jj: usize = i + 1;
        proof {
            assert(pair_count(g@, nb@, i as int) == adj_count(g@, x as int, nb@, i + 1)
                + pair_count(g@, nb@, i + 1));
        }
        while jj < l
            invariant
                i < l,
                i + 1 <= jj <= l,
                l == nb@.len(),
                g.wf(),
                x == nb@[i as int],
                connected as int + adj_count(g@, x as int, nb@, jj as int) + pair_count(
                    g@,
                    nb@,
                    i + 1,
                ) == pair_count(g@, nb@, 0),
                pair_count(g@, nb@, 0) <= pair_total(l as int),
                pair_total(l as int) < 0x8000_0000_0000_0000,
                connected as int <= pair_total(l as int),
            decreases l - jj,
        {
            proof {
                assert(adj_count(g@, x as int, nb@, jj as int) == (if undirected_adjacent(
                    g@,
                    x as int,
                    nb@[jj as int] as int,
                ) {
                    1int
                } else {
                    0int
                }) + adj_count(g@, x as int, nb@, jj + 1));
                lemma_adj_count_bounds(g@, x as int, nb@, jj + 1);
                lemma_pair_count_bounds(g@, nb@, i + 1);
            }
            let y = nb[jj];
            if has_undirected_edge(g, x, y) {
                connected = connected + 1;
            }
            jj = jj + 1;
        }
        proof {
            lemma_pair_count_bounds(g@, nb@, i + 1);
        }
        i = i + 1;
    }
    proof {
        assert(pair_count(g@, nb@, l as int) == 0);
    }
    Ok(ClusteringMeasure { connected_pairs: connected, total_pairs: total })
}

/// `v` is reachable from `src` along directed edges in at most `d` hops:
/// it is the source, or some edge leads to it from a node reachable in
/// one hop less.
pub open spec fn reach_within(m: GraphModel, src: int, v: int, d: nat) -> bool
    decreases d,
{
    if d == 0 {
        v == src
    } else {
        v == src || exists|k: int|
            0 <= k < m.links.len() && reach_within(
                m,
                src,
                (#[trigger] m.links[k]).0 as int,
                (d - 1) as nat,
            ) && m.links[k].1 as int == v
    }
}

/// `v` is reachable from `src` along directed edges.
pub open spec fn reachable(m: GraphModel, src: int, v: int) -> bool {
    exists|d: nat| reach_within(m, src, v, d)
}

/// All edge endpoints address registered nodes.
pub open spec fn links_in_range(m: GraphModel) -> bool {
    forall|k: int|
        0 <= k < m.links.len() ==> (#[trigger] m.links[k]).0 < m.ids.len() && m.links[k].1
            < m.ids.len()
}

pub proof fn lemma_reach_step(m: GraphModel, src: int, v: int, d: nat)
    requires
        reach_within(m, src, v, d),
    ensures
        reach_within(m, src, v, (d + 1) as nat),
    decreases d,
{
    if d > 0 && v != src {
        let k = choose|k: int|
            0 <= k < m.links.len() && reach_within(
                m,
                src,
                (#[trigger] m.links[k]).0 as int,
                (d - 1) as nat,
            ) && m.links[k].1 as int == v;
        lemma_reach_step(m, src, m.links[k].0 as int, (d - 1) as nat);
        assert(reach_within(m, src, m.links[k].0 as int, d));
    }
}

pub proof fn lemma_reach_mono(m: GraphModel, src: int, v: int, d1: nat, d2: nat)
    requires
        d1 <= d2,
        reach_within(m, src, v, d1),
    ensures
        reach_within(m, src, v, d2),
    decreases d2 - d1,
{
    if d1 < d2 {
        lemma_reach_mono(m, src, v, d1, (d2 - 1) as nat);
        lemma_reach_step(m, src, v, (d2 - 1) as nat);
    }
}

/// Once breadth-first search finds no node at hop distance `lv + 1` that
/// it had not already reached within `lv` hops, every reachable node is
/// reachable within `lv` hops.
pub proof fn lemma_reach_collapse(m: GraphModel, src: int, v: int, d: nat, lv: nat)
    requires
        links_in_range(m),
        0 <= v < m.ids.len(),
        reach_within(m, src, v, d),
        forall|w: int|
            0 <= w < m.ids.len() && #[trigger] reach_within(m, src, w, (lv + 1) as nat)
                ==> reach_within(m, src, w, lv),
    ensures
        reach_within(m, src, v, lv),
    decreases d,
{
    if d == 0 || v == src {
        lemma_reach_mono(m, src, v, 0, lv);
    } else {
        let k = choose|k: int|
            0 <= k < m.links.len() && reach_within(
                m,
                src,
                (#[trigger] m.links[k]).0 as int,
                (d - 1) as nat,
            ) && m.links[k].1 as int == v;
        lemma_reach_collapse(m, src, m.links[k].0 as int, (d - 1) as nat, lv);
        assert(reach_within(m, src, v, (lv + 1) as nat));
    }
}

/// Number of `true` entries.
pub open spec fn count_true(v: Seq<bool>) -> int
    decreases v.len(),
{
    if v.len() == 0 {
        0
    } else {
        count_true(v.drop_last()) + if v.last() {
            1int
        } else {
            0int
        }
    }
}

proof fn lemma_count_true_le(v: Seq<bool>)
    ensures
        0 <= count_true(v) <= v.len(),
    decreases v.len(),
{
    if v.len() > 0 {
        lemma_count_true_le(v.drop_last());
    }
}

proof fn lemma_count_true_update(v: Seq<bool>, i: int)
    requires
        0 <= i < v.len(),
        !v[i],
    ensures
        count_true(v.update(i, true)) == count_true(v) + 1,
    decreases v.len(),
{
    let w = v.update(i, true);
    if i == v.len() - 1 {
        assert(w.drop_last() =~= v.drop_last());
    } else {
        assert(w.drop_last() =~= v.drop_last().update(i, true));
        lemma_count_true_update(v.drop_last(), i);
        assert(w.last() == v.last());
    }
}

proof fn lemma_count_true_missing(v: Seq<bool>, i: int)
    requires
        0 <= i < v.len(),
        !v[i],
    ensures
        count_true(v) < v.len(),
{
    lemma_count_true_update(v, i);
    lemma_count_true_le(v.update(i, true));
    assert(v.update(i, true).len() == v.len());
}

proof fn lemma_count_all_false(v: Seq<bool>)
    requires
        forall|i: int| 0 <= i < v.len() ==> !v[i],
    ensures
        count_true(v) == 0,
    decreases v.len(),
{
    if v.len() > 0 {
        lemma_count_all_false(v.drop_last());
    }
}

/// What `compute_shortest_paths_bfs` hands back: the keys are exactly
/// the external identifiers of the nodes reachable from the source along
/// out-edges, and each maps to its minimal hop count; unreachable nodes
/// are absent. The source itself maps to 0.
pub open spec fn distances_post(m: GraphModel, src: int, dm: Map<u32, u32>) -> bool {
    &&& forall|id: u32| #[trigger] dm.contains_key(id) ==> m.ids.contains(id)
    &&& forall|i: int|
        0 <= i < m.ids.len() ==> ((#[trigger] dm.contains_key(m.ids[i])) <==> reachable(m, src, i))
    &&& forall|i: int|
        0 <= i < m.ids.len() && (#[trigger] dm.contains_key(m.ids[i])) ==> {
            &&& reach_within(m, src, i, dm[m.ids[i]] as nat)
            &&& forall|d2: nat| d2 < dm[m.ids[i]] ==> !reach_within(m, src, i, d2)
        }
}


/// Breadth-first shortest-path distances from the node with external
/// identifier `start`, following out-edges only. The result maps the
/// external identifier of every node reachable from `start` (and no
/// other) to its minimal hop count; the source itself maps to 0. Fails
/// only when `start` is not in the graph.
#[verifier::rlimit(100)]
pub fn compute_shortest_paths_bfs(g: &Graph, start: u32) -> (r: Result<
    std::collections::HashMap<u32, u32>,
    QueryError,
>)
    requires
        g.wf(),
    ensures
        match r {
            Ok(dm) => g@.ids.contains(start) && distances_post(g@, id_index(g@.ids, start), dm@),
            Err(e) => e == QueryError::NodeNotFound && !g@.ids.contains(start),
        },
{
    let src = match g.find_node(start) {
        None => {
            return Err(QueryError::NodeNotFound);
        },
        Some(i) => i,
    };
    proof {
        assert(g@.ids[src as int] == start);
        assert(g@.ids.contains(start));
        let ci = id_index(g@.ids, start);
        assert(0 <= ci < g@.ids.len() && g@.ids[ci] == start);
        assert(ci == src as int);
        lemma_distinct_ids_bound(g@.ids);
    }
    let n = g.node_count();
    let m_edges = g.edge_count();
    let mut visited: Vec<bool> = Vec::new();
    let mut dist: Vec<u32> = Vec::new();
    let mut i0: usize = 0;
    while i0 < n
        invariant
            i0 <= n,
            visited@.len() == i0,
            dist@.len() == i0,
            forall|p: int| 0 <= p < i0 ==> !(#[trigger] visited@[p]),
            forall|p: int| 0 <= p < i0 ==> (#[trigger] dist@[p]) == 0u32,
        decreases n - i0,
    {
        visited.push(false);
        dist.push(0);
        i0 = i0 + 1;
    }
    let ghost all_false = visited@;
    visited[src] = true;
    proof {
        lemma_count_all_false(all_false);
        lemma_count_true_update(all_false, src as int);
    }
    let mut frontier: Vec<usize> = Vec::new();
    frontier.push(src);
    let mut level: u32 = 0;
    let mut vcount: usize = 1;
    proof {
        assert forall|v: int| 0 <= v < n implies ((#[trigger] visited@[v]) <==> reach_within(
            g@,
            src as int,
            v,
            0nat,
        )) by {
            assert(reach_within(g@, src as int, v, 0nat) == (v == src as int));
        }
        assert(frontier@[0] == src);
    }
    loop
        invariant
            g.wf(),
            n == g@.ids.len(),
            m_edges == g@.links.len(),
            src < n,
            g@.ids[src as int] == start,
            visited@.len() == n,
            dist@.len() == n,
            n <= 0x1_0000_0000,
            forall|v: int|
                0 <= v < n ==> ((#[trigger] visited@[v]) <==> reach_within(
                    g@,
                    src as int,
                    v,
                    level as nat,
                )),
            forall|v: int|
                0 <= v < n && (#[trigger] visited@[v]) ==> dist@[v] <= level && reach_within(
                    g@,
                    src as int,
                    v,
                    dist@[v] as nat,
                ) && (dist@[v] > 0 ==> !reach_within(g@, src as int, v, (dist@[v] - 1) as nat)),
            forall|q: int|
                0 <= q < frontier@.len() ==> (#[trigger] frontier@[q]) < n && reach_within(
                    g@,
                    src as int,
                    frontier@[q] as int,
                    level as nat,
                ) && (level > 0 ==> !reach_within(
                    g@,
                    src as int,
                    frontier@[q] as int,
                    (level - 1) as nat,
                )),
            forall|v: int|
                0 <= v < n && #[trigger] reach_within(g@, src as int, v, level as nat) && (level
                    > 0 ==> !reach_within(g@, src as int, v, (level - 1) as nat))
                    ==> frontier@.contains(v as usize),
            vcount as int == count_true(visited@),
            vcount <= n,
            level as int + 1 <= vcount,
        decreases n - vcount,
    {
        let ghost base_vcount = vcount as int;
        let mut next: Vec<usize> = Vec::new();
        let mut kf: usize = 0;
        while kf < frontier.len()
            invariant
                g.wf(),
                n == g@.ids.len(),
                m_edges == g@.links.len(),
                src < n,
                visited@.len() == n,
                dist@.len() == n,
                n <= 0x1_0000_0000,
                kf <= frontier@.len(),
                level as int + 1 <= base_vcount,
                base_vcount <= vcount,
                forall|q: int|
                    0 <= q < frontier@.len() ==> (#[trigger] frontier@[q]) < n && reach_within(
                        g@,
                        src as int,
                        frontier@[q] as int,
                        level as nat,
                    ) && (level > 0 ==> !reach_within(
                        g@,
                        src as int,
                        frontier@[q] as int,
                        (level - 1) as nat,
                    )),
                forall|v: int|
                    0 <= v < n && #[trigger] reach_within(g@, src as int, v, level as nat) && (
                    level > 0 ==> !reach_within(g@, src as int, v, (level - 1) as nat))
                        ==> frontier@.contains(v as usize),
                forall|v: int|
                    0 <= v < n ==> ((#[trigger] visited@[v]) <==> (reach_within(
                        g@,
                        src as int,
                        v,
                        level as nat,
                    ) || next@.contains(v as usize))),
                forall|q: int|
                    0 <= q < next@.len() ==> (#[trigger] next@[q]) < n && reach_within(
                        g@,
                        src as int,
                        next@[q] as int,
                        (level + 1) as nat,
                    ) && !reach_within(g@, src as int, next@[q] as int, level as nat),
                forall|v: int|
                    0 <= v < n && (#[trigger] visited@[v]) ==> dist@[v] <= level as int + 1
                        && reach_within(g@, src as int, v, dist@[v] as nat) && (dist@[v] > 0
                        ==> !reach_within(g@, src as int, v, (dist@[v] - 1) as nat)),
                forall|q: int, e: int|
                    0 <= q < kf && 0 <= e < m_edges && (#[trigger] g@.links[e]).0 == (
                    #[trigger] frontier@[q]) ==> visited@[g@.links[e].1 as int],
                vcount as int == count_true(visited@),
                vcount as int == base_vcount + next@.len(),
                vcount <= n,
            decreases frontier@.len() - kf,
        {
            let u = frontier[kf];
            let mut e: usize = 0;
            while e < m_edges
                invariant
                    g.wf(),
                    n == g@.ids.len(),
                    m_edges == g@.links.len(),
                    src < n,
                    visited@.len() == n,
                    dist@.len() == n,
                    n <= 0x1_0000_0000,
                    kf < frontier@.len(),
                    u == frontier@[kf as int],
                    u < n,
                    e <= m_edges,
                    level as int + 1 <= base_vcount,
                    base_vcount <= vcount,
                    reach_within(g@, src as int, u as int, level as nat),
                    forall|q: int|
                        0 <= q < frontier@.len() ==> (#[trigger] frontier@[q]) < n && reach_within(
                            g@,
                            src as int,
                            frontier@[q] as int,
                            level as nat,
                        ) && (level > 0 ==> !reach_within(
                            g@,
                            src as int,
                            frontier@[q] as int,
                            (level - 1) as nat,
                        )),
                    forall|v: int|
                        0 <= v < n && #[trigger] reach_within(g@, src as int, v, level as nat) && (
                        level > 0 ==> !reach_within(g@, src as int, v, (level - 1) as nat))
                            ==> frontier@.contains(v as usize),
                    forall|v: int|
                        0 <= v < n ==> ((#[trigger] visited@[v]) <==> (reach_within(
                            g@,
                            src as int,
                            v,
                            level as nat,
                        ) || next@.contains(v as usize))),
                    forall|q: int|
                        0 <= q < next@.len() ==> (#[trigger] next@[q]) < n && reach_within(
                            g@,
                            src as int,
                            next@[q] as int,
                            (level + 1) as nat,
                        ) && !reach_within(g@, src as int, next@[q] as int, level as nat),
                    forall|v: int|
                        0 <= v < n && (#[trigger] visited@[v]) ==> dist@[v] <= level as int + 1
                            && reach_within(g@, src as int, v, dist@[v] as nat) && (dist@[v] > 0
                            ==> !reach_within(g@, src as int, v, (dist@[v] - 1) as nat)),
                    forall|q: int, e2: int|
                        0 <= q < kf && 0 <= e2 < m_edges && (#[trigger] g@.links[e2]).0 == (
                        #[trigger] frontier@[q]) ==> visited@[g@.links[e2].1 as int],
                    forall|e2: int|
                        0 <= e2 < e && (#[trigger] g@.links[e2]).0 == u
                            ==> visited@[g@.links[e2].1 as int],
                    vcount as int == count_true(visited@),
                    vcount as int == base_vcount + next@.len(),
                    vcount <= n,
                decreases m_edges - e,
            {
                let link = g.link_at(e);
                if link.0 == u {
                    let w = link.1;
                    proof {
                        assert(g@.links[e as int].1 < n);
                    }
                    if !visited[w] {
                        proof {
                            // w is at exact hop distance level + 1
                            assert(reach_within(g@, src as int, w as int, (level + 1) as nat)) by {
                                assert(0 <= (e as int) && (e as int) < g@.links.len());
                                assert((g@.links[e as int]).0 as int == u as int);
                                assert(reach_within(
                                    g@,
                                    src as int,
                                    (g@.links[e as int]).0 as int,
                                    level as nat,
                                ));
                                assert(g@.links[e as int].1 as int == w as int);
                            }
                            assert(!reach_within(g@, src as int, w as int, level as nat));
                            lemma_count_true_missing(visited@, w as int);
                            assert(vcount < n);
                            lemma_count_true_update(visited@, w as int);
                        }
                        let ghost old_visited = visited@;
                        let ghost old_next = next@;
                        visited[w] = true;
                        let d_new = level + 1;
                        dist[w] = d_new;
                        next.push(w);
                        vcount = vcount + 1;
                        proof {
                            assert(visited@ =~= old_visited.update(w as int, true));
                            assert(next@ =~= old_next.push(w));
                            assert(next@[next@.len() - 1] == w);
                            assert forall|v: int|
                                0 <= v < n implies ((#[trigger] visited@[v]) <==> (reach_within(
                                g@,
                                src as int,
                                v,
                                level as nat,
                            ) || next@.contains(v as usize))) by {
                                if v == w as int {
                                    assert(next@.contains(w));
                                } else {
                                    assert(visited@[v] == old_visited[v]);
                                    assert(forall|q: int|
                                        0 <= q < old_next.len() ==> next@[q] == old_next[q]);
                                    if next@.contains(v as usize) {
                                        let q = choose|q: int|
                                            0 <= q < next@.len() && next@[q] == v as usize;
                                        assert(q < old_next.len());
                                        assert(old_next.contains(v as usize));
                                    }
                                    if old_next.contains(v as usize) {
                                        let q = choose|q: int|
                                            0 <= q < old_next.len() && old_next[q] == v as usize;
                                        assert(next@[q] == v as usize);
                                        assert(next@.contains(v as usize));
                                    }
                                }
                            }
                        }
                    }
                }
                e = e + 1;
            }
            proof {
                assert forall|q: int, e2: int|
                    0 <= q < kf + 1 && 0 <= e2 < m_edges && (#[trigger] g@.links[e2]).0 == (
                    #[trigger] frontier@[q]) implies visited@[g@.links[e2].1 as int] by {
                    if q == kf as int {
                        assert(frontier@[q] == u);
                    }
                }
            }
            kf = kf + 1;
        }
        // every node at exact hop distance level + 1 is now discovered,
        // and `next` holds exactly those nodes
        proof {
            assert forall|v: int|
                0 <= v < n implies ((#[trigger] visited@[v]) <==> reach_within(
                g@,
                src as int,
                v,
                (level + 1) as nat,
            )) by {
                if visited@[v] {
                    if reach_within(g@, src as int, v, level as nat) {
                        lemma_reach_step(g@, src as int, v, level as nat);
                    } else {
                        assert(next@.contains(v as usize));
                        let q = choose|q: int| 0 <= q < next@.len() && next@[q] == v as usize;
                        assert(reach_within(g@, src as int, v, (level + 1) as nat));
                    }
                } else {
                    assert(!reach_within(g@, src as int, v, level as nat));
                    if reach_within(g@, src as int, v, (level + 1) as nat) {
                        assert(v != src as int) by {
                            if v == src as int {
                                assert(reach_within(g@, src as int, v, 0nat));
                                lemma_reach_mono(g@, src as int, v, 0nat, level as nat);
                            }
                        }
                        let k = choose|k: int|
                            0 <= k < g@.links.len() && reach_within(
                                g@,
                                src as int,
                                (#[trigger] g@.links[k]).0 as int,
                                level as nat,
                            ) && g@.links[k].1 as int == v;
                        let uu = g@.links[k].0;
                        assert(uu < n);
                        if level > 0 && reach_within(g@, src as int, uu as int, (level - 1) as nat) {
                            assert(reach_within(g@, src as int, v, level as nat));
                            assert(false);
                        }
                        assert(frontier@.contains(uu));
                        let q = choose|q: int|
                            0 <= q < frontier@.len() && frontier@[q] == uu;
                        assert(visited@[g@.links[k].1 as int]);
                        assert(false);
                    }
                }
            }
        }
        if next.len() == 0 {
            // no node lives at hop distance level + 1: the search is done
            proof {
                assert forall|w: int|
                    0 <= w < n && #[trigger] reach_within(g@, src as int, w, (level as nat + 1))
                        implies reach_within(g@, src as int, w, level as nat) by {
                    assert(visited@[w]);
                    if !reach_within(g@, src as int, w, level as nat) {
                        assert(next@.contains(w as usize));
                        assert(false);
                    }
                }
            }
            let mut dm: std::collections::HashMap<u32, u32> = std::collections::HashMap::new();
            let mut ii: usize = 0;
            while ii < n
                invariant
                    g.wf(),
                    n == g@.ids.len(),
                    src < n,
                    g@.ids[src as int] == start,
                    visited@.len() == n,
                    dist@.len() == n,
                    ii <= n,
                    forall|v: int|
                        0 <= v < n ==> ((#[trigger] visited@[v]) <==> reach_within(
                            g@,
                            src as int,
                            v,
                            level as nat,
                        )),
                    forall|v: int|
                        0 <= v < n && (#[trigger] visited@[v]) ==> reach_within(
                            g@,
                            src as int,
                            v,
                            dist@[v] as nat,
                        ) && (dist@[v] > 0 ==> !reach_within(
                            g@,
                            src as int,
                            v,
                            (dist@[v] - 1) as nat,
                        )),
                    forall|w: int|
                        0 <= w < n && #[trigger] reach_within(g@, src as int, w, (level as nat + 1))
                            ==> reach_within(g@, src as int, w, level as nat),
                    forall|p: int|
                        0 <= p < n ==> ((#[trigger] dm@.contains_key(g@.ids[p])) <==> (p < ii
                            && visited@[p])),
                    forall|p: int|
                        0 <= p < ii && (#[trigger] visited@[p]) ==> dm@[g@.ids[p]] == dist@[p],
                    forall|id: u32| #[trigger] dm@.contains_key(id) ==> g@.ids.contains(id),
                decreases n - ii,
            {
                if visited[ii] {
                    let id = g.node_id(ii);
                    let dv = dist[ii];
                    let ghost old_dm = dm@;
                    dm.insert(id, dv);
                    proof {
                        assert(dm@ == old_dm.insert(id, dv));
                        assert forall|p: int|
                            0 <= p < n implies ((#[trigger] dm@.contains_key(g@.ids[p])) <==> (p
                            < ii + 1 && visited@[p])) by {
                            if g@.ids[p] == id {
                                assert(p == ii as int);
                            }
                        }
                        assert(g@.ids.contains(id));
                    }
                }
                ii = ii + 1;
            }
            proof {
                let srci = src as int;
                assert forall|i: int|
                    0 <= i < g@.ids.len() implies ((#[trigger] dm@.contains_key(g@.ids[i]))
                    <==> reachable(g@, srci, i)) by {
                    if dm@.contains_key(g@.ids[i]) {
                        assert(visited@[i]);
                        assert(reach_within(g@, srci, i, level as nat));
                    }
                    if reachable(g@, srci, i) {
                        let d = choose|d: nat| reach_within(g@, srci, i, d);
                        lemma_reach_collapse(g@, srci, i, d, level as nat);
                        assert(visited@[i]);
                    }
                }
                assert forall|i: int|
                    0 <= i < g@.ids.len() && (#[trigger] dm@.contains_key(g@.ids[i])) implies {
                    &&& reach_within(g@, srci, i, dm@[g@.ids[i]] as nat)
                    &&& forall|d2: nat| d2 < dm@[g@.ids[i]] ==> !reach_within(g@, srci, i, d2)
                } by {
                    assert(visited@[i]);
                    assert(dm@[g@.ids[i]] == dist@[i]);
                    assert forall|d2: nat| d2 < dm@[g@.ids[i]] implies !reach_within(
                        g@,
                        srci,
                        i,
                        d2,
                    ) by {
                        if reach_within(g@, srci, i, d2) {
                            lemma_reach_mono(g@, srci, i, d2, (dist@[i] - 1) as nat);
                        }
                    }
                }
                assert(id_index(g@.ids, start) == srci);
            }
            return Ok(dm);
        }
        frontier = next;
        level = level + 1;
        proof {
            assert forall|v: int|
                0 <= v < n && #[trigger] reach_within(g@, src as int, v, level as nat) && (level
                    > 0 ==> !reach_within(g@, src as int, v, (level - 1) as nat))
                    implies frontier@.contains(v as usize) by {
                assert(visited@[v]);
                if reach_within(g@, src as int, v, (level - 1) as nat) {
                    assert(false);
                }
                assert(frontier@.contains(v as usize));
            }
        }
    }
}


/// What `degree_analysis` states of its result.
pub open spec fn degree_stats_match(m: GraphModel, r: DegreeStats) -> bool {
    &&& r.node_count == m.ids.len()
    &&& r.in_degree_sum as int == in_deg_sum(m.links, m.ids.len() as int)
    &&& r.out_degree_sum as int == out_deg_sum(m.links, m.ids.len() as int)
}

/// What `clustering_coefficient` states of a successful result.
pub open spec fn clustering_match(m: GraphModel, node: u32, cm: ClusteringMeasure) -> bool {
    &&& cm.connected_pairs as int == clustering_of(m, node).0
    &&& cm.total_pairs as int == clustering_of(m, node).1
}

/// Re-running the degree analyzer on the same graph yields the same
/// result: the contract pins the result as a function of the graph.
pub proof fn lemma_degree_analysis_deterministic(m: GraphModel, r1: DegreeStats, r2: DegreeStats)
    requires
        degree_stats_match(m, r1),
        degree_stats_match(m, r2),
    ensures
        r1 == r2,
{
}

/// Re-running the clustering analyzer on the same graph and node yields
/// the same result.
pub proof fn lemma_clustering_deterministic(
    m: GraphModel,
    node: u32,
    cm1: ClusteringMeasure,
    cm2: ClusteringMeasure,
)
    requires
        clustering_match(m, node, cm1),
        clustering_match(m, node, cm2),
    ensures
        cm1 == cm2,
{
}

/// Re-running the shortest-path engine on the same graph and source
/// yields the same distance map: the keys are pinned to the reachable
/// nodes and each value to the unique minimal hop count.
pub proof fn lemma_distances_deterministic(
    m: GraphModel,
    src: int,
    dm1: Map<u32, u32>,
    dm2: Map<u32, u32>,
)
    requires
        m.ids.no_duplicates(),
        distances_post(m, src, dm1),
        distances_post(m, src, dm2),
    ensures
        dm1 == dm2,
{
    assert forall|id: u32| #[trigger] dm1.contains_key(id) implies dm2.contains_key(id) by {
        assert(m.ids.contains(id));
        let i = choose|i: int| 0 <= i < m.ids.len() && m.ids[i] == id;
        assert(dm1.contains_key(m.ids[i]));
        assert(reachable(m, src, i));
        assert(dm2.contains_key(m.ids[i]));
    }
    assert forall|id: u32| #[trigger] dm2.contains_key(id) implies dm1.contains_key(id) by {
        assert(m.ids.contains(id));
        let i = choose|i: int| 0 <= i < m.ids.len() && m.ids[i] == id;
        assert(dm2.contains_key(m.ids[i]));
        assert(reachable(m, src, i));
        assert(dm1.contains_key(m.ids[i]));
    }
    assert forall|id: u32| #[trigger] dm1.contains_key(id) implies dm1[id] == dm2[id] by {
        assert(m.ids.contains(id));
        let i = choose|i: int| 0 <= i < m.ids.len() && m.ids[i] == id;
        assert(dm1.contains_key(m.ids[i]));
        assert(dm2.contains_key(m.ids[i]));
        let d1 = dm1[m.ids[i]];
        let d2 = dm2[m.ids[i]];
        if d1 < d2 {
            assert(reach_within(m, src, i, d1 as nat));
            assert(!reach_within(m, src, i, d1 as nat));
        }
        if d2 < d1 {
            assert(reach_within(m, src, i, d2 as nat));
            assert(!reach_within(m, src, i, d2 as nat));
        }
    }
    assert(dm1 =~= dm2);
}

} // verus!
