use vstd::prelude::*;
use crate::grid::cell_neighbors;
use crate::grid::ipair;
use crate::grid::ipair_fn;
use crate::grid::ipos;
use crate::grid::lemma_add_contains;
use crate::grid::lemma_all_pairs_elems;
use crate::grid::lemma_pos_at_inverse;
use crate::grid::neighboring_indices;
use crate::grid::pos_at;
use crate::grid::positions;
use crate::grid::spec_all_pairs;
use crate::grid::spec_in_bounds;
use crate::grid::moore_adjacent;
use petgraph::Undirected;
use petgraph::graph::Graph;
use petgraph::graph::NodeIndex;

verus! {

#[verifier::external_type_specification]
#[verifier::external_body]
#[verifier::reject_recursive_types(N)]
#[verifier::reject_recursive_types(E)]
#[verifier::reject_recursive_types(Ty)]
#[verifier::reject_recursive_types(Ix)]
pub struct ExGraph<N, E, Ty, Ix>(Graph<N, E, Ty, Ix>);

#[verifier::external_type_specification]
#[verifier::external_body]
pub struct ExUndirected(Undirected);

/// The number of nodes a cell graph holds.
pub uninterp spec fn graph_nodes(g: Graph<(), (), Undirected, u32>) -> nat;

/// The edges a cell graph holds, as pairs of node indices in insertion order.
pub uninterp spec fn graph_edges(g: Graph<(), (), Undirected, u32>) -> Seq<(nat, nat)>;

/// Relies on petgraph's Graph::new_undirected: the new graph has no nodes
/// and no edges.
#[verifier::external_body]
pub(crate) fn graph_new_undirected() -> (g: Graph<(), (), Undirected, u32>)
    ensures
        graph_nodes(g) == 0,
        graph_edges(g) == Seq::<(nat, nat)>::empty(),
{
    Graph::new_undirected()
}

/// Relies on petgraph's Graph::add_node: it appends one node and returns its
/// index, and indices count up from zero in insertion order.
#[verifier::external_body]
pub(crate) fn graph_add_node(g: &mut Graph<(), (), Undirected, u32>) -> (ix: usize)
    requires
        graph_nodes(*old(g)) < 0xffff_ffff,
    ensures
        ix == graph_nodes(*old(g)),
        graph_nodes(*final(g)) == graph_nodes(*old(g)) + 1,
        graph_edges(*final(g)) == graph_edges(*old(g)),
{
    g.add_node(()).index()
}

/// Relies on petgraph's Graph::add_edge: it appends one edge between two
/// existing nodes and leaves the node set as it was.
#[verifier::external_body]
pub(crate) fn graph_add_edge(g: &mut Graph<(), (), Undirected, u32>, a: usize, b: usize)
    requires
        a < graph_nodes(*old(g)),
        b < graph_nodes(*old(g)),
        graph_edges(*old(g)).len() < 0xffff_ffff,
    ensures
        graph_nodes(*final(g)) == graph_nodes(*old(g)),
        graph_edges(*final(g)) == graph_edges(*old(g)).push((a as nat, b as nat)),
{
    g.add_edge(NodeIndex::new(a), NodeIndex::new(b), ());
}

/// An edge joining n and m, in either orientation.
pub open spec fn edge_between(es: Seq<(nat, nat)>, n: nat, m: nat) -> bool {
    exists|k: int| 0 <= k < es.len() && ((#[trigger] es[k]) == (n, m) || es[k] == (m, n))
}

/// Relies on petgraph's Graph::neighbors on an undirected graph: it yields
/// exactly the nodes joined to n by an edge of either orientation.  The
/// bound on n keeps the conversion into the graph's 32-bit index type from
/// truncating.
#[verifier::external_body]
pub(crate) fn graph_neighbors(g: &Graph<(), (), Undirected, u32>, n: usize) -> (r: Vec<usize>)
    requires
        n < 0x1_0000_0000,
    ensures
        forall|m: usize| #[trigger]
            r@.contains(m) <==> edge_between(graph_edges(*g), n as nat, m as nat),
{
    g.neighbors(NodeIndex::new(n)).map(|ix: NodeIndex<u32>| ix.index()).collect()
}

/// The reversed orientation of a directed pair.
pub open spec fn flip(e: ((int, int), (int, int))) -> ((int, int), (int, int)) {
    (e.1, e.0)
}

/// The directed pairs kept by the first-orientation-wins deduplication: a
/// pair stays exactly when neither it nor its reverse occurred earlier.
pub open spec fn spec_dedup(s: Seq<((int, int), (int, int))>) -> Seq<((int, int), (int, int))>
    decreases s.len(),
{
    if s.len() == 0 {
        s
    } else {
        let pre = s.drop_last();
        spec_dedup(pre) + (if pre.contains(s.last()) || pre.contains(flip(s.last())) {
            Seq::<((int, int), (int, int))>::empty()
        } else {
            seq![s.last()]
        })
    }
}

/// Deduplication keeps only pairs of the enumeration it was given.
pub proof fn lemma_dedup_sub(s: Seq<((int, int), (int, int))>)
    ensures
        forall|e: ((int, int), (int, int))| #[trigger]
            spec_dedup(s).contains(e) ==> s.contains(e),
        spec_dedup(s).len() <= s.len(),
    decreases s.len(),
{
    if s.len() > 0 {
        let pre = s.drop_last();
        lemma_dedup_sub(pre);
        assert forall|e: ((int, int), (int, int))| #[trigger]
            spec_dedup(s).contains(e) implies s.contains(e) by {
            lemma_add_contains(
                spec_dedup(pre),
                if pre.contains(s.last()) || pre.contains(flip(s.last())) {
                    Seq::<((int, int), (int, int))>::empty()
                } else {
                    seq![s.last()]
                },
                e,
            );
            if spec_dedup(pre).contains(e) {
                let i = choose|i: int| 0 <= i < pre.len() && pre[i] == e;
                assert(s[i] == e);
            } else {
                assert(e == s.last());
                assert(s[s.len() - 1] == e);
            }
        }
    }
}

/// A pair or its reverse survives deduplication exactly when the pair or
/// its reverse occurred at all.
pub proof fn lemma_dedup_membership(s: Seq<((int, int), (int, int))>)
    ensures
        forall|e: ((int, int), (int, int))|
            (#[trigger] spec_dedup(s).contains(e)) || spec_dedup(s).contains(flip(e)) <==> (
            s.contains(e) || s.contains(flip(e))),
    decreases s.len(),
{
    lemma_dedup_sub(s);
    if s.len() > 0 {
        let pre = s.drop_last();
        lemma_dedup_membership(pre);
        let tail = if pre.contains(s.last()) || pre.contains(flip(s.last())) {
            Seq::<((int, int), (int, int))>::empty()
        } else {
            seq![s.last()]
        };
        assert forall|e: ((int, int), (int, int))|
            (#[trigger] spec_dedup(s).contains(e)) || spec_dedup(s).contains(flip(e)) <==> (
            s.contains(e) || s.contains(flip(e))) by {
            lemma_add_contains(spec_dedup(pre), tail, e);
            lemma_add_contains(spec_dedup(pre), tail, flip(e));
            if s.contains(e) || s.contains(flip(e)) {
                if pre.contains(e) || pre.contains(flip(e)) {
                    assert(spec_dedup(pre).contains(e) || spec_dedup(pre).contains(flip(e)));
                } else {
                    let i = choose|i: int|
                        0 <= i < s.len() && (s[i] == e || s[i] == flip(e));
                    if i < pre.len() {
                        assert(pre[i] == e || pre[i] == flip(e));
                        assert(pre.contains(e) || pre.contains(flip(e)));
                    } else {
                        assert(s.last() == e || s.last() == flip(e));
                        assert(!(pre.contains(s.last()) || pre.contains(flip(s.last()))));
                        assert(tail[0] == s.last());
                        assert(tail.contains(s.last()));
                    }
                }
            }
            if spec_dedup(s).contains(e) {
                let i = choose|i: int| 0 <= i < spec_dedup(s).len() && spec_dedup(s)[i] == e;
                assert(s.contains(e));
            }
            if spec_dedup(s).contains(flip(e)) {
                assert(s.contains(flip(e)));
            }
        }
    }
}

/// No pair survives deduplication twice, in either orientation: the edge
/// set of the cell graph has no duplicate and no reversed duplicate.
pub proof fn lemma_dedup_no_duplicates(s: Seq<((int, int), (int, int))>)
    ensures
        forall|i: int, j: int|
            0 <= i < j < spec_dedup(s).len() ==> (#[trigger] spec_dedup(s)[i])
                != #[trigger] spec_dedup(s)[j] && spec_dedup(s)[i] != flip(spec_dedup(s)[j]),
    decreases s.len(),
{
    if s.len() > 0 {
        let pre = s.drop_last();
        lemma_dedup_no_duplicates(pre);
        lemma_dedup_sub(pre);
        let d = spec_dedup(s);
        let dpre = spec_dedup(pre);
        assert forall|i: int, j: int| 0 <= i < j < d.len() implies (#[trigger] d[i])
            != #[trigger] d[j] && d[i] != flip(d[j]) by {
            if j < dpre.len() {
                assert(d[i] == dpre[i] && d[j] == dpre[j]);
            } else {
                assert(d.len() == dpre.len() + 1);
                assert(d[j] == s.last());
                assert(d[i] == dpre[i]);
                assert(dpre.contains(dpre[i]));
                assert(pre.contains(d[i]));
                assert(!(pre.contains(s.last()) || pre.contains(flip(s.last()))));
                if d[i] == flip(d[j]) {
                    assert(flip(flip(d[j])) == d[j]);
                    assert(pre.contains(flip(s.last())));
                }
            }
        }
    }
}

/// The row-major node index of a cell.
pub open spec fn cell_index(y: int, p: (int, int)) -> int {
    p.0 * y + p.1
}

/// The pair of node indices of a pair of cells, as a function value.
pub open spec fn edge_index_fn(y: int) -> spec_fn(((int, int), (int, int))) -> (nat, nat) {
    |e: ((int, int), (int, int))| (cell_index(y, e.0) as nat, cell_index(y, e.1) as nat)
}

/// The deduplicated Moore edges of the board, as node index pairs.
pub open spec fn spec_index_edges(x: int, y: int) -> Seq<(nat, nat)> {
    spec_dedup(spec_all_pairs(x, y, x * y)).map_values(edge_index_fn(y))
}

/// The enumeration never lists more than eight pairs per cell.
pub proof fn lemma_all_pairs_len(x: int, y: int, n: int)
    requires
        0 <= n,
    ensures
        spec_all_pairs(x, y, n).len() <= 8 * n,
    decreases n,
{
    if n > 0 {
        lemma_all_pairs_len(x, y, n - 1);
    }
}

/// The row-major node index of an in-bounds cell, as a machine integer.
pub fn node_index_of(x: i32, y: i32, p: (i32, i32)) -> (k: usize)
    requires
        1 <= x,
        1 <= y,
        x as int * y as int <= 0x0800_0000,
        spec_in_bounds(x as int, y as int, ipos(p)),
    ensures
        k == cell_index(y as int, ipos(p)),
        k < x as int * y as int,
{
    proof {
        lemma_pos_at_inverse(x as int, y as int, ipos(p));
        assert(0 <= p.0 as int * y as int) by (nonlinear_arith)
            requires
                0 <= p.0,
                1 <= y,
        ;
    }
    (p.0 * y + p.1) as usize
}

/// Linear scan for a directed pair among the kept edges.
fn edge_in(v: &Vec<((i32, i32), (i32, i32))>, e: ((i32, i32), (i32, i32))) -> (r: bool)
    ensures
        r == v@.map_values(ipair_fn()).contains(ipair(e)),
{
    let mut k: usize = 0;
    while k < v.len()
        invariant
            0 <= k <= v@.len(),
            forall|i: int| 0 <= i < k ==> ipair(#[trigger] v@[i]) != ipair(e),
        decreases v@.len() - k,
    {
        let c = v[k];
        if c.0.0 == e.0.0 && c.0.1 == e.0.1 && c.1.0 == e.1.0 && c.1.1 == e.1.1 {
            proof {
                assert(v@.map_values(ipair_fn())[k as int] == ipair(e));
            }
            return true;
        }
        k = k + 1;
    }
    proof {
        if v@.map_values(ipair_fn()).contains(ipair(e)) {
            let i = choose|i: int|
                0 <= i < v@.map_values(ipair_fn()).len() && v@.map_values(ipair_fn())[i] == ipair(
                    e,
                );
            assert(ipair(v@[i]) == ipair(e));
        }
    }
    false
}

/// Build the undirected cell graph: one node per cell in row-major order,
/// one edge per adjacent pair, first orientation found kept, the reverse
/// discarded.  The bound on the board's area keeps every node and edge
/// index inside the graph's 32-bit index type.
pub fn build_graph(x: i32, y: i32) -> (g: Graph<(), (), Undirected, u32>)
    requires
        1 <= x,
        1 <= y,
        x as int * y as int <= 0x0800_0000,
    ensures
        graph_nodes(g) == x as int * y as int,
        graph_edges(g) == spec_index_edges(x as int, y as int),
{
    let mut g = graph_new_undirected();
    let ps = positions(x, y);
    let mut n: usize = 0;
    while n < ps.len()
        invariant
            ps@.len() == x as int * y as int,
            x as int * y as int <= 0x0800_0000,
            0 <= n <= ps@.len(),
            graph_nodes(g) == n,
            graph_edges(g) == Seq::<(nat, nat)>::empty(),
        decreases ps@.len() - n,
    {
        graph_add_node(&mut g);
        n = n + 1;
    }
    let prs = neighboring_indices(x, y);
    proof {
        assert(0 <= x as int * y as int) by (nonlinear_arith)
            requires
                1 <= x,
                1 <= y,
        ;
        lemma_all_pairs_len(x as int, y as int, x as int * y as int);
        assert(prs@.len() == prs@.map_values(ipair_fn()).len());
    }
    let mut kept: Vec<((i32, i32), (i32, i32))> = Vec::new();
    let mut k: usize = 0;
    while k < prs.len()
        invariant
            1 <= x,
            1 <= y,
            x as int * y as int <= 0x0800_0000,
            prs@.map_values(ipair_fn()) == spec_all_pairs(x as int, y as int, x as int * y as int),
            prs@.len() <= 8 * (x as int * y as int),
            0 <= k <= prs@.len(),
            kept@.map_values(ipair_fn()) == spec_dedup(
                prs@.map_values(ipair_fn()).take(k as int),
            ),
            graph_nodes(g) == x as int * y as int,
            graph_edges(g) == spec_dedup(prs@.map_values(ipair_fn()).take(k as int)).map_values(
                edge_index_fn(y as int),
            ),
        decreases prs@.len() - k,
    {
        let ghost av = prs@.map_values(ipair_fn());
        let e = prs[k];
        let dup = edge_in(&kept, e) || edge_in(&kept, (e.1, e.0));
        proof {
            assert(av.take(k as int + 1).drop_last() =~= av.take(k as int));
            assert(av.take(k as int + 1).last() == ipair(e));
            lemma_dedup_membership(av.take(k as int));
            assert(ipair((e.1, e.0)) == flip(ipair(e)));
        }
        if !dup {
            let ghost prevkept = kept@;
            let ghost prevedges = graph_edges(g);
            kept.push(e);
            proof {
                lemma_all_pairs_elems(x as int, y as int, x as int * y as int);
                assert(av[k as int] == ipair(e));
                assert(av.contains(ipair(e)));
                lemma_dedup_sub(av.take(k as int));
                assert(prevedges.len() <= k);
            }
            let a = node_index_of(x, y, e.0);
            let b = node_index_of(x, y, e.1);
            graph_add_edge(&mut g, a, b);
            proof {
                assert(spec_dedup(av.take(k as int + 1)) =~= spec_dedup(av.take(k as int)).push(
                    ipair(e),
                ));
                assert(kept@.map_values(ipair_fn()) =~= prevkept.map_values(ipair_fn()).push(
                    ipair(e),
                ));
                assert(edge_index_fn(y as int)(ipair(e)) == (a as nat, b as nat));
                assert(graph_edges(g) =~= spec_dedup(av.take(k as int + 1)).map_values(
                    edge_index_fn(y as int),
                ));
            }
        } else {
            proof {
                assert(spec_dedup(av.take(k as int + 1)) =~= spec_dedup(av.take(k as int)));
            }
        }
        k = k + 1;
    }
    proof {
        assert(prs@.map_values(ipair_fn()).take(prs@.len() as int) =~= prs@.map_values(
            ipair_fn(),
        ));
    }
    g
}

/// Two in-bounds cells are joined in the deduplicated edge set exactly when
/// they are Moore-adjacent: the cell graph carries the whole adjacency
/// relation and nothing else.
pub proof fn lemma_index_edge_iff(x: int, y: int, p: (int, int), q: (int, int))
    requires
        1 <= x,
        1 <= y,
        spec_in_bounds(x, y, p),
        spec_in_bounds(x, y, q),
    ensures
        edge_between(
            spec_index_edges(x, y),
            cell_index(y, p) as nat,
            cell_index(y, q) as nat,
        ) <==> moore_adjacent(p, q),
{
    let alls = spec_all_pairs(x, y, x * y);
    let ded = spec_dedup(alls);
    let es = spec_index_edges(x, y);
    lemma_all_pairs_elems(x, y, x * y);
    lemma_dedup_sub(alls);
    lemma_dedup_membership(alls);
    lemma_pos_at_inverse(x, y, p);
    lemma_pos_at_inverse(x, y, q);
    let a = cell_index(y, p) as nat;
    let b = cell_index(y, q) as nat;
    if moore_adjacent(p, q) {
        assert(alls.contains(((p, q))));
        assert(ded.contains((p, q)) || ded.contains(flip((p, q))));
        if ded.contains((p, q)) {
            let i = choose|i: int| 0 <= i < ded.len() && ded[i] == (p, q);
            assert(es[i] == (a, b));
            assert(edge_between(es, a, b));
        } else {
            let i = choose|i: int| 0 <= i < ded.len() && ded[i] == flip((p, q));
            assert(es[i] == (b, a));
            assert(edge_between(es, a, b));
        }
    }
    if edge_between(es, a, b) {
        let i = choose|i: int| 0 <= i < es.len() && (es[i] == (a, b) || es[i] == (b, a));
        let d = ded[i];
        assert(ded.contains(d));
        assert(alls.contains(d));
        assert(spec_in_bounds(x, y, d.0) && spec_in_bounds(x, y, d.1) && moore_adjacent(d.0, d.1));
        lemma_pos_at_inverse(x, y, d.0);
        lemma_pos_at_inverse(x, y, d.1);
        assert(es[i] == (cell_index(y, d.0) as nat, cell_index(y, d.1) as nat));
        if es[i] == (a, b) {
            assert(pos_at(y, cell_index(y, d.0)) == pos_at(y, cell_index(y, p)));
            assert(d.0 == p && d.1 == q);
        } else {
            assert(pos_at(y, cell_index(y, d.0)) == pos_at(y, cell_index(y, q)));
            assert(d.0 == q && d.1 == p);
        }
    }
}

} // verus!
