//! The link structure PageRank iterates over: for every node its out-degree
//! and the nodes linking to it. Edges naming an unknown node are skipped, so
//! they change nothing (`lemma_unknown_edges_ignored`).
//! The iteration itself works in floating point and lives with the caller.

use std::collections::HashMap;

use vstd::prelude::*;

use crate::ids::SymbolId;

verus! {

broadcast use vstd::std_specs::hash::group_hash_axioms;

/// Position of the last of the first `k` nodes with id `id`.
pub open spec fn node_pos(nodes: Seq<SymbolId>, id: SymbolId, k: nat) -> Option<usize>
    decreases k,
{
    if k == 0 {
        None
    } else if nodes[k - 1] == id {
        Some((k - 1) as usize)
    } else {
        node_pos(nodes, id, (k - 1) as nat)
    }
}

/// Node positions of an edge's two ends, when both are nodes.
pub open spec fn edge_ends(nodes: Seq<SymbolId>, e: (SymbolId, SymbolId)) -> Option<(usize, usize)> {
    match (node_pos(nodes, e.0, nodes.len()), node_pos(nodes, e.1, nodes.len())) {
        (Some(u), Some(v)) => Some((u, v)),
        _ => None,
    }
}

/// How many of the first `k` edges leave node position `u`.
pub open spec fn out_count(nodes: Seq<SymbolId>, edges: Seq<(SymbolId, SymbolId)>, u: int, k: nat) -> nat
    decreases k,
{
    if k == 0 {
        0
    } else {
        out_count(nodes, edges, u, (k - 1) as nat) + match edge_ends(nodes, edges[k - 1]) {
            Some((a, _)) => if a == u {
                1nat
            } else {
                0nat
            },
            None => 0nat,
        }
    }
}

/// Source positions of the first `k` edges that enter node position `v`, in
/// edge order.
pub open spec fn sources_into(
    nodes: Seq<SymbolId>,
    edges: Seq<(SymbolId, SymbolId)>,
    v: int,
    k: nat,
) -> Seq<usize>
    decreases k,
{
    if k == 0 {
        Seq::empty()
    } else {
        let prev = sources_into(nodes, edges, v, (k - 1) as nat);
        match edge_ends(nodes, edges[k - 1]) {
            Some((a, b)) => if b == v {
                prev.push(a)
            } else {
                prev
            },
            None => prev,
        }
    }
}

/// The graph PageRank walks: per node position, its out-degree and the
/// positions of the nodes linking to it.
pub struct RankGraph {
    pub out_degree: Vec<usize>,
    pub incoming: Vec<Vec<usize>>,
}

/// The slot of `id` in a map from raw ids to positions.
pub open spec fn pos_slot(m: Map<i64, usize>, id: SymbolId) -> Option<usize> {
    if m.contains_key(id.0) {
        Some(m[id.0])
    } else {
        None
    }
}

proof fn lemma_node_pos_bounded(nodes: Seq<SymbolId>, id: SymbolId, k: nat)
    requires
        k <= nodes.len(),
        k <= usize::MAX + 1,
    ensures
        node_pos(nodes, id, k) matches Some(i) ==> i < k,
    decreases k,
{
    if k > 0 {
        lemma_node_pos_bounded(nodes, id, (k - 1) as nat);
    }
}

/// Build the link structure of `nodes` under `edges`. Position `i` stands
/// for `nodes[i]`; when an id is listed twice, its last position is used.
pub fn rank_graph(nodes: &[SymbolId], edges: &[(SymbolId, SymbolId)]) -> (g: RankGraph)
    ensures
        g.out_degree@.len() == nodes@.len(),
        g.incoming@.len() == nodes@.len(),
        forall|u: int| 0 <= u < nodes@.len() ==> #[trigger] g.out_degree@[u] == out_count(nodes@, edges@, u, edges@.len()),
        forall|v: int| 0 <= v < nodes@.len() ==> #[trigger] g.incoming@[v]@ == sources_into(nodes@, edges@, v, edges@.len()),
        forall|u: int| 0 <= u < nodes@.len() ==> #[trigger] g.out_degree@[u] == leaving_count(nodes@, edges@, u),
        forall|v: int| 0 <= v < nodes@.len() ==> #[trigger] g.incoming@[v]@.len() == entering_count(nodes@, edges@, v),
        forall|j: int, u: int, v: int|
            0 <= j < edges@.len() && #[trigger] last_position(nodes@, edges@[j].0, u) && #[trigger] last_position(
                nodes@,
                edges@[j].1,
                v,
            ) ==> g.incoming@[v]@.contains(u as usize),
{
    let n = nodes.len();
    let mut index: HashMap<i64, usize> = HashMap::new();
    let mut i: usize = 0;
    while i < n
        invariant
            n == nodes@.len(),
            i <= n,
            forall|id: SymbolId| #[trigger] pos_slot(index@, id) == node_pos(nodes@, id, i as nat),
        decreases n - i,
    {
        let ghost old_m = index@;
        index.insert(nodes[i].0, i);
        proof {
            assert forall|id: SymbolId| #[trigger] pos_slot(index@, id) == node_pos(nodes@, id, (i + 1) as nat) by {
                if id.0 != nodes@[i as int].0 {
                    assert(pos_slot(old_m, id) == node_pos(nodes@, id, i as nat));
                } else {
                    assert(id == nodes@[i as int]);
                }
            }
        }
        i += 1;
    }

    let mut out_degree: Vec<usize> = Vec::new();
    let mut incoming: Vec<Vec<usize>> = Vec::new();
    let mut j: usize = 0;
    while j < n
        invariant
            n == nodes@.len(),
            j <= n,
            out_degree@.len() == j,
            incoming@.len() == j,
            forall|u: int| 0 <= u < j ==> #[trigger] out_degree@[u] == 0,
            forall|v: int| 0 <= v < j ==> #[trigger] incoming@[v]@ == Seq::<usize>::empty(),
        decreases n - j,
    {
        out_degree.push(0);
        incoming.push(Vec::new());
        j += 1;
    }

    let mut k: usize = 0;
    while k < edges.len()
        invariant
            n == nodes@.len(),
            k <= edges.len(),
            forall|id: SymbolId| #[trigger] pos_slot(index@, id) == node_pos(nodes@, id, n as nat),
            out_degree@.len() == n,
            incoming@.len() == n,
            forall|u: int| 0 <= u < n ==> #[trigger] out_degree@[u] == out_count(nodes@, edges@, u, k as nat),
            forall|u: int| 0 <= u < n ==> #[trigger] out_degree@[u] <= k,
            forall|v: int| 0 <= v < n ==> #[trigger] incoming@[v]@ == sources_into(nodes@, edges@, v, k as nat),
        decreases edges.len() - k,
    {
        let (src, dst) = edges[k];
        proof {
            assert(pos_slot(index@, src) == node_pos(nodes@, src, n as nat));
            assert(pos_slot(index@, dst) == node_pos(nodes@, dst, n as nat));
            lemma_node_pos_bounded(nodes@, src, n as nat);
            lemma_node_pos_bounded(nodes@, dst, n as nat);
        }
        let su = index.get(&src.0);
        let dv = index.get(&dst.0);
        match (su, dv) {
            (Some(u), Some(v)) => {
                let u = *u;
                let v = *v;
                let ghost old_out = out_degree@;
                let ghost old_in = incoming@;
                let d = out_degree[u];
                out_degree.set(u, d + 1);
                let mut list: Vec<usize> = Vec::new();
                incoming.set_and_swap(v, &mut list);
                list.push(u);
                incoming.set(v, list);
                proof {
                    assert(edge_ends(nodes@, edges@[k as int]) == Some((u, v)));
                    assert forall|x: int| 0 <= x < n implies #[trigger] out_degree@[x] == out_count(nodes@, edges@, x, (k + 1) as nat) by {
                        assert(old_out[x] == out_count(nodes@, edges@, x, k as nat));
                    }
                    assert forall|x: int| 0 <= x < n implies #[trigger] out_degree@[x] <= k + 1 by {
                        assert(old_out[x] <= k);
                    }
                    assert forall|x: int| 0 <= x < n implies #[trigger] incoming@[x]@ == sources_into(nodes@, edges@, x, (k + 1) as nat) by {
                        assert(old_in[x]@ == sources_into(nodes@, edges@, x, k as nat));
                    }
                }
            },
            _ => {
                proof {
                    assert(edge_ends(nodes@, edges@[k as int]) is None);
                    assert forall|x: int| 0 <= x < n implies #[trigger] out_degree@[x] == out_count(nodes@, edges@, x, (k + 1) as nat) by {
                        assert(out_degree@[x] == out_count(nodes@, edges@, x, k as nat));
                    }
                    assert forall|x: int| 0 <= x < n implies #[trigger] incoming@[x]@ == sources_into(nodes@, edges@, x, (k + 1) as nat) by {
                        assert(incoming@[x]@ == sources_into(nodes@, edges@, x, k as nat));
                    }
                }
            },
        }
        k += 1;
    }
    proof {
        lemma_every_known_edge_counts(nodes@, edges@);
    }
    RankGraph { out_degree, incoming }
}

/// Whether `u` is the last position of `id` among the nodes.
pub open spec fn last_position(nodes: Seq<SymbolId>, id: SymbolId, u: int) -> bool {
    &&& 0 <= u < nodes.len()
    &&& nodes[u] == id
    &&& forall|x: int| u < x < nodes.len() ==> nodes[x] != id
}

/// Whether an edge leaves the node at position `u` and enters a node.
pub open spec fn leaves(nodes: Seq<SymbolId>, u: int, e: (SymbolId, SymbolId)) -> bool {
    last_position(nodes, e.0, u) && nodes.contains(e.1)
}

/// Whether an edge enters the node at position `v` from a node.
pub open spec fn enters(nodes: Seq<SymbolId>, v: int, e: (SymbolId, SymbolId)) -> bool {
    last_position(nodes, e.1, v) && nodes.contains(e.0)
}

/// How many edges leave the node at position `x` for a node.
pub open spec fn leaving_count(nodes: Seq<SymbolId>, edges: Seq<(SymbolId, SymbolId)>, x: int) -> nat {
    edges.filter(|e: (SymbolId, SymbolId)| leaves(nodes, x, e)).len()
}

/// How many edges enter the node at position `x` from a node.
pub open spec fn entering_count(nodes: Seq<SymbolId>, edges: Seq<(SymbolId, SymbolId)>, x: int) -> nat {
    edges.filter(|e: (SymbolId, SymbolId)| enters(nodes, x, e)).len()
}

proof fn lemma_node_pos_is_last(nodes: Seq<SymbolId>, id: SymbolId, k: nat)
    requires
        k <= nodes.len(),
        nodes.len() <= usize::MAX,
    ensures
        match node_pos(nodes, id, k) {
            Some(u) => u < k && nodes[u as int] == id && forall|x: int| u < x < k ==> nodes[x] != id,
            None => forall|x: int| 0 <= x < k ==> nodes[x] != id,
        },
    decreases k,
{
    if k > 0 {
        lemma_node_pos_is_last(nodes, id, (k - 1) as nat);
    }
}

proof fn lemma_edge_ends_are_last_positions(nodes: Seq<SymbolId>, e: (SymbolId, SymbolId))
    requires
        nodes.len() <= usize::MAX,
    ensures
        match edge_ends(nodes, e) {
            Some((u, v)) => last_position(nodes, e.0, u as int) && last_position(nodes, e.1, v as int),
            None => !(nodes.contains(e.0) && nodes.contains(e.1)),
        },
        forall|u: int| #[trigger] last_position(nodes, e.0, u) && nodes.contains(e.1) ==> (edge_ends(nodes, e) is Some && edge_ends(nodes, e).unwrap().0 == u),
        forall|v: int| #[trigger] last_position(nodes, e.1, v) && nodes.contains(e.0) ==> (edge_ends(nodes, e) is Some && edge_ends(nodes, e).unwrap().1 == v),
{
    lemma_node_pos_is_last(nodes, e.0, nodes.len());
    lemma_node_pos_is_last(nodes, e.1, nodes.len());
    if edge_ends(nodes, e) is None {
        if nodes.contains(e.0) && nodes.contains(e.1) {
            let i = choose|i: int| 0 <= i < nodes.len() && nodes[i] == e.0;
            let j = choose|j: int| 0 <= j < nodes.len() && nodes[j] == e.1;
            assert(false);
        }
    }
    assert forall|u: int| #[trigger] last_position(nodes, e.0, u) && nodes.contains(e.1) implies (edge_ends(nodes, e) is Some && edge_ends(nodes, e).unwrap().0 == u) by {
        let j = choose|j: int| 0 <= j < nodes.len() && nodes[j] == e.1;
        assert(nodes[j] == e.1);
    }
    assert forall|v: int| #[trigger] last_position(nodes, e.1, v) && nodes.contains(e.0) implies (edge_ends(nodes, e) is Some && edge_ends(nodes, e).unwrap().1 == v) by {
        let j = choose|j: int| 0 <= j < nodes.len() && nodes[j] == e.0;
        assert(nodes[j] == e.0);
    }
}

proof fn lemma_counts_are_filters(nodes: Seq<SymbolId>, edges: Seq<(SymbolId, SymbolId)>, x: int, k: nat)
    requires
        nodes.len() <= usize::MAX,
        k <= edges.len(),
    ensures
        out_count(nodes, edges, x, k) == edges.take(k as int).filter(|e: (SymbolId, SymbolId)| leaves(nodes, x, e)).len(),
        sources_into(nodes, edges, x, k).len() == edges.take(k as int).filter(|e: (SymbolId, SymbolId)| enters(nodes, x, e)).len(),
    decreases k,
{
    reveal(Seq::filter);
    let lp = |e: (SymbolId, SymbolId)| leaves(nodes, x, e);
    let ep = |e: (SymbolId, SymbolId)| enters(nodes, x, e);
    if k == 0 {
        assert(edges.take(0) =~= Seq::<(SymbolId, SymbolId)>::empty());
    } else {
        lemma_counts_are_filters(nodes, edges, x, (k - 1) as nat);
        let t = edges.take(k as int);
        assert(t.drop_last() =~= edges.take(k - 1));
        assert(t.last() == edges[k - 1]);
        let e = edges[k - 1];
        lemma_edge_ends_are_last_positions(nodes, e);
        assert(t.filter(lp) == if lp(e) { t.drop_last().filter(lp).push(e) } else { t.drop_last().filter(lp) });
        assert(t.filter(ep) == if ep(e) { t.drop_last().filter(ep).push(e) } else { t.drop_last().filter(ep) });
        if let Some((a, b)) = edge_ends(nodes, e) {
            if lp(e) {
                assert(a == x);
            }
            if ep(e) {
                assert(b == x);
            }
        }
    }
}

proof fn lemma_edge_is_incoming(nodes: Seq<SymbolId>, edges: Seq<(SymbolId, SymbolId)>, j: int, u: int, v: int, k: nat)
    requires
        nodes.len() <= usize::MAX,
        0 <= j < k <= edges.len(),
        last_position(nodes, edges[j].0, u),
        last_position(nodes, edges[j].1, v),
    ensures
        sources_into(nodes, edges, v, k).contains(u as usize),
    decreases k,
{
    let prev = sources_into(nodes, edges, v, (k - 1) as nat);
    let e = edges[k - 1];
    lemma_edge_ends_are_last_positions(nodes, e);
    if j < k - 1 {
        lemma_edge_is_incoming(nodes, edges, j, u, v, (k - 1) as nat);
        let i = choose|i: int| 0 <= i < prev.len() && prev[i] == u as usize;
        if sources_into(nodes, edges, v, k) != prev {
            assert(sources_into(nodes, edges, v, k)[i] == u as usize);
        }
    } else {
        lemma_edge_ends_are_last_positions(nodes, edges[j]);
        assert(nodes.contains(edges[j].1) && nodes.contains(edges[j].0)) by {
            assert(nodes[v] == edges[j].1);
            assert(nodes[u] == edges[j].0);
        }
        assert(sources_into(nodes, edges, v, k) == prev.push(u as usize));
        assert(sources_into(nodes, edges, v, k)[prev.len() as int] == u as usize);
    }
}

/// Every edge between known nodes is counted, whatever the order of its
/// ends: a node's out-degree is the number of edges leaving it for a node,
/// the nodes linking to a node are as many as the edges entering it from a
/// node, and each such edge's source is among them. A node stands at the
/// last position its id is listed at.
pub proof fn lemma_every_known_edge_counts(nodes: Seq<SymbolId>, edges: Seq<(SymbolId, SymbolId)>)
    requires
        nodes.len() <= usize::MAX,
    ensures
        forall|x: int|
            0 <= x < nodes.len() ==> #[trigger] out_count(nodes, edges, x, edges.len()) == leaving_count(nodes, edges, x),
        forall|x: int|
            0 <= x < nodes.len() ==> #[trigger] sources_into(nodes, edges, x, edges.len()).len() == entering_count(nodes, edges, x),
        forall|j: int, u: int, v: int|
            0 <= j < edges.len() && #[trigger] last_position(nodes, edges[j].0, u) && #[trigger] last_position(
                nodes,
                edges[j].1,
                v,
            ) ==> sources_into(nodes, edges, v, edges.len()).contains(u as usize),
{
    assert(edges.take(edges.len() as int) =~= edges);
    assert forall|x: int| 0 <= x < nodes.len() implies #[trigger] out_count(nodes, edges, x, edges.len())
        == leaving_count(nodes, edges, x) by {
        lemma_counts_are_filters(nodes, edges, x, edges.len());
    }
    assert forall|x: int| 0 <= x < nodes.len() implies #[trigger] sources_into(nodes, edges, x, edges.len()).len()
        == entering_count(nodes, edges, x) by {
        lemma_counts_are_filters(nodes, edges, x, edges.len());
    }
    assert forall|j: int, u: int, v: int|
        0 <= j < edges.len() && #[trigger] last_position(nodes, edges[j].0, u) && #[trigger] last_position(
            nodes,
            edges[j].1,
            v,
        ) implies sources_into(nodes, edges, v, edges.len()).contains(u as usize) by {
        lemma_edge_is_incoming(nodes, edges, j, u, v, edges.len());
    }
}

/// The edges whose two ends are both nodes, in edge order.
pub open spec fn known_edges(nodes: Seq<SymbolId>, edges: Seq<(SymbolId, SymbolId)>) -> Seq<(SymbolId, SymbolId)>
    decreases edges.len(),
{
    if edges.len() == 0 {
        Seq::empty()
    } else {
        let prev = known_edges(nodes, edges.drop_last());
        if edge_ends(nodes, edges.last()) is Some {
            prev.push(edges.last())
        } else {
            prev
        }
    }
}

proof fn lemma_counts_read_prefix(
    nodes: Seq<SymbolId>,
    e1: Seq<(SymbolId, SymbolId)>,
    e2: Seq<(SymbolId, SymbolId)>,
    x: int,
    k: nat,
)
    requires
        k <= e1.len(),
        k <= e2.len(),
        forall|i: int| 0 <= i < k ==> e1[i] == e2[i],
    ensures
        out_count(nodes, e1, x, k) == out_count(nodes, e2, x, k),
        sources_into(nodes, e1, x, k) == sources_into(nodes, e2, x, k),
    decreases k,
{
    if k > 0 {
        lemma_counts_read_prefix(nodes, e1, e2, x, (k - 1) as nat);
        assert(e1[k - 1] == e2[k - 1]);
    }
}

/// Edges naming an unknown node are ignored: the link structure of `nodes`
/// under `edges` — every node's out-degree and the nodes linking to it — is
/// that under only the edges between known nodes, so PageRank over it ranks
/// the same.
pub proof fn lemma_unknown_edges_ignored(nodes: Seq<SymbolId>, edges: Seq<(SymbolId, SymbolId)>)
    ensures
        forall|x: int|
            #![trigger out_count(nodes, edges, x, edges.len())]
            #![trigger sources_into(nodes, edges, x, edges.len())]
            {
                let known = known_edges(nodes, edges);
                &&& out_count(nodes, edges, x, edges.len()) == out_count(nodes, known, x, known.len())
                &&& sources_into(nodes, edges, x, edges.len()) == sources_into(nodes, known, x, known.len())
            },
    decreases edges.len(),
{
    if edges.len() > 0 {
        let n = edges.len();
        let ed = edges.drop_last();
        let f = known_edges(nodes, ed);
        let big = known_edges(nodes, edges);
        let e = edges.last();
        lemma_unknown_edges_ignored(nodes, ed);
        assert forall|x: int|
            #![trigger out_count(nodes, edges, x, edges.len())]
            #![trigger sources_into(nodes, edges, x, edges.len())]
            out_count(nodes, edges, x, edges.len()) == out_count(nodes, big, x, big.len())
                && sources_into(nodes, edges, x, edges.len()) == sources_into(nodes, big, x, big.len()) by {
            assert(out_count(nodes, ed, x, ed.len()) == out_count(nodes, f, x, f.len()));
            assert(sources_into(nodes, ed, x, ed.len()) == sources_into(nodes, f, x, f.len()));
            lemma_counts_read_prefix(nodes, edges, ed, x, (n - 1) as nat);
            if edge_ends(nodes, e) is Some {
                assert(big == f.push(e));
                lemma_counts_read_prefix(nodes, big, f, x, f.len());
                assert(big[big.len() - 1] == e);
            } else {
                assert(big == f);
            }
        }
    }
}

} // verus!
