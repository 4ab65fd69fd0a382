use skeletree::graph::neighbor_ids;
use skeletree::rank::rank_graph;
use skeletree::SymbolId;

fn id(n: i64) -> SymbolId {
    SymbolId(n)
}

fn sorted(mut v: Vec<SymbolId>) -> Vec<i64> {
    v.sort();
    v.into_iter().map(|s| s.0).collect()
}

#[test]
fn neighbors_by_depth_and_direction() {
    // a -> b -> c
    let edges = [(id(1), id(2)), (id(2), id(3))];
    assert_eq!(sorted(neighbor_ids(&edges, id(1), 1)), vec![2]);
    assert_eq!(sorted(neighbor_ids(&edges, id(1), 2)), vec![2, 3]);
    // Undirected: from b, depth 1 reaches both a and c.
    assert_eq!(sorted(neighbor_ids(&edges, id(2), 1)), vec![1, 3]);
    // Depth 0 is the root alone, which is left out.
    assert!(neighbor_ids(&edges, id(1), 0).is_empty());
    // A large depth stops once nothing new is reachable.
    assert_eq!(sorted(neighbor_ids(&edges, id(3), u32::MAX)), vec![1, 2]);
}

#[test]
fn neighbors_ignore_self_loops_and_duplicates() {
    let edges = [(id(1), id(1)), (id(1), id(2)), (id(2), id(1)), (id(1), id(2))];
    assert_eq!(sorted(neighbor_ids(&edges, id(1), 3)), vec![2]);
    assert!(neighbor_ids(&edges, id(9), 2).is_empty());
}

#[test]
fn rank_graph_counts_known_edges() {
    // a -> b, a -> c, b -> c, plus an edge to an unknown node.
    let nodes = [id(1), id(2), id(3)];
    let edges = [(id(1), id(2)), (id(1), id(3)), (id(2), id(3)), (id(2), id(7))];
    let g = rank_graph(&nodes, &edges);
    assert_eq!(g.out_degree, vec![2, 1, 0]);
    assert_eq!(g.incoming, vec![vec![], vec![0], vec![0, 1]]);
}

#[test]
fn rank_graph_of_nothing() {
    let g = rank_graph(&[], &[]);
    assert!(g.out_degree.is_empty());
    assert!(g.incoming.is_empty());
}

#[test]
fn unknown_edges_change_nothing() {
    let nodes = [id(1), id(2), id(3)];
    let with = [(id(9), id(1)), (id(1), id(2)), (id(2), id(8)), (id(1), id(3)), (id(7), id(7)), (id(2), id(3))];
    let without = [(id(1), id(2)), (id(1), id(3)), (id(2), id(3))];
    let a = rank_graph(&nodes, &with);
    let b = rank_graph(&nodes, &without);
    assert_eq!(a.out_degree, b.out_degree);
    assert_eq!(a.incoming, b.incoming);
}
