//! Neighborhoods in the symbol graph: the symbols within a number of hops of
//! a root, following edges in either direction (who calls, imports or uses
//! it, and what it calls, imports or uses).

use std::collections::{HashMap, HashSet};

use vstd::prelude::*;

use crate::ids::SymbolId;

verus! {

broadcast use vstd::std_specs::hash::group_hash_axioms;

/// Whether edge `e` joins `a` and `b`, in either direction.
pub open spec fn joined_by(e: (SymbolId, SymbolId), a: i64, b: i64) -> bool {
    (e.0.0 == a && e.1.0 == b) || (e.0.0 == b && e.1.0 == a)
}

/// Whether some edge joins `a` and `b`, in either direction.
pub open spec fn joins(edges: Seq<(SymbolId, SymbolId)>, a: i64, b: i64) -> bool {
    exists|i: int| 0 <= i < edges.len() && #[trigger] joined_by(edges[i], a, b)
}

/// The ids one undirected hop away from some member of `s`.
pub open spec fn step(edges: Seq<(SymbolId, SymbolId)>, s: Set<i64>) -> Set<i64> {
    Set::new(|b: i64| exists|a: i64| #[trigger] s.contains(a) && joins(edges, a, b))
}

/// The ids within `d` undirected hops of `root` (the root included).
pub open spec fn within(edges: Seq<(SymbolId, SymbolId)>, root: i64, d: nat) -> Set<i64>
    decreases d,
{
    if d == 0 {
        set![root]
    } else {
        within(edges, root, (d - 1) as nat).union(step(edges, within(edges, root, (d - 1) as nat)))
    }
}

/// Whether the adjacency map lists `b` among the neighbors of `a`.
pub open spec fn adj_has(m: Map<i64, Vec<i64>>, a: i64, b: i64) -> bool {
    m.contains_key(a) && m[a]@.contains(b)
}

fn add_neighbor(m: &mut HashMap<i64, Vec<i64>>, a: i64, b: i64)
    ensures
        forall|p: i64, q: i64| #[trigger] adj_has(final(m)@, p, q) <==> adj_has(old(m)@, p, q) || (p == a && q == b),
{
    let ghost old_m = m@;
    let mut list = match m.remove(&a) {
        Some(v) => v,
        None => Vec::new(),
    };
    let ghost old_list = list@;
    assert(old_m.contains_key(a) ==> old_list == old_m[a]@);
    assert(!old_m.contains_key(a) ==> old_list == Seq::<i64>::empty());
    list.push(b);
    m.insert(a, list);
    assert forall|p: i64, q: i64| #[trigger] adj_has(m@, p, q) <==> adj_has(old_m, p, q) || (p == a && q == b) by {
        if p == a {
            if old_list.push(b).contains(q) && q != b {
                let j = choose|j: int| 0 <= j < old_list.push(b).len() && old_list.push(b)[j] == q;
                assert(old_list[j] == q);
            }
            if adj_has(old_m, p, q) {
                let j = choose|j: int| 0 <= j < old_list.len() && old_list[j] == q;
                assert(old_list.push(b)[j] == q);
            }
            if q == b {
                assert(old_list.push(b)[old_list.len() as int] == b);
            }
        } else {
            assert(m@[p] == old_m[p] || !m@.contains_key(p));
        }
    }
}

/// Undirected adjacency lists of the graph `edges` spans.
fn adjacency(edges: &[(SymbolId, SymbolId)]) -> (m: HashMap<i64, Vec<i64>>)
    ensures
        forall|a: i64, b: i64| #[trigger] adj_has(m@, a, b) <==> joins(edges@, a, b),
{
    let mut m: HashMap<i64, Vec<i64>> = HashMap::new();
    let mut k: usize = 0;
    while k < edges.len()
        invariant
            k <= edges.len(),
            forall|a: i64, b: i64| #[trigger] adj_has(m@, a, b) <==> joins(edges@.take(k as int), a, b),
        decreases edges.len() - k,
    {
        let (x, y) = edges[k];
        let ghost before = m@;
        add_neighbor(&mut m, x.0, y.0);
        add_neighbor(&mut m, y.0, x.0);
        proof {
            let t = edges@.take((k + 1) as int);
            assert forall|a: i64, b: i64| #[trigger] adj_has(m@, a, b) <==> joins(t, a, b) by {
                if joins(t, a, b) {
                    let i = choose|i: int| 0 <= i < t.len() && #[trigger] joined_by(t[i], a, b);
                    if i < k {
                        assert(edges@.take(k as int)[i] == t[i]);
                        assert(joins(edges@.take(k as int), a, b));
                    } else {
                        assert(t[i] == (x, y));
                    }
                }
                if joins(edges@.take(k as int), a, b) {
                    let i = choose|i: int| 0 <= i < k && #[trigger] joined_by(edges@.take(k as int)[i], a, b);
                    assert(t[i] == edges@.take(k as int)[i]);
                }
                if (a == x.0 && b == y.0) || (a == y.0 && b == x.0) {
                    assert(t[k as int] == (x, y));
                    assert(joined_by(t[k as int], a, b));
                }
            }
        }
        k += 1;
    }
    assert(edges@.take(edges@.len() as int) =~= edges@);
    m
}

proof fn lemma_step_union(edges: Seq<(SymbolId, SymbolId)>, a: Set<i64>, b: Set<i64>)
    ensures
        step(edges, a.union(b)) == step(edges, a).union(step(edges, b)),
{
    assert forall|x: i64| #[trigger] step(edges, a.union(b)).contains(x) == step(edges, a).union(step(edges, b)).contains(x) by {
        if step(edges, a.union(b)).contains(x) {
            let w = choose|w: i64| #[trigger] a.union(b).contains(w) && joins(edges, w, x);
            if a.contains(w) {
                assert(step(edges, a).contains(x));
            } else {
                assert(step(edges, b).contains(x));
            }
        }
        if step(edges, a).contains(x) {
            let w = choose|w: i64| #[trigger] a.contains(w) && joins(edges, w, x);
            assert(a.union(b).contains(w));
        }
        if step(edges, b).contains(x) {
            let w = choose|w: i64| #[trigger] b.contains(w) && joins(edges, w, x);
            assert(a.union(b).contains(w));
        }
    }
    assert(step(edges, a.union(b)) =~= step(edges, a).union(step(edges, b)));
}

proof fn lemma_root_within(edges: Seq<(SymbolId, SymbolId)>, root: i64, d: nat)
    ensures
        within(edges, root, d).contains(root),
    decreases d,
{
    if d > 0 {
        lemma_root_within(edges, root, (d - 1) as nat);
    }
}

proof fn lemma_within_stable(edges: Seq<(SymbolId, SymbolId)>, root: i64, k: nat, d: nat)
    requires
        k >= 1,
        k <= d,
        within(edges, root, k) == within(edges, root, (k - 1) as nat),
    ensures
        within(edges, root, d) == within(edges, root, k),
    decreases d - k,
{
    if d > k {
        lemma_within_stable(edges, root, k, (d - 1) as nat);
        let w = within(edges, root, k);
        let p = within(edges, root, (k - 1) as nat);
        assert(step(edges, p).subset_of(w));
        assert(within(edges, root, d) =~= w);
    }
}

/// The ids of the symbols within `depth` undirected hops of `root`, the root
/// itself left out; each listed once.
pub fn neighbor_ids(edges: &[(SymbolId, SymbolId)], root: SymbolId, depth: u32) -> (r: Vec<SymbolId>)
    ensures
        r@.no_duplicates(),
        forall|x: SymbolId| #[trigger] r@.contains(x) <==> within(edges@, root.0, depth as nat).contains(x.0)
            && x != root,
        forall|x: SymbolId|
            #[trigger] r@.contains(x) <==> x != root && exists|p: Seq<i64>| #[trigger] walk_within(
                edges@,
                root.0,
                x.0,
                depth as nat,
                p,
            ),
{
    let adj = adjacency(edges);
    let ghost es = edges@;
    let mut visited: HashSet<i64> = HashSet::new();
    visited.insert(root.0);
    let mut frontier: Vec<i64> = Vec::new();
    frontier.push(root.0);
    let mut found: Vec<SymbolId> = Vec::new();
    let mut level: u32 = 0;
    assert(visited@ =~= within(es, root.0, 0));
    while level < depth && frontier.len() > 0
        invariant
            es == edges@,
            forall|a: i64, b: i64| #[trigger] adj_has(adj@, a, b) <==> joins(es, a, b),
            level <= depth,
            visited@ == within(es, root.0, level as nat),
            level == 0 ==> frontier@ == seq![root.0],
            level > 0 ==> within(es, root.0, level as nat) == within(es, root.0, (level - 1) as nat).union(
                frontier@.to_set(),
            ),
            found@.no_duplicates(),
            forall|x: SymbolId| #[trigger] found@.contains(x) <==> visited@.contains(x.0) && x != root,
        decreases depth - level,
    {
        let ghost w = visited@;
        let ghost f = frontier@;
        proof {
            lemma_root_within(es, root.0, level as nat);
        }
        let mut next: Vec<i64> = Vec::new();
        let mut fi: usize = 0;
        while fi < frontier.len()
            invariant
                es == edges@,
                forall|a: i64, b: i64| #[trigger] adj_has(adj@, a, b) <==> joins(es, a, b),
                f == frontier@,
                fi <= frontier.len(),
                w.subset_of(visited@),
                visited@.subset_of(w.union(step(es, f.to_set()))),
                forall|j: int, b: i64| 0 <= j < fi && #[trigger] joins(es, f[j], b) ==> visited@.contains(b),
                forall|b: i64| #[trigger] next@.contains(b) <==> visited@.contains(b) && !w.contains(b),
                found@.no_duplicates(),
                forall|x: SymbolId| #[trigger] found@.contains(x) <==> visited@.contains(x.0) && x != root,
                w.contains(root.0),
            decreases frontier.len() - fi,
        {
            let a = frontier[fi];
            let ghost v_before = visited@;
            match adj.get(&a) {
                Some(list) => {
                    let mut li: usize = 0;
                    while li < list.len()
                        invariant
                            es == edges@,
                            forall|p: i64, q: i64| #[trigger] adj_has(adj@, p, q) <==> joins(es, p, q),
                            adj@.contains_key(a),
                            adj@[a] == *list,
                            f == frontier@,
                            fi < frontier.len(),
                            a == f[fi as int],
                            li <= list.len(),
                            w.subset_of(visited@),
                            visited@.subset_of(w.union(step(es, f.to_set()))),
                            forall|j: int, b: i64| 0 <= j < fi && #[trigger] joins(es, f[j], b) ==> visited@.contains(b),
                            forall|l: int| 0 <= l < li ==> visited@.contains(#[trigger] list@[l]),
                            forall|b: i64| #[trigger] next@.contains(b) <==> visited@.contains(b) && !w.contains(b),
                            found@.no_duplicates(),
                            forall|x: SymbolId| #[trigger] found@.contains(x) <==> visited@.contains(x.0) && x != root,
                            w.contains(root.0),
                        decreases list.len() - li,
                    {
                        let b = list[li];
                        assert(adj_has(adj@, a, b));
                        assert(joins(es, a, b));
                        assert(f.to_set().contains(a));
                        assert(step(es, f.to_set()).contains(b));
                        if !visited.contains(&b) {
                            let ghost vb = visited@;
                            let ghost fb = found@;
                            let ghost nb = next@;
                            assert(b != root.0);
                            assert(!fb.contains(SymbolId(b)));
                            visited.insert(b);
                            next.push(b);
                            found.push(SymbolId(b));
                            assert forall|i: int, j: int| 0 <= i < found@.len() && 0 <= j < found@.len() && i != j implies found@[i] != found@[j] by {
                                if i < fb.len() && j < fb.len() {
                                    assert(fb[i] != fb[j]);
                                } else if i < fb.len() {
                                    assert(fb.contains(found@[i]));
                                } else if j < fb.len() {
                                    assert(fb.contains(found@[j]));
                                }
                            }
                            assert forall|x: SymbolId| #[trigger] found@.contains(x) <==> visited@.contains(x.0) && x != root by {
                                assert(found@ == fb.push(SymbolId(b)));
                                if x == SymbolId(b) {
                                    assert(found@[found@.len() - 1] == x);
                                }
                                if found@.contains(x) && x != SymbolId(b) {
                                    let j = choose|j: int| 0 <= j < found@.len() && found@[j] == x;
                                    assert(fb[j] == x);
                                    assert(fb.contains(x));
                                }
                                if vb.contains(x.0) && x != root {
                                    assert(fb.contains(x));
                                    let j = choose|j: int| 0 <= j < fb.len() && fb[j] == x;
                                    assert(found@[j] == x);
                                }
                            }
                            assert forall|c: i64| #[trigger] next@.contains(c) <==> visited@.contains(c) && !w.contains(c) by {
                                assert(next@ == nb.push(b));
                                if c == b {
                                    assert(next@[next@.len() - 1] == c);
                                }
                                if next@.contains(c) && c != b {
                                    let j = choose|j: int| 0 <= j < next@.len() && next@[j] == c;
                                    assert(nb[j] == c);
                                    assert(nb.contains(c));
                                }
                                if vb.contains(c) && !w.contains(c) {
                                    assert(nb.contains(c));
                                    let j = choose|j: int| 0 <= j < nb.len() && nb[j] == c;
                                    assert(next@[j] == c);
                                }
                            }
                        }
                        li += 1;
                    }
                    assert forall|j: int, b: i64| 0 <= j < fi + 1 && #[trigger] joins(es, f[j], b) implies visited@.contains(b) by {
                        if j == fi {
                            assert(adj_has(adj@, a, b));
                            let l = choose|l: int| 0 <= l < list@.len() && list@[l] == b;
                        }
                    }
                },
                None => {
                    assert forall|j: int, b: i64| 0 <= j < fi + 1 && #[trigger] joins(es, f[j], b) implies visited@.contains(b) by {
                        if j == fi {
                            assert(!adj_has(adj@, a, b));
                        }
                    }
                },
            }
            fi += 1;
        }
        proof {
            let fs = f.to_set();
            let next_w = within(es, root.0, (level + 1) as nat);
            assert(next_w == w.union(step(es, w)));
            if level == 0 {
                assert(f[0] == root.0);
                assert forall|c: i64| #[trigger] fs.contains(c) == w.contains(c) by {
                    if fs.contains(c) {
                        let j = choose|j: int| 0 <= j < f.len() && f[j] == c;
                    }
                    if c == root.0 {
                        assert(f.contains(c));
                    }
                }
                assert(w =~= fs);
            } else {
                let p = within(es, root.0, (level - 1) as nat);
                lemma_step_union(es, p, fs);
                assert(step(es, p).subset_of(w));
            }
            assert(step(es, w).subset_of(w.union(step(es, fs))));
            assert forall|b: i64| #[trigger] step(es, fs).contains(b) implies visited@.contains(b) by {
                let a = choose|a: i64| #[trigger] fs.contains(a) && joins(es, a, b);
                let j = choose|j: int| 0 <= j < f.len() && f[j] == a;
            }
            assert(visited@ =~= next_w);
            assert(next_w =~= w.union(next@.to_set()));
        }
        frontier = next;
        level += 1;
    }
    proof {
        if level < depth {
            assert(frontier@.to_set() =~= Set::<i64>::empty());
            assert(within(es, root.0, level as nat) =~= within(es, root.0, (level - 1) as nat));
            lemma_within_stable(es, root.0, level as nat, depth as nat);
        }
        assert forall|x: SymbolId| #[trigger] found@.contains(x) <==> x != root && exists|p: Seq<i64>| #[trigger] walk_within(
            es,
            root.0,
            x.0,
            depth as nat,
            p,
        ) by {
            lemma_within_is_reach(es, root.0, depth as nat, x.0);
        }
    }
    found
}

} // verus!

verus! {

/// Edges count in both directions: `b` is one hop from `a` exactly when `a`
/// is one hop from `b`.
pub proof fn lemma_one_hop_symmetric(edges: Seq<(SymbolId, SymbolId)>, a: i64, b: i64)
    ensures
        within(edges, a, 1).contains(b) <==> within(edges, b, 1).contains(a),
{
    assert(within(edges, a, 0) =~= set![a]);
    assert(within(edges, b, 0) =~= set![b]);
    if within(edges, a, 1).contains(b) && a != b {
        let w = choose|w: i64| #[trigger] set![a].contains(w) && joins(edges, w, b);
        let i = choose|i: int| 0 <= i < edges.len() && #[trigger] joined_by(edges[i], w, b);
        assert(joined_by(edges[i], b, a));
        assert(set![b].contains(b) && joins(edges, b, a));
    }
    if within(edges, b, 1).contains(a) && a != b {
        let w = choose|w: i64| #[trigger] set![b].contains(w) && joins(edges, w, a);
        let i = choose|i: int| 0 <= i < edges.len() && #[trigger] joined_by(edges[i], w, a);
        assert(joined_by(edges[i], a, b));
        assert(set![a].contains(a) && joins(edges, a, b));
    }
}

/// A deeper neighborhood contains every shallower one.
pub proof fn lemma_within_monotone(edges: Seq<(SymbolId, SymbolId)>, root: i64, d1: nat, d2: nat)
    requires
        d1 <= d2,
    ensures
        within(edges, root, d1).subset_of(within(edges, root, d2)),
    decreases d2,
{
    if d1 < d2 {
        lemma_within_monotone(edges, root, d1, (d2 - 1) as nat);
    }
}

/// Whether `p` is a walk from `root` to `x` of at most `d` hops: it starts
/// at the root, ends at `x`, and an edge joins each id to the next.
pub open spec fn walk_within(edges: Seq<(SymbolId, SymbolId)>, root: i64, x: i64, d: nat, p: Seq<i64>) -> bool {
    &&& 1 <= p.len() <= d + 1
    &&& p[0] == root
    &&& p.last() == x
    &&& forall|i: int| 0 <= i < p.len() - 1 ==> #[trigger] joins(edges, p[i], p[i + 1])
}

proof fn lemma_within_has_walk(edges: Seq<(SymbolId, SymbolId)>, root: i64, d: nat, x: i64)
    requires
        within(edges, root, d).contains(x),
    ensures
        exists|p: Seq<i64>| #[trigger] walk_within(edges, root, x, d, p),
    decreases d,
{
    if d == 0 {
        assert(walk_within(edges, root, x, d, seq![root]));
    } else {
        let prev = within(edges, root, (d - 1) as nat);
        if prev.contains(x) {
            lemma_within_has_walk(edges, root, (d - 1) as nat, x);
            let p = choose|p: Seq<i64>| #[trigger] walk_within(edges, root, x, (d - 1) as nat, p);
            assert(walk_within(edges, root, x, d, p));
        } else {
            assert(step(edges, prev).contains(x));
            let a = choose|a: i64| #[trigger] prev.contains(a) && joins(edges, a, x);
            lemma_within_has_walk(edges, root, (d - 1) as nat, a);
            let q = choose|q: Seq<i64>| #[trigger] walk_within(edges, root, a, (d - 1) as nat, q);
            let p = q.push(x);
            assert forall|i: int| 0 <= i < p.len() - 1 implies #[trigger] joins(edges, p[i], p[i + 1]) by {
                if i < q.len() - 1 {
                    assert(p[i] == q[i] && p[i + 1] == q[i + 1]);
                    assert(joins(edges, q[i], q[i + 1]));
                } else {
                    assert(p[i] == a && p[i + 1] == x);
                }
            }
            assert(walk_within(edges, root, x, d, p));
        }
    }
}

proof fn lemma_walk_is_within(edges: Seq<(SymbolId, SymbolId)>, root: i64, d: nat, x: i64, p: Seq<i64>)
    requires
        walk_within(edges, root, x, d, p),
    ensures
        within(edges, root, d).contains(x),
    decreases p.len(),
{
    if p.len() == 1 {
        lemma_within_monotone(edges, root, 0, d);
    } else {
        let q = p.drop_last();
        let a = q.last();
        assert forall|i: int| 0 <= i < q.len() - 1 implies #[trigger] joins(edges, q[i], q[i + 1]) by {
            assert(joins(edges, p[i], p[i + 1]));
        }
        assert(walk_within(edges, root, a, (d - 1) as nat, q));
        lemma_walk_is_within(edges, root, (d - 1) as nat, a, q);
        let i = p.len() - 2;
        assert(joins(edges, p[i], p[i + 1]));
        assert(p[i] == a && p[i + 1] == x);
        assert(step(edges, within(edges, root, (d - 1) as nat)).contains(x));
    }
}

/// The ids within `d` hops of the root are exactly those a walk of at most
/// `d` edges, followed in either direction, reaches from it.
pub proof fn lemma_within_is_reach(edges: Seq<(SymbolId, SymbolId)>, root: i64, d: nat, x: i64)
    ensures
        within(edges, root, d).contains(x) <==> exists|p: Seq<i64>| #[trigger] walk_within(edges, root, x, d, p),
{
    if within(edges, root, d).contains(x) {
        lemma_within_has_walk(edges, root, d, x);
    }
    if exists|p: Seq<i64>| #[trigger] walk_within(edges, root, x, d, p) {
        let p = choose|p: Seq<i64>| #[trigger] walk_within(edges, root, x, d, p);
        lemma_walk_is_within(edges, root, d, x, p);
    }
}

} // verus!
