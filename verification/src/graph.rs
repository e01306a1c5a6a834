//! Paths through a borrows graph.

use crate::pcg::{BlockedNode, BorrowPcgEdge, BorrowPcgEdgeKind, BorrowsGraph, EdgeView};
use vstd::prelude::*;

verus! {

/// Those of the first `n` edges of `graph` that block `node`, as indices in increasing order.
pub open spec fn edges_blocking_among(graph: Seq<EdgeView>, node: BlockedNode, n: nat) -> Seq<usize>
    decreases n,
{
    if n == 0 {
        Seq::empty()
    } else {
        let before = edges_blocking_among(graph, node, (n - 1) as nat);
        if graph[n - 1].blocked.contains(node) {
            before.push((n - 1) as usize)
        } else {
            before
        }
    }
}

/// All edges of `graph` that block `node`.
pub open spec fn edges_blocking(graph: Seq<EdgeView>, node: BlockedNode) -> Seq<usize> {
    edges_blocking_among(graph, node, graph.len())
}

/// Edge `later` can come directly after edge `earlier` on a path: it blocks one of the
/// nodes that block what `earlier` blocks.
pub open spec fn follows(earlier: EdgeView, later: EdgeView) -> bool {
    exists|i: int|
        0 <= i < earlier.blocked_by.len() && later.blocked.contains(
            BlockedNode::Local(#[trigger] earlier.blocked_by[i]),
        )
}

/// `path` is a chain of edges of `graph`, by index, each of which can follow the one before.
pub open spec fn is_chain(graph: Seq<EdgeView>, path: Seq<usize>) -> bool {
    &&& forall|i: int| 0 <= i < path.len() ==> #[trigger] path[i] < graph.len()
    &&& forall|i: int, j: int|
        #![trigger path[i], path[j]]
        0 <= i && j == i + 1 && j < path.len() ==> follows(
            graph[path[i] as int],
            graph[path[j] as int],
        )
}

/// `path` is a path from `start`: a chain of edges whose kinds are `valid` and the first
/// of which blocks `start`.
pub open spec fn is_path(
    graph: Seq<EdgeView>,
    valid: spec_fn(BorrowPcgEdgeKind) -> bool,
    start: BlockedNode,
    path: Seq<usize>,
) -> bool {
    &&& path.len() > 0
    &&& is_chain(graph, path)
    &&& forall|i: int| 0 <= i < path.len() ==> valid(graph[#[trigger] path[i] as int].kind)
    &&& graph[path[0] as int].blocked.contains(start)
}

/// The kinds of the edges of `path`, in their order.
pub open spec fn kinds_along(graph: Seq<EdgeView>, path: Seq<usize>) -> Seq<BorrowPcgEdgeKind> {
    path.map_values(|edge: usize| graph[edge as int].kind)
}

/// No path from `start` has more than `n` edges.
pub open spec fn bounded_by(
    graph: Seq<EdgeView>,
    valid: spec_fn(BorrowPcgEdgeKind) -> bool,
    start: BlockedNode,
    n: nat,
) -> bool {
    forall|path: Seq<usize>| #[trigger] is_path(graph, valid, start, path) ==> path.len() <= n
}

/// There are only finitely many paths from `start`.
pub open spec fn paths_bounded(
    graph: Seq<EdgeView>,
    valid: spec_fn(BorrowPcgEdgeKind) -> bool,
    start: BlockedNode,
) -> bool {
    exists|n: nat| #[trigger] bounded_by(graph, valid, start, n)
}

/// `cycle` is a chain that closes on itself.
pub open spec fn is_cycle(graph: Seq<EdgeView>, cycle: Seq<usize>) -> bool {
    &&& cycle.len() > 0
    &&& is_chain(graph, cycle)
    &&& follows(graph[cycle.last() as int], graph[cycle[0] as int])
}

pub open spec fn acyclic(graph: Seq<EdgeView>) -> bool {
    forall|cycle: Seq<usize>| !#[trigger] is_cycle(graph, cycle)
}

impl BorrowPcgEdge {
    /// Whether the edge blocks `node`.
    pub fn blocks_node(&self, node: BlockedNode) -> (res: bool)
        ensures
            res == self@.blocked.contains(node),
    {
        let mut i: usize = 0;
        while i < self.blocked.len()
            invariant
                i <= self.blocked.len(),
                forall|j: int| 0 <= j < i ==> self.blocked@[j] != node,
            decreases self.blocked.len() - i,
        {
            if self.blocked[i] == node {
                assert(self@.blocked[i as int] == node);
                return true;
            }
            i = i + 1;
        }
        false
    }
}

impl BorrowsGraph {
    /// The edges that block `node`.
    pub fn get_edges_blocking(&self, node: BlockedNode) -> (res: Vec<usize>)
        ensures
            res@ == edges_blocking(self@, node),
    {
        let mut res: Vec<usize> = Vec::new();
        let mut i: usize = 0;
        while i < self.edges.len()
            invariant
                i <= self.edges.len(),
                res@ == edges_blocking_among(self@, node, i as nat),
            decreases self.edges.len() - i,
        {
            if self.edges[i].blocks_node(node) {
                res.push(i);
            }
            i = i + 1;
        }
        res
    }
}

/// A chain longer than the graph has edges visits some edge twice.
proof fn lemma_long_chain_repeats(graph: Seq<EdgeView>, chain: Seq<usize>) -> (res: (int, int))
    requires
        is_chain(graph, chain),
        chain.len() > graph.len(),
    ensures
        0 <= res.0 < res.1 < chain.len(),
        chain[res.0] == chain[res.1],
{
    if chain.no_duplicates() {
        let indices = chain.map_values(|edge: usize| edge as int);
        assert(indices.no_duplicates());
        indices.unique_seq_to_set();
        let all = vstd::set_lib::set_int_range(0, graph.len() as int);
        vstd::set_lib::lemma_int_range(0, graph.len() as int);
        assert(indices.to_set().subset_of(all)) by {
            assert forall|x: int| indices.to_set().contains(x) implies all.contains(x) by {
                let i = choose|i: int| 0 <= i < indices.len() && indices[i] == x;
                assert(chain[i] < graph.len());
            }
        }
        vstd::set_lib::lemma_len_subset(indices.to_set(), all);
        assert(false);
    }
    let (i, j) = choose|i: int, j: int|
        0 <= i < chain.len() && 0 <= j < chain.len() && i != j && chain[i] == chain[j];
    if i < j {
        (i, j)
    } else {
        (j, i)
    }
}

/// A chain that visits an edge twice has a cycle in it.
proof fn lemma_repeat_is_cycle(graph: Seq<EdgeView>, chain: Seq<usize>, i: int, j: int)
    requires
        is_chain(graph, chain),
        0 <= i < j < chain.len(),
        chain[i] == chain[j],
    ensures
        is_cycle(graph, chain.subrange(i, j)),
{
    let cycle = chain.subrange(i, j);
    assert forall|a: int| 0 <= a < cycle.len() implies #[trigger] cycle[a] < graph.len() by {
        assert(cycle[a] == chain[i + a]);
    }
    assert forall|a: int, b: int|
        #![trigger cycle[a], cycle[b]]
        0 <= a && b == a + 1 && b < cycle.len() implies follows(
        graph[cycle[a] as int],
        graph[cycle[b] as int],
    ) by {
        assert(cycle[a] == chain[i + a] && cycle[b] == chain[i + b]);
    }
    assert(cycle.last() == chain[j - 1]);
    assert(cycle[0] == chain[i]);
    assert(follows(graph[chain[j - 1] as int], graph[chain[j] as int]));
}

/// In a graph without cycles no path, whatever edges it may use and wherever it starts, is
/// longer than the graph has edges.
pub proof fn law_acyclic_paths_are_bounded(
    graph: Seq<EdgeView>,
    valid: spec_fn(BorrowPcgEdgeKind) -> bool,
    start: BlockedNode,
)
    requires
        acyclic(graph),
    ensures
        bounded_by(graph, valid, start, graph.len()),
        paths_bounded(graph, valid, start),
{
    assert forall|path: Seq<usize>| #[trigger]
        is_path(graph, valid, start, path) implies path.len() <= graph.len() by {
        if path.len() > graph.len() {
            let (i, j) = lemma_long_chain_repeats(graph, path);
            lemma_repeat_is_cycle(graph, path, i, j);
        }
    }
}

/// A path that visits an edge twice can go round once more.
proof fn lemma_repeat_extends(
    graph: Seq<EdgeView>,
    valid: spec_fn(BorrowPcgEdgeKind) -> bool,
    start: BlockedNode,
    path: Seq<usize>,
    i: int,
    j: int,
) -> (longer: Seq<usize>)
    requires
        is_path(graph, valid, start, path),
        0 <= i < j < path.len(),
        path[i] == path[j],
    ensures
        is_path(graph, valid, start, longer),
        longer.len() > path.len(),
{
    let longer = path.take(j + 1) + path.skip(i + 1);
    assert forall|a: int| 0 <= a < longer.len() implies #[trigger] longer[a] < graph.len() && valid(
        graph[longer[a] as int].kind,
    ) by {
        if a <= j {
            assert(longer[a] == path[a]);
        } else {
            assert(longer[a] == path[a - j + i]);
        }
    }
    assert forall|a: int, b: int|
        #![trigger longer[a], longer[b]]
        0 <= a && b == a + 1 && b < longer.len() implies follows(
        graph[longer[a] as int],
        graph[longer[b] as int],
    ) by {
        if b <= j {
            assert(longer[a] == path[a] && longer[b] == path[b]);
        } else {
            assert(longer[a] == path[a - j + i]);
            assert(longer[b] == path[b - j + i]);
        }
    }
    assert(longer[0] == path[0]);
    longer
}

/// Where there is a path longer than the graph has edges, there are paths of more than any
/// number of edges.
proof fn lemma_long_path_has_no_bound(
    graph: Seq<EdgeView>,
    valid: spec_fn(BorrowPcgEdgeKind) -> bool,
    start: BlockedNode,
    path: Seq<usize>,
    n: nat,
)
    requires
        is_path(graph, valid, start, path),
        path.len() > graph.len(),
    ensures
        !bounded_by(graph, valid, start, n),
    decreases (if path.len() > n { 0int } else { n + 1 - path.len() }),
{
    if path.len() <= n {
        let (i, j) = lemma_long_chain_repeats(graph, path);
        let longer = lemma_repeat_extends(graph, valid, start, path, i, j);
        lemma_long_path_has_no_bound(graph, valid, start, longer, n);
    }
}

/// If there are only finitely many paths from `start`, none of them is longer than the graph
/// has edges.
pub proof fn law_bounded_paths_are_short(
    graph: Seq<EdgeView>,
    valid: spec_fn(BorrowPcgEdgeKind) -> bool,
    start: BlockedNode,
)
    ensures
        paths_bounded(graph, valid, start) <==> bounded_by(graph, valid, start, graph.len()),
{
    if paths_bounded(graph, valid, start) {
        let n = choose|n: nat| #[trigger] bounded_by(graph, valid, start, n);
        assert forall|path: Seq<usize>| #[trigger]
            is_path(graph, valid, start, path) implies path.len() <= graph.len() by {
            if path.len() > graph.len() {
                lemma_long_path_has_no_bound(graph, valid, start, path, n);
            }
        }
    }
}

/// The edges that block a node are all those that name it among what they block, in
/// increasing order.
pub proof fn law_edges_that_block_a_node(graph: Seq<EdgeView>, node: BlockedNode)
    requires
        graph.len() <= usize::MAX,
    ensures
        forall|e: usize| #[trigger]
            edges_blocking(graph, node).contains(e) <==> e < graph.len() && exists|i: int|
                0 <= i < graph[e as int].blocked.len() && #[trigger] graph[e as int].blocked[i]
                    == node,
        forall|i: int, j: int|
            0 <= i < j < edges_blocking(graph, node).len() ==> edges_blocking(graph, node)[i]
                < edges_blocking(graph, node)[j],
{
    lemma_edges_blocking_among(graph, node, graph.len());
    assert forall|e: usize| #[trigger] edges_blocking(graph, node).contains(e) <==> e < graph.len()
        && exists|i: int|
        0 <= i < graph[e as int].blocked.len() && #[trigger] graph[e as int].blocked[i] == node by {
        assert(edges_blocking_among(graph, node, graph.len()).contains(e) <==> e < graph.len()
            && graph[e as int].blocked.contains(node));
    }
}

proof fn lemma_edges_blocking_among(graph: Seq<EdgeView>, node: BlockedNode, n: nat)
    requires
        n <= graph.len() <= usize::MAX,
    ensures
        forall|e: usize| #[trigger]
            edges_blocking_among(graph, node, n).contains(e) <==> e < n
                && graph[e as int].blocked.contains(node),
        forall|i: int, j: int|
            0 <= i < j < edges_blocking_among(graph, node, n).len() ==> edges_blocking_among(
                graph,
                node,
                n,
            )[i] < edges_blocking_among(graph, node, n)[j],
    decreases n,
{
    if n > 0 {
        lemma_edges_blocking_among(graph, node, (n - 1) as nat);
        let before = edges_blocking_among(graph, node, (n - 1) as nat);
        let after = edges_blocking_among(graph, node, n);
        assert forall|i: int| 0 <= i < before.len() implies #[trigger] before[i] < n - 1 by {
            assert(before.contains(before[i]));
        }
        assert forall|e: usize| #[trigger] after.contains(e) <==> e < n
            && graph[e as int].blocked.contains(node) by {
            if before.contains(e) {
                let i = choose|i: int| 0 <= i < before.len() && before[i] == e;
                assert(after[i] == e);
            }
            if after.contains(e) {
                let i = choose|i: int| 0 <= i < after.len() && after[i] == e;
                if i < before.len() {
                    assert(before[i] == e);
                }
            }
            if e == n - 1 && graph[e as int].blocked.contains(node) {
                assert(after[before.len() as int] == e);
            }
        }
    }
}

} // verus!
