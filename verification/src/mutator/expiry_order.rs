//! Mutations that use two places in the wrong order: a place before the one that borrows
//! from it has expired.

use super::mutator_impl::{
    takes_first, Mutant, MutantInfo, MutantIterator, MutantLocation, MutantRange, MutantStream,
    MutantView, Mutation,
};
use super::utils::{
    bogus_source_info, borrowed_places, decides, distinct_places, enumerates, fresh_basic_block,
    fresh_local, fresh_local_decl, has_named_local, insert_place, is_lent, is_mut,
    lemma_push_contains, lemma_reverse_enumerates, lemma_take_contains, mut_borrows,
    spec_has_named_local, spec_is_mut,
};
use crate::graph::{
    bounded_by, edges_blocking, edges_blocking_among, follows, is_path, kinds_along,
    law_bounded_paths_are_short, paths_bounded,
};
use crate::mir::{
    BasicBlockData, BlockView, Body, BodyView, BorrowKind, LocalDecl, Location, Mutability, Place,
    Region, Rvalue, SourceInfo, Statement, StatementKind, Terminator, TerminatorKind, Ty,
};
use crate::pcg::{
    BlockedNode, BorrowEdge, BorrowPcgEdge, BorrowPcgEdgeKind, BorrowsGraph, CompilerCtxt, EdgeView,
    LocalNode, PcgLocation,
};
use vstd::prelude::*;

verus! {

/// A mutable borrow.
pub open spec fn is_mut_borrow(kind: BorrowPcgEdgeKind) -> bool {
    kind matches BorrowPcgEdgeKind::Borrow(edge) && edge.spec_kind() matches Some(borrow)
        && spec_is_mut(borrow)
}

/// The edges that a path may use: of the borrows only the mutable ones, of the expansions
/// only those of mutable references, and every other edge.
pub open spec fn valid_edges(ctx: CompilerCtxt) -> spec_fn(BorrowPcgEdgeKind) -> bool {
    |kind: BorrowPcgEdgeKind|
        match kind {
            BorrowPcgEdgeKind::Borrow(_) => is_mut_borrow(kind),
            BorrowPcgEdgeKind::BorrowPcgExpansion(expansion) => ctx.spec_ty(
                expansion.base.spec_related_place(),
            ).spec_ref_mutability() == Some(Mutability::Mut),
            _ => true,
        }
}

/// The type of whatever `kind` expands is known.
pub open spec fn kind_typed(ctx: CompilerCtxt, kind: BorrowPcgEdgeKind) -> bool {
    kind matches BorrowPcgEdgeKind::BorrowPcgExpansion(expansion) ==> ctx.has_ty(
        expansion.base.spec_related_place(),
    )
}

/// The type of whatever an edge of `graph` expands is known.
pub open spec fn expansions_typed(ctx: CompilerCtxt, graph: Seq<EdgeView>) -> bool {
    forall|i: int| 0 <= i < graph.len() ==> kind_typed(ctx, (#[trigger] graph[i]).kind)
}

/// Some mutable borrow is among `kinds`.
pub open spec fn has_mut_borrow() -> spec_fn(Set<BorrowPcgEdgeKind>) -> bool {
    |kinds: Set<BorrowPcgEdgeKind>|
        exists|kind: BorrowPcgEdgeKind| #[trigger] kinds.contains(kind) && is_mut_borrow(kind)
}

/// Some abstraction and some mutable borrow are among `kinds`.
pub open spec fn has_abstraction_and_mut_borrow() -> spec_fn(Set<BorrowPcgEdgeKind>) -> bool {
    |kinds: Set<BorrowPcgEdgeKind>|
        {
            &&& exists|kind: BorrowPcgEdgeKind| #[trigger]
                kinds.contains(kind) && kind is Abstraction
            &&& has_mut_borrow()(kinds)
        }
}

/// `blocker` blocks `place` on a path of `valid` edges whose kinds satisfy `blocking`.
pub open spec fn blocks_place(
    graph: Seq<EdgeView>,
    valid: spec_fn(BorrowPcgEdgeKind) -> bool,
    blocking: spec_fn(Set<BorrowPcgEdgeKind>) -> bool,
    place: Place,
    blocker: Place,
) -> bool {
    exists|path: Seq<usize>| #[trigger]
        ends_at(graph, valid, blocking, place, path, blocker)
}

/// `path` is such a path and ends at `blocker`.
pub open spec fn ends_at(
    graph: Seq<EdgeView>,
    valid: spec_fn(BorrowPcgEdgeKind) -> bool,
    blocking: spec_fn(Set<BorrowPcgEdgeKind>) -> bool,
    place: Place,
    path: Seq<usize>,
    blocker: Place,
) -> bool {
    &&& is_path(graph, valid, BlockedNode::spec_from_place(place), path)
    &&& blocking(kinds_along(graph, path).to_set())
    &&& is_current_blocker(graph[path.last() as int], blocker)
}

/// The current version of `place` is among the nodes that block what `edge` blocks.
pub open spec fn is_current_blocker(edge: EdgeView, place: Place) -> bool {
    exists|i: int|
        0 <= i < edge.blocked_by.len() && (#[trigger] edge.blocked_by[i]).spec_as_current_place()
            == Some(place)
}

fn is_mut_borrow_edge(borrow_edge: &BorrowEdge) -> (res: bool)
    ensures
        res == is_mut_borrow(BorrowPcgEdgeKind::Borrow(*borrow_edge)),
{
    match borrow_edge.kind() {
        Some(kind) => is_mut(kind),
        None => false,
    }
}

/// Whether a path may use an edge of this kind.
fn is_valid_edge(kind: &BorrowPcgEdgeKind, ctx: &CompilerCtxt) -> (res: bool)
    requires
        kind_typed(*ctx, *kind),
    ensures
        res == valid_edges(*ctx)(*kind),
{
    match kind {
        BorrowPcgEdgeKind::Borrow(borrow_edge) => is_mut_borrow_edge(borrow_edge),
        BorrowPcgEdgeKind::BorrowPcgExpansion(expansion) => {
            match ctx.ty(expansion.base.related_place()).ref_mutability() {
                Some(Mutability::Mut) => true,
                _ => false,
            }
        },
        _ => true,
    }
}

fn any_mut_borrow(kinds: &Vec<BorrowPcgEdgeKind>) -> (res: bool)
    ensures
        res == has_mut_borrow()(kinds@.to_set()),
{
    let mut i: usize = 0;
    while i < kinds.len()
        invariant
            i <= kinds.len(),
            forall|j: int| 0 <= j < i ==> !is_mut_borrow(#[trigger] kinds@[j]),
        decreases kinds.len() - i,
    {
        if let BorrowPcgEdgeKind::Borrow(borrow_edge) = &kinds[i] {
            if is_mut_borrow_edge(borrow_edge) {
                assert(kinds@.to_set().contains(kinds@[i as int]));
                return true;
            }
        }
        i = i + 1;
    }
    false
}

fn any_abstraction(kinds: &Vec<BorrowPcgEdgeKind>) -> (res: bool)
    ensures
        res == (exists|kind: BorrowPcgEdgeKind| #[trigger]
            kinds@.to_set().contains(kind) && kind is Abstraction),
{
    let mut i: usize = 0;
    while i < kinds.len()
        invariant
            i <= kinds.len(),
            forall|j: int| 0 <= j < i ==> !(#[trigger] kinds@[j] is Abstraction),
        decreases kinds.len() - i,
    {
        if let BorrowPcgEdgeKind::Abstraction(_) = &kinds[i] {
            assert(kinds@.to_set().contains(kinds@[i as int]));
            return true;
        }
        i = i + 1;
    }
    false
}

/// What the kinds on a path have to be for its end to count as blocking its start.
pub trait ExpiryRule {
    spec fn blocking(&self) -> spec_fn(Set<BorrowPcgEdgeKind>) -> bool;

    fn is_blocking_edge(&self, kinds: &Vec<BorrowPcgEdgeKind>) -> (res: bool)
        ensures
            res == self.blocking()(kinds@.to_set()),
    ;
}

/// The edges of `edges` that a path may use.
spec fn keep_valid(
    graph: Seq<EdgeView>,
    valid: spec_fn(BorrowPcgEdgeKind) -> bool,
    edges: Seq<usize>,
) -> Seq<usize> {
    edges.filter(|edge: usize| valid(graph[edge as int].kind))
}

/// The edges that can follow `edge` on a path by way of its first `n` blocking nodes.
spec fn next_edges_among(
    graph: Seq<EdgeView>,
    valid: spec_fn(BorrowPcgEdgeKind) -> bool,
    edge: usize,
    n: nat,
) -> Seq<usize>
    decreases n,
{
    if n == 0 {
        Seq::empty()
    } else {
        next_edges_among(graph, valid, edge, (n - 1) as nat) + keep_valid(
            graph,
            valid,
            edges_blocking(graph, BlockedNode::Local(graph[edge as int].blocked_by[n - 1])),
        )
    }
}

spec fn next_edges(
    graph: Seq<EdgeView>,
    valid: spec_fn(BorrowPcgEdgeKind) -> bool,
    edge: usize,
) -> Seq<usize> {
    next_edges_among(graph, valid, edge, graph[edge as int].blocked_by.len())
}

proof fn lemma_edges_blocking_contains(graph: Seq<EdgeView>, node: BlockedNode, n: nat, edge: usize)
    requires
        n <= graph.len() <= usize::MAX,
    ensures
        edges_blocking_among(graph, node, n).contains(edge) <==> edge < n
            && graph[edge as int].blocked.contains(node),
    decreases n,
{
    if n > 0 {
        let before = edges_blocking_among(graph, node, (n - 1) as nat);
        let after = edges_blocking_among(graph, node, n);
        lemma_edges_blocking_contains(graph, node, (n - 1) as nat, edge);
        if graph[n - 1].blocked.contains(node) {
            if before.contains(edge) {
                let i = choose|i: int| 0 <= i < before.len() && before[i] == edge;
                assert(after[i] == edge);
            }
            if edge == n - 1 {
                assert(after[before.len() as int] == edge);
            }
            if after.contains(edge) && edge != n - 1 {
                let i = choose|i: int| 0 <= i < after.len() && after[i] == edge;
                assert(before[i] == edge);
            }
        }
    }
}

/// The valid edges that block `node` are exactly those.
proof fn lemma_keep_valid_contains(
    graph: Seq<EdgeView>,
    valid: spec_fn(BorrowPcgEdgeKind) -> bool,
    node: BlockedNode,
    edge: usize,
)
    requires
        graph.len() <= usize::MAX,
    ensures
        keep_valid(graph, valid, edges_blocking(graph, node)).contains(edge) <==> edge
            < graph.len() && graph[edge as int].blocked.contains(node) && valid(
            graph[edge as int].kind,
        ),
{
    let all = edges_blocking(graph, node);
    let pred = |edge: usize| valid(graph[edge as int].kind);
    let kept = all.filter(pred);
    lemma_edges_blocking_contains(graph, node, graph.len(), edge);
    if kept.contains(edge) {
        all.lemma_filter_contains_rev(pred, edge);
        let i = choose|i: int| 0 <= i < kept.len() && kept[i] == edge;
        all.lemma_filter_pred(pred, i);
    }
    if all.contains(edge) && pred(edge) {
        let i = choose|i: int| 0 <= i < all.len() && all[i] == edge;
        all.lemma_filter_contains(pred, i);
    }
}

/// An edge can follow another exactly if it is among its next edges.
proof fn lemma_next_edges_contains(
    graph: Seq<EdgeView>,
    valid: spec_fn(BorrowPcgEdgeKind) -> bool,
    edge: usize,
    n: nat,
    next: usize,
)
    requires
        graph.len() <= usize::MAX,
        n <= graph[edge as int].blocked_by.len(),
    ensures
        next_edges_among(graph, valid, edge, n).contains(next) <==> next < graph.len() && valid(
            graph[next as int].kind,
        ) && exists|i: int|
            0 <= i < n && graph[next as int].blocked.contains(
                BlockedNode::Local(#[trigger] graph[edge as int].blocked_by[i]),
            ),
    decreases n,
{
    if n > 0 {
        let nodes = graph[edge as int].blocked_by;
        let a = next_edges_among(graph, valid, edge, (n - 1) as nat);
        let b = keep_valid(
            graph,
            valid,
            edges_blocking(graph, BlockedNode::Local(nodes[n - 1])),
        );
        lemma_next_edges_contains(graph, valid, edge, (n - 1) as nat, next);
        lemma_keep_valid_contains(graph, valid, BlockedNode::Local(nodes[n - 1]), next);
        if a.contains(next) {
            let i = choose|i: int| 0 <= i < a.len() && a[i] == next;
            assert((a + b)[i] == next);
        }
        if b.contains(next) {
            let i = choose|i: int| 0 <= i < b.len() && b[i] == next;
            assert((a + b)[a.len() + i] == next);
        }
        if (a + b).contains(next) {
            let i = choose|i: int| 0 <= i < (a + b).len() && (a + b)[i] == next;
            if i < a.len() {
                assert(a[i] == next);
            } else {
                assert(b[i - a.len()] == next);
            }
        }
    }
}

/// The number of paths that start with `edge` and have at most `depth` edges after it.
spec fn work(
    graph: Seq<EdgeView>,
    valid: spec_fn(BorrowPcgEdgeKind) -> bool,
    edge: usize,
    depth: nat,
) -> nat
    decreases depth, 0nat,
{
    if depth == 0 {
        1
    } else {
        1 + total_work(graph, valid, next_edges(graph, valid, edge), (depth - 1) as nat)
    }
}

spec fn total_work(
    graph: Seq<EdgeView>,
    valid: spec_fn(BorrowPcgEdgeKind) -> bool,
    edges: Seq<usize>,
    depth: nat,
) -> nat
    decreases depth, edges.len() + 1,
{
    if edges.len() == 0 {
        0
    } else {
        total_work(graph, valid, edges.drop_last(), depth) + work(
            graph,
            valid,
            edges.last(),
            depth,
        )
    }
}

/// The work left where `paths` are still to be followed and no path is longer than `bound`.
spec fn pending_work(
    graph: Seq<EdgeView>,
    valid: spec_fn(BorrowPcgEdgeKind) -> bool,
    paths: Seq<Seq<usize>>,
    bound: nat,
) -> nat
    decreases paths.len(),
{
    if paths.len() == 0 {
        0
    } else {
        pending_work(graph, valid, paths.drop_last(), bound) + work(
            graph,
            valid,
            paths.last().last(),
            (bound - paths.last().len()) as nat,
        )
    }
}

/// `path` begins with `prefix`.
spec fn begins_with(path: Seq<usize>, prefix: Seq<usize>) -> bool {
    prefix.len() <= path.len() && path.take(prefix.len() as int) == prefix
}

/// One of `paths` is the beginning of `path`.
spec fn is_pending(paths: Seq<Seq<usize>>, path: Seq<usize>) -> bool {
    exists|i: int| 0 <= i < paths.len() && begins_with(path, #[trigger] paths[i])
}

/// Whatever `path` ends at, if it is a blocking path, is in `places`.
spec fn is_covered(
    graph: Seq<EdgeView>,
    valid: spec_fn(BorrowPcgEdgeKind) -> bool,
    blocking: spec_fn(Set<BorrowPcgEdgeKind>) -> bool,
    place: Place,
    path: Seq<usize>,
    places: Seq<Place>,
) -> bool {
    forall|blocker: Place| #[trigger]
        ends_at(graph, valid, blocking, place, path, blocker) ==> places.contains(blocker)
}

/// The valid edges that block `node`.
fn valid_edges_blocking(graph: &BorrowsGraph, ctx: &CompilerCtxt, node: BlockedNode) -> (res: Vec<
    usize,
>)
    requires
        expansions_typed(*ctx, graph@),
    ensures
        res@ == keep_valid(graph@, valid_edges(*ctx), edges_blocking(graph@, node)),
{
    let count: usize = graph.edges.len();
    let all = graph.get_edges_blocking(node);
    let ghost pred = |edge: usize| valid_edges(*ctx)(graph@[edge as int].kind);
    let mut res: Vec<usize> = Vec::new();
    let mut i: usize = 0;
    assert(all@.take(0).filter(pred) =~= Seq::empty()) by {
        reveal(Seq::filter);
    }
    while i < all.len()
        invariant
            count == graph@.len(),
            expansions_typed(*ctx, graph@),
            all@ == edges_blocking(graph@, node),
            pred == (|edge: usize| valid_edges(*ctx)(graph@[edge as int].kind)),
            i <= all.len(),
            res@ == all@.take(i as int).filter(pred),
        decreases all.len() - i,
    {
        let edge: usize = all[i];
        proof {
            lemma_edges_blocking_contains(graph@, node, graph@.len(), edge);
            assert(all@[i as int] == edge);
            assert(graph@[edge as int] == graph.edges@[edge as int]@);
            reveal(Seq::filter);
            assert(all@.take(i + 1).drop_last() =~= all@.take(i as int));
        }
        if is_valid_edge(&graph.edges[edge].kind, ctx) {
            res.push(edge);
        }
        i = i + 1;
    }
    assert(all@.take(i as int) =~= all@);
    res
}

/// The edges that can follow `edge` on a path.
fn adjacent_edges(graph: &BorrowsGraph, ctx: &CompilerCtxt, edge: usize) -> (res: Vec<usize>)
    requires
        expansions_typed(*ctx, graph@),
        edge < graph@.len(),
    ensures
        res@ == next_edges(graph@, valid_edges(*ctx), edge),
{
    let mut res: Vec<usize> = Vec::new();
    let mut i: usize = 0;
    while i < graph.edges[edge].blocked_by.len()
        invariant
            expansions_typed(*ctx, graph@),
            edge < graph@.len(),
            i <= graph@[edge as int].blocked_by.len(),
            res@ == next_edges_among(graph@, valid_edges(*ctx), edge, i as nat),
        decreases graph@[edge as int].blocked_by.len() - i,
    {
        let node: LocalNode = graph.edges[edge].blocked_by[i];
        assert(node == graph@[edge as int].blocked_by[i as int]);
        let mut edges = valid_edges_blocking(graph, ctx, BlockedNode::Local(node));
        res.append(&mut edges);
        i = i + 1;
    }
    res
}

fn copy_kinds(kinds: &Vec<BorrowPcgEdgeKind>) -> (res: Vec<BorrowPcgEdgeKind>)
    ensures
        res@ == kinds@,
{
    let mut res: Vec<BorrowPcgEdgeKind> = Vec::new();
    let mut i: usize = 0;
    while i < kinds.len()
        invariant
            i <= kinds.len(),
            res@ == kinds@.take(i as int),
        decreases kinds.len() - i,
    {
        res.push(kinds[i]);
        i = i + 1;
    }
    res
}

/// Adds the current places among the nodes that block what `edge` blocks.
fn collect_current_blockers(edge: &BorrowPcgEdge, places: &mut Vec<Place>)
    requires
        old(places)@.no_duplicates(),
    ensures
        final(places)@.no_duplicates(),
        forall|p: Place| #[trigger]
            final(places)@.contains(p) <==> old(places)@.contains(p) || is_current_blocker(
                edge@,
                p,
            ),
{
    let ghost before = places@;
    let mut i: usize = 0;
    while i < edge.blocked_by.len()
        invariant
            i <= edge.blocked_by.len(),
            places@.no_duplicates(),
            forall|p: Place| #[trigger]
                places@.contains(p) <==> before.contains(p) || exists|j: int|
                    0 <= j < i && (#[trigger] edge@.blocked_by[j]).spec_as_current_place() == Some(
                        p,
                    ),
        decreases edge.blocked_by.len() - i,
    {
        let node: LocalNode = edge.blocked_by[i];
        assert(edge@.blocked_by[i as int] == node);
        if let Some(place) = node.as_current_place() {
            insert_place(places, place);
        }
        i = i + 1;
    }
}

/// The paths that go one edge further than `path`, to each of `edges`.
spec fn extensions(path: Seq<usize>, edges: Seq<usize>) -> Seq<Seq<usize>> {
    Seq::new(edges.len(), |j: int| path.push(edges[j]))
}

/// `to_visit` holds for each of `paths` its last edge and the kinds of the edges before.
spec fn visits(
    graph: Seq<EdgeView>,
    to_visit: Seq<(usize, Vec<BorrowPcgEdgeKind>)>,
    paths: Seq<Seq<usize>>,
) -> bool {
    &&& to_visit.len() == paths.len()
    &&& forall|i: int|
        #![trigger paths[i]]
        #![trigger to_visit[i]]
        0 <= i < paths.len() ==> {
            &&& paths[i].len() > 0
            &&& to_visit[i].0 == paths[i].last()
            &&& to_visit[i].1@ == kinds_along(graph, paths[i].drop_last())
        }
}

/// Puts each of `edges` on the list, with the kinds of the edges before it.
fn push_visits(
    to_visit: &mut Vec<(usize, Vec<BorrowPcgEdgeKind>)>,
    edges: &Vec<usize>,
    kinds: &Vec<BorrowPcgEdgeKind>,
)
    ensures
        final(to_visit)@.len() == old(to_visit)@.len() + edges@.len(),
        forall|i: int|
            0 <= i < old(to_visit)@.len() ==> #[trigger] final(to_visit)@[i] == old(to_visit)@[i],
        forall|i: int|
            #![trigger final(to_visit)@[i]]
            old(to_visit)@.len() <= i < final(to_visit)@.len() ==> final(to_visit)@[i].0
                == edges@[i - old(to_visit)@.len()] && final(to_visit)@[i].1@ == kinds@,
{
    let ghost before = to_visit@;
    let mut j: usize = 0;
    while j < edges.len()
        invariant
            j <= edges.len(),
            to_visit@.len() == before.len() + j,
            forall|i: int| 0 <= i < before.len() ==> #[trigger] to_visit@[i] == before[i],
            forall|i: int|
                #![trigger to_visit@[i]]
                before.len() <= i < to_visit@.len() ==> to_visit@[i].0 == edges@[i - before.len()]
                    && to_visit@[i].1@ == kinds@,
        decreases edges.len() - j,
    {
        to_visit.push((edges[j], copy_kinds(kinds)));
        j = j + 1;
    }
}

proof fn lemma_pending_work_of_extensions(
    graph: Seq<EdgeView>,
    valid: spec_fn(BorrowPcgEdgeKind) -> bool,
    paths: Seq<Seq<usize>>,
    path: Seq<usize>,
    edges: Seq<usize>,
    bound: nat,
)
    requires
        path.len() < bound,
    ensures
        pending_work(graph, valid, paths + extensions(path, edges), bound) == pending_work(
            graph,
            valid,
            paths,
            bound,
        ) + total_work(graph, valid, edges, (bound - path.len() - 1) as nat),
    decreases edges.len(),
{
    let all = paths + extensions(path, edges);
    if edges.len() == 0 {
        assert(all =~= paths);
    } else {
        lemma_pending_work_of_extensions(graph, valid, paths, path, edges.drop_last(), bound);
        assert(all.drop_last() =~= paths + extensions(path, edges.drop_last()));
        assert(all.last() =~= path.push(edges.last()));
    }
}

/// A path goes on along each of the next edges of its last edge.
proof fn lemma_path_extends(
    graph: Seq<EdgeView>,
    valid: spec_fn(BorrowPcgEdgeKind) -> bool,
    start: BlockedNode,
    path: Seq<usize>,
    next: usize,
)
    requires
        graph.len() <= usize::MAX,
        is_path(graph, valid, start, path),
        next_edges(graph, valid, path.last()).contains(next),
    ensures
        is_path(graph, valid, start, path.push(next)),
{
    let longer = path.push(next);
    let last = path.last();
    assert(path[path.len() - 1] < graph.len());
    lemma_next_edges_contains(graph, valid, last, graph[last as int].blocked_by.len(), next);
    assert(follows(graph[last as int], graph[next as int]));
    assert forall|i: int, j: int|
        #![trigger longer[i], longer[j]]
        0 <= i && j == i + 1 && j < longer.len() implies follows(
        graph[longer[i] as int],
        graph[longer[j] as int],
    ) by {
        if j < path.len() {
            assert(longer[i] == path[i] && longer[j] == path[j]);
        }
    }
    assert forall|i: int| 0 <= i < longer.len() implies valid(
        graph[#[trigger] longer[i] as int].kind,
    ) by {
        if i < path.len() {
            assert(longer[i] == path[i]);
        }
    }
    assert(longer[0] == path[0]);
}

/// A path that properly begins with another goes on along one of its next edges.
proof fn lemma_longer_path_extends(
    graph: Seq<EdgeView>,
    valid: spec_fn(BorrowPcgEdgeKind) -> bool,
    start: BlockedNode,
    path: Seq<usize>,
    longer: Seq<usize>,
)
    requires
        graph.len() <= usize::MAX,
        is_path(graph, valid, start, path),
        is_path(graph, valid, start, longer),
        begins_with(longer, path),
        longer != path,
    ensures
        path.len() < longer.len(),
        next_edges(graph, valid, path.last()).contains(longer[path.len() as int]),
        begins_with(longer, path.push(longer[path.len() as int])),
{
    let n = path.len() as int;
    if path.len() == longer.len() {
        assert(longer.take(n) =~= longer);
    }
    assert(longer.take(n)[n - 1] == longer[n - 1]);
    assert(path.last() == longer[n - 1]);
    assert(longer[n - 1] < graph.len() && longer[n] < graph.len());
    assert(follows(graph[longer[n - 1] as int], graph[longer[n] as int]));
    lemma_next_edges_contains(
        graph,
        valid,
        path.last(),
        graph[path.last() as int].blocked_by.len(),
        longer[n],
    );
    assert(longer.take(n + 1) =~= path.push(longer[n]));
}

/// Returns the places for each node that blocks `place` on a path whose edges satisfy
/// `rule` and are all valid.
pub fn places_blocking<R: ExpiryRule>(
    place: Place,
    graph: &BorrowsGraph,
    ctx: &CompilerCtxt,
    rule: &R,
) -> (res: Vec<Place>)
    requires
        expansions_typed(*ctx, graph@),
        paths_bounded(graph@, valid_edges(*ctx), BlockedNode::spec_from_place(place)),
    ensures
        res@.no_duplicates(),
        forall|blocker: Place| #[trigger]
            res@.contains(blocker) <==> blocks_place(
                graph@,
                valid_edges(*ctx),
                rule.blocking(),
                place,
                blocker,
            ),
{
    let count: usize = graph.edges.len();
    let ghost g = graph@;
    let ghost valid = valid_edges(*ctx);
    let ghost start = BlockedNode::spec_from_place(place);
    let ghost blocking = rule.blocking();
    let ghost bound = choose|n: nat| #[trigger] bounded_by(g, valid, start, n);

    let mut places: Vec<Place> = Vec::new();
    let mut to_visit: Vec<(usize, Vec<BorrowPcgEdgeKind>)> = Vec::new();
    let first = valid_edges_blocking(graph, ctx, BlockedNode::from_place(place));
    let no_kinds: Vec<BorrowPcgEdgeKind> = Vec::new();
    push_visits(&mut to_visit, &first, &no_kinds);
    let ghost mut paths: Seq<Seq<usize>> = extensions(Seq::empty(), first@);
    proof {
        assert forall|i: int| 0 <= i < paths.len() implies is_path(
            g,
            valid,
            start,
            #[trigger] paths[i],
        ) by {
            lemma_keep_valid_contains(g, valid, start, first@[i]);
            assert(first@.contains(first@[i]));
        }
        assert forall|i: int|
            #![trigger paths[i]]
            0 <= i < paths.len() implies to_visit@[i].1@ == kinds_along(
            g,
            paths[i].drop_last(),
        ) by {
            assert(paths[i].drop_last() =~= Seq::empty());
            assert(kinds_along(g, paths[i].drop_last()) =~= Seq::empty());
        }
        assert forall|path: Seq<usize>| #[trigger] is_path(g, valid, start, path) implies is_pending(
            paths,
            path,
        ) by {
            lemma_keep_valid_contains(g, valid, start, path[0]);
            let i = choose|i: int| 0 <= i < first@.len() && first@[i] == path[0];
            assert(path.take(1) =~= paths[i]);
            assert(begins_with(path, paths[i]));
        }
    }
    while !to_visit.is_empty()
        invariant
            count == g.len(),
            g == graph@,
            valid == valid_edges(*ctx),
            start == BlockedNode::spec_from_place(place),
            blocking == rule.blocking(),
            expansions_typed(*ctx, g),
            bounded_by(g, valid, start, bound),
            visits(g, to_visit@, paths),
            forall|i: int|
                0 <= i < paths.len() ==> is_path(g, valid, start, #[trigger] paths[i]),
            places@.no_duplicates(),
            forall|blocker: Place| #[trigger]
                places@.contains(blocker) ==> blocks_place(g, valid, blocking, place, blocker),
            forall|path: Seq<usize>| #[trigger]
                is_path(g, valid, start, path) ==> is_pending(paths, path) || is_covered(
                    g,
                    valid,
                    blocking,
                    place,
                    path,
                    places@,
                ),
        decreases pending_work(g, valid, paths, bound),
    {
        let ghost paths_before = paths;
        let ghost places_before = places@;
        let ghost path = paths.last();
        let ghost rest = paths.drop_last();
        assert(is_path(g, valid, start, paths[paths.len() - 1]));
        let (curr, kinds_before) = to_visit.pop().unwrap();
        let mut kinds: Vec<BorrowPcgEdgeKind> = kinds_before;
        assert(curr == path.last() && path[path.len() - 1] < g.len());
        kinds.push(graph.edges[curr].kind);
        assert(kinds@ =~= kinds_along(g, path)) by {
            assert(path =~= path.drop_last().push(curr));
        }
        if rule.is_blocking_edge(&kinds) {
            collect_current_blockers(&graph.edges[curr], &mut places);
        }
        let adjacent = adjacent_edges(graph, ctx, curr);
        let ghost visits_before = to_visit@;
        push_visits(&mut to_visit, &adjacent, &kinds);
        proof {
            paths = rest + extensions(path, adjacent@);
            assert forall|i: int| 0 <= i < paths.len() implies is_path(
                g,
                valid,
                start,
                #[trigger] paths[i],
            ) by {
                if i < rest.len() {
                    assert(paths[i] == paths_before[i]);
                } else {
                    assert(adjacent@.contains(adjacent@[i - rest.len()]));
                    lemma_path_extends(g, valid, start, path, adjacent@[i - rest.len()]);
                }
            }
            assert(visits(g, to_visit@, paths)) by {
                assert forall|i: int| 0 <= i < paths.len() implies {
                    &&& (#[trigger] paths[i]).len() > 0
                    &&& to_visit@[i].0 == paths[i].last()
                    &&& to_visit@[i].1@ == kinds_along(g, paths[i].drop_last())
                } by {
                    if i < rest.len() {
                        assert(paths[i] == paths_before[i]);
                        assert(to_visit@[i] == visits_before[i]);
                    } else {
                        assert(paths[i].drop_last() =~= path);
                    }
                }
            }
            assert forall|blocker: Place| #[trigger] places@.contains(blocker) implies blocks_place(
                g,
                valid,
                blocking,
                place,
                blocker,
            ) by {
                if !places_before.contains(blocker) {
                    assert(ends_at(g, valid, blocking, place, path, blocker));
                }
            }
            assert forall|q: Seq<usize>| #[trigger] is_path(g, valid, start, q) implies is_pending(
                paths,
                q,
            ) || is_covered(g, valid, blocking, place, q, places@) by {
                if is_pending(paths_before, q) {
                    let i = choose|i: int|
                        0 <= i < paths_before.len() && begins_with(q, #[trigger] paths_before[i]);
                    if i < rest.len() {
                        assert(paths[i] == paths_before[i]);
                    } else if q == path {
                        assert(is_covered(g, valid, blocking, place, q, places@));
                    } else {
                        lemma_longer_path_extends(g, valid, start, path, q);
                        let next = q[path.len() as int];
                        let j = choose|j: int| 0 <= j < adjacent@.len() && adjacent@[j] == next;
                        assert(paths[rest.len() + j] == path.push(next));
                    }
                } else {
                    assert(is_covered(g, valid, blocking, place, q, places_before));
                }
            }
            assert(path.len() <= bound);
            if path.len() < bound {
                lemma_pending_work_of_extensions(g, valid, rest, path, adjacent@, bound);
            } else {
                if adjacent@.len() > 0 {
                    assert(adjacent@.contains(adjacent@[0]));
                    lemma_path_extends(g, valid, start, path, adjacent@[0]);
                    assert(is_path(g, valid, start, path.push(adjacent@[0])));
                }
                assert(paths =~= rest);
            }
        }
    }
    proof {
        assert forall|blocker: Place| blocks_place(
            g,
            valid,
            blocking,
            place,
            blocker,
        ) implies #[trigger] places@.contains(blocker) by {
            let path = choose|path: Seq<usize>| #[trigger]
                ends_at(g, valid, blocking, place, path, blocker);
            assert(is_path(g, valid, start, path));
            assert(!is_pending(paths, path));
        }
    }
    places
}

/// Some path from `start` has `length` edges and ends with `edge`.
spec fn reaches(
    graph: Seq<EdgeView>,
    valid: spec_fn(BorrowPcgEdgeKind) -> bool,
    start: BlockedNode,
    length: nat,
    edge: usize,
) -> bool {
    exists|path: Seq<usize>| #[trigger]
        is_path(graph, valid, start, path) && path.len() == length && path.last() == edge
}

/// The first edges of a path are a path.
proof fn lemma_path_prefix(
    graph: Seq<EdgeView>,
    valid: spec_fn(BorrowPcgEdgeKind) -> bool,
    start: BlockedNode,
    path: Seq<usize>,
    n: int,
)
    requires
        is_path(graph, valid, start, path),
        0 < n <= path.len(),
    ensures
        is_path(graph, valid, start, path.take(n)),
{
    let prefix = path.take(n);
    assert forall|i: int| 0 <= i < prefix.len() implies #[trigger] prefix[i] < graph.len() && valid(
        graph[prefix[i] as int].kind,
    ) by {
        assert(prefix[i] == path[i]);
    }
    assert forall|i: int, j: int|
        #![trigger prefix[i], prefix[j]]
        0 <= i && j == i + 1 && j < prefix.len() implies follows(
        graph[prefix[i] as int],
        graph[prefix[j] as int],
    ) by {
        assert(prefix[i] == path[i] && prefix[j] == path[j]);
    }
    assert(prefix[0] == path[0]);
}

/// A path with one more edge ends with a next edge of one that a path ends with.
proof fn lemma_reaches_next(
    graph: Seq<EdgeView>,
    valid: spec_fn(BorrowPcgEdgeKind) -> bool,
    start: BlockedNode,
    length: nat,
    next: usize,
)
    requires
        graph.len() <= usize::MAX,
        length > 0,
    ensures
        reaches(graph, valid, start, length + 1, next) <==> exists|edge: usize|
            edge < graph.len() && #[trigger] reaches(graph, valid, start, length, edge)
                && next_edges(graph, valid, edge).contains(next),
{
    if reaches(graph, valid, start, length + 1, next) {
        let path = choose|path: Seq<usize>| #[trigger]
            is_path(graph, valid, start, path) && path.len() == length + 1 && path.last() == next;
        let shorter = path.take(length as int);
        lemma_path_prefix(graph, valid, start, path, length as int);
        lemma_longer_path_extends(graph, valid, start, shorter, path);
        let edge = shorter.last();
        assert(shorter[shorter.len() - 1] < graph.len());
        assert(reaches(graph, valid, start, length, edge));
    }
    assert forall|edge: usize|
        edge < graph.len() && #[trigger] reaches(graph, valid, start, length, edge) && next_edges(
            graph,
            valid,
            edge,
        ).contains(next) implies reaches(graph, valid, start, length + 1, next) by {
        let path = choose|path: Seq<usize>| #[trigger]
            is_path(graph, valid, start, path) && path.len() == length && path.last() == edge;
        lemma_path_extends(graph, valid, start, path, next);
        assert(is_path(graph, valid, start, path.push(next)));
    }
}

fn no_marks(count: usize) -> (res: Vec<bool>)
    ensures
        res@.len() == count,
        forall|i: int| 0 <= i < count ==> !#[trigger] res@[i],
{
    let mut res: Vec<bool> = Vec::new();
    while res.len() < count
        invariant
            res@.len() <= count,
            forall|i: int| 0 <= i < res@.len() ==> !#[trigger] res@[i],
        decreases count - res@.len(),
    {
        res.push(false);
    }
    res
}

/// Marks each of `edges`.
fn mark_all(marks: &mut Vec<bool>, edges: &Vec<usize>)
    requires
        forall|i: int| 0 <= i < edges@.len() ==> #[trigger] edges@[i] < old(marks)@.len(),
    ensures
        final(marks)@.len() == old(marks)@.len(),
        forall|e: int|
            0 <= e < old(marks)@.len() ==> (#[trigger] final(marks)@[e] <==> old(marks)@[e]
                || edges@.contains(e as usize)),
{
    let ghost before = marks@;
    let count: usize = marks.len();
    let mut i: usize = 0;
    assert forall|e: int| 0 <= e < before.len() implies (#[trigger] marks@[e] <==> before[e]
        || edges@.take(0).contains(e as usize)) by {}
    while i < edges.len()
        invariant
            count == before.len(),
            forall|j: int| 0 <= j < edges@.len() ==> #[trigger] edges@[j] < before.len(),
            i <= edges.len(),
            marks@.len() == before.len(),
            forall|e: int|
                0 <= e < before.len() ==> (#[trigger] marks@[e] <==> before[e] || edges@.take(
                    i as int,
                ).contains(e as usize)),
        decreases edges.len() - i,
    {
        let edge: usize = edges[i];
        let ghost so_far = marks@;
        assert(edges@[i as int] == edge);
        marks.set(edge, true);
        proof {
            assert forall|e: int| 0 <= e < before.len() implies (#[trigger] marks@[e] <==> before[e]
                || edges@.take(i + 1).contains(e as usize)) by {
                lemma_take_contains(edges@, i as int, e as usize);
                assert(so_far[e] <==> before[e] || edges@.take(i as int).contains(e as usize));
            }
        }
        i = i + 1;
    }
    assert(edges@.take(i as int) =~= edges@);
}

/// Whether there are only finitely many paths of valid edges from `place`: as many rounds as
/// the graph has edges lead nowhere.
fn search_ends(place: Place, graph: &BorrowsGraph, ctx: &CompilerCtxt) -> (res: bool)
    requires
        expansions_typed(*ctx, graph@),
    ensures
        res == paths_bounded(graph@, valid_edges(*ctx), BlockedNode::spec_from_place(place)),
{
    let count: usize = graph.edges.len();
    let ghost g = graph@;
    let ghost valid = valid_edges(*ctx);
    let ghost start = BlockedNode::spec_from_place(place);
    let first = valid_edges_blocking(graph, ctx, BlockedNode::from_place(place));
    proof {
        assert forall|i: int| 0 <= i < first@.len() implies #[trigger] first@[i] < count by {
            lemma_keep_valid_contains(g, valid, start, first@[i]);
            assert(first@.contains(first@[i]));
        }
    }
    // The edges that a path with so many edges ends with.
    let mut ends = no_marks(count);
    mark_all(&mut ends, &first);
    let mut length: usize = 0;
    proof {
        assert forall|e: int| 0 <= e < count implies (#[trigger] ends@[e] <==> reaches(
            g,
            valid,
            start,
            1,
            e as usize,
        )) by {
            lemma_keep_valid_contains(g, valid, start, e as usize);
            if first@.contains(e as usize) {
                let path = seq![e as usize];
                assert(is_path(g, valid, start, path));
            }
            if reaches(g, valid, start, 1, e as usize) {
                let path = choose|path: Seq<usize>| #[trigger]
                    is_path(g, valid, start, path) && path.len() == 1 && path.last() == e as usize;
                assert(path[0] == e as usize);
            }
        }
    }
    while length < count
        invariant
            count == g.len(),
            g == graph@,
            valid == valid_edges(*ctx),
            start == BlockedNode::spec_from_place(place),
            expansions_typed(*ctx, g),
            length <= count,
            ends@.len() == count,
            forall|e: int|
                0 <= e < count ==> (#[trigger] ends@[e] <==> reaches(
                    g,
                    valid,
                    start,
                    (length + 1) as nat,
                    e as usize,
                )),
        decreases count - length,
    {
        let mut next_ends = no_marks(count);
        let mut i: usize = 0;
        while i < count
            invariant
                count == g.len(),
                g == graph@,
                valid == valid_edges(*ctx),
                expansions_typed(*ctx, g),
                i <= count,
                ends@.len() == count,
                next_ends@.len() == count,
                forall|e: int|
                    0 <= e < count ==> (#[trigger] next_ends@[e] <==> exists|d: usize|
                        d < i && #[trigger] ends@[d as int] && next_edges(g, valid, d).contains(
                            e as usize,
                        )),
            decreases count - i,
        {
            let ghost so_far = next_ends@;
            if ends[i] {
                let adjacent = adjacent_edges(graph, ctx, i);
                proof {
                    assert forall|j: int| 0 <= j < adjacent@.len() implies #[trigger] adjacent@[j]
                        < count by {
                        lemma_next_edges_contains(
                            g,
                            valid,
                            i,
                            g[i as int].blocked_by.len(),
                            adjacent@[j],
                        );
                        assert(adjacent@.contains(adjacent@[j]));
                    }
                }
                mark_all(&mut next_ends, &adjacent);
            }
            proof {
                assert forall|e: int| 0 <= e < count implies (#[trigger] next_ends@[e] <==> exists|
                    d: usize,
                |
                    d < i + 1 && #[trigger] ends@[d as int] && next_edges(g, valid, d).contains(
                        e as usize,
                    )) by {
                    assert(so_far[e] <==> exists|d: usize|
                        d < i && #[trigger] ends@[d as int] && next_edges(g, valid, d).contains(
                            e as usize,
                        ));
                    assert(ends@[i as int] == ends@[i as int]);
                }
            }
            i = i + 1;
        }
        proof {
            assert forall|e: int| 0 <= e < count implies (#[trigger] next_ends@[e] <==> reaches(
                g,
                valid,
                start,
                (length + 2) as nat,
                e as usize,
            )) by {
                lemma_reaches_next(g, valid, start, (length + 1) as nat, e as usize);
                if next_ends@[e] {
                    let d = choose|d: usize|
                        d < i && #[trigger] ends@[d as int] && next_edges(g, valid, d).contains(
                            e as usize,
                        );
                    assert(reaches(g, valid, start, (length + 1) as nat, d));
                }
                if reaches(g, valid, start, (length + 2) as nat, e as usize) {
                    let d = choose|d: usize|
                        d < g.len() && #[trigger] reaches(
                            g,
                            valid,
                            start,
                            (length + 1) as nat,
                            d,
                        ) && next_edges(g, valid, d).contains(e as usize);
                    assert(ends@[d as int]);
                }
            }
        }
        ends = next_ends;
        length = length + 1;
    }
    proof {
        law_bounded_paths_are_short(g, valid, start);
    }
    let mut k: usize = 0;
    while k < count
        invariant
            count == g.len(),
            k <= count,
            ends@.len() == count,
            forall|e: int| 0 <= e < k ==> !#[trigger] ends@[e],
            forall|e: int|
                0 <= e < count ==> (#[trigger] ends@[e] <==> reaches(
                    g,
                    valid,
                    start,
                    (count + 1) as nat,
                    e as usize,
                )),
            paths_bounded(g, valid, start) <==> bounded_by(g, valid, start, g.len()),
            g == graph@,
            valid == valid_edges(*ctx),
            start == BlockedNode::spec_from_place(place),
        decreases count - k,
    {
        if ends[k] {
            assert(reaches(g, valid, start, (count + 1) as nat, k));
            return false;
        }
        k = k + 1;
    }
    proof {
        assert forall|path: Seq<usize>| #[trigger]
            is_path(g, valid, start, path) implies path.len() <= g.len() by {
            if path.len() > g.len() {
                let prefix = path.take(count + 1);
                lemma_path_prefix(g, valid, start, path, count + 1);
                assert(prefix[count as int] < g.len());
                assert(reaches(g, valid, start, (count + 1) as nat, prefix.last()));
                assert(ends@[prefix.last() as int]);
            }
        }
    }
    true
}

/// The statement that reborrows `place` into the local `local`.
pub open spec fn reborrow(source_info: SourceInfo, local: usize, place: Place) -> Statement {
    Statement {
        source_info,
        kind: StatementKind::Assign(
            Place::spec_from_local(local),
            Rvalue::Ref(Region::MaxVar, BorrowKind::Shared, place),
        ),
    }
}

/// The declaration of the local into which `place` is reborrowed.
pub open spec fn reborrow_decl(
    ctx: CompilerCtxt,
    source_info: SourceInfo,
    place: Place,
) -> LocalDecl {
    fresh_local_decl(Ty::spec_new_mut_ref(Region::MaxVar, ctx.spec_ty(place)), source_info)
}

/// Given a list of MIR places, produces a list of MIR statements which reborrow those
/// places into fresh local variables in the same order.
fn places_to_statements(body: &mut Body, ctx: &CompilerCtxt, places: &Vec<Place>) -> (res: Vec<
    Statement,
>)
    requires
        old(body)@.locals.len() > 0,
        forall|i: int| 0 <= i < places@.len() ==> ctx.has_ty(#[trigger] places@[i]),
    ensures
        final(body)@.blocks == old(body)@.blocks,
        final(body)@.locals == old(body)@.locals + places@.map_values(
            |place: Place| reborrow_decl(*ctx, old(body)@.locals[0].source_info, place),
        ),
        res@.len() == places@.len(),
        forall|i: int|
            0 <= i < res@.len() ==> #[trigger] res@[i] == reborrow(
                old(body)@.locals[0].source_info,
                (old(body)@.locals.len() + i) as usize,
                places@[i],
            ),
{
    let ghost before = body@;
    let ghost source_info = before.locals[0].source_info;
    let ghost decl = |place: Place| reborrow_decl(*ctx, source_info, place);
    let mut res: Vec<Statement> = Vec::new();
    let mut i: usize = 0;
    while i < places.len()
        invariant
            i <= places.len(),
            before.locals.len() > 0,
            source_info == before.locals[0].source_info,
            decl == (|place: Place| reborrow_decl(*ctx, source_info, place)),
            forall|j: int| 0 <= j < places@.len() ==> ctx.has_ty(#[trigger] places@[j]),
            body@.blocks == before.blocks,
            body@.locals == before.locals + places@.take(i as int).map_values(decl),
            res@.len() == i,
            forall|j: int|
                0 <= j < res@.len() ==> #[trigger] res@[j] == reborrow(
                    source_info,
                    (before.locals.len() + j) as usize,
                    places@[j],
                ),
        decreases places.len() - i,
    {
        let place: Place = places[i];
        assert(places@[i as int] == place);
        assert(body@.locals[0] == before.locals[0]);
        let region = Region::MaxVar;
        let target_ty = Ty::new_mut_ref(region, ctx.ty(place).clone());
        let target: usize = fresh_local(body, target_ty);
        let source_info_here = bogus_source_info(body);
        res.push(
            Statement {
                source_info: source_info_here,
                kind: StatementKind::Assign(
                    Place::from_local(target),
                    Rvalue::Ref(region, BorrowKind::Shared, place),
                ),
            },
        );
        i = i + 1;
        assert(places@.take(i as int).map_values(decl) =~= places@.take(i - 1).map_values(
            decl,
        ).push(decl(place)));
        assert(body@.locals =~= before.locals + places@.take(i as int).map_values(decl));
    }
    assert(places@.take(i as int) =~= places@);
    res
}

/// The mutant that uses `place` before `blocking_place`: the block of `curr` ends before
/// `next`, in a false branch to the rest of the block and to a new block with the two
/// uses, which control never enters.
pub open spec fn expiry_mutant(
    ctx: CompilerCtxt,
    body: BodyView,
    curr: Location,
    next: Location,
    place: Place,
    blocking_place: Place,
) -> MutantView {
    let source_info = body.locals[0].source_info;
    let first = reborrow(source_info, body.locals.len() as usize, place);
    let second = reborrow(source_info, (body.locals.len() + 1) as usize, blocking_place);
    let block = body.blocks[curr.block as int];
    let tail_bb = body.blocks.len() as usize;
    let mutant_bb = (body.blocks.len() + 1) as usize;
    let head = BlockView {
        statements: block.statements.take(next.statement_index as int),
        terminator: Some(
            Terminator {
                source_info,
                kind: TerminatorKind::FalseEdge {
                    real_target: tail_bb,
                    imaginary_target: mutant_bb,
                },
            },
        ),
    };
    let tail = BlockView {
        statements: block.statements.skip(next.statement_index as int),
        terminator: block.terminator,
    };
    let branch = BlockView {
        statements: seq![first, second],
        terminator: Some(Terminator { source_info, kind: TerminatorKind::Unreachable }),
    };
    MutantView {
        body: BodyView {
            blocks: body.blocks.update(curr.block as int, head).push(tail).push(branch),
            locals: body.locals.push(reborrow_decl(ctx, source_info, place)).push(
                reborrow_decl(ctx, source_info, blocking_place),
            ),
        },
        range: MutantRange {
            start: MutantLocation { basic_block: mutant_bb, statement_index: 0 },
            end: MutantLocation { basic_block: mutant_bb, statement_index: 1 },
        },
        info: MutantInfo::ExpirySequence { first, second },
    }
}

fn set_block(body: &mut Body, index: usize, block: BasicBlockData)
    requires
        index < old(body)@.blocks.len(),
    ensures
        final(body)@.blocks == old(body)@.blocks.update(index as int, block@),
        final(body)@.locals == old(body)@.locals,
{
    body.basic_blocks.set(index, block);
    assert(body@.blocks =~= old(body)@.blocks.update(index as int, block@));
}

fn set_terminator(body: &mut Body, index: usize, terminator: Terminator)
    requires
        index < old(body)@.blocks.len(),
    ensures
        final(body)@.blocks == old(body)@.blocks.update(
            index as int,
            BlockView { terminator: Some(terminator), ..old(body)@.blocks[index as int] },
        ),
        final(body)@.locals == old(body)@.locals,
{
    let ghost before = body.basic_blocks@;
    body.basic_blocks[index].terminator = Some(terminator);
    assert(body.basic_blocks@ =~= before.update(index as int, body.basic_blocks@[index as int]));
    assert(body@.blocks =~= old(body)@.blocks.update(
        index as int,
        BlockView { terminator: Some(terminator), ..old(body)@.blocks[index as int] },
    ));
}

struct Iter<'a> {
    mutant_sequences: Vec<(Place, Place)>,
    ctx: &'a CompilerCtxt,
    body: &'a Body,
    curr: Location,
    next: Location,
}

/// The block of `curr` can be split before `next`.
pub open spec fn can_split(body: BodyView, curr: Location, next: Location) -> bool {
    &&& curr.block < body.blocks.len()
    &&& next.statement_index <= body.blocks[curr.block as int].statements.len()
}

impl<'a> Iter<'a> {
    spec fn mutants(&self) -> spec_fn((Place, Place)) -> MutantView {
        |pair: (Place, Place)|
            expiry_mutant(*self.ctx, self.body@, self.curr, self.next, pair.0, pair.1)
    }

    fn maybe_next(&mut self) -> (res: Option<Mutant>)
        requires
            old(self).ready(),
        ensures
            final(self).ready(),
            final(self).mutant_sequences@ == (if old(self).mutant_sequences@.len() == 0 {
                old(self).mutant_sequences@
            } else {
                old(self).mutant_sequences@.drop_last()
            }),
            final(self).ctx == old(self).ctx,
            final(self).body == old(self).body,
            final(self).curr == old(self).curr,
            final(self).next == old(self).next,
            res is None <==> old(self).mutant_sequences@.len() == 0,
            takes_first(old(self).remaining(), res, final(self).remaining()),
    {
        let ghost before = *self;
        let (place, blocking_place) = match self.mutant_sequences.pop() {
            Some(pair) => pair,
            None => {
                return None;
            },
        };
        proof {
            let pair = before.mutant_sequences@.last();
            assert(before.mutant_sequences@[before.mutant_sequences@.len() - 1] == pair);
            assert(before.remaining()[0] == self.mutants()(pair));
            assert(self.remaining() =~= before.remaining().drop_first());
        }
        let mut mutant_body = self.body.clone();
        let ghost source_info = mutant_body@.locals[0].source_info;
        let mut places: Vec<Place> = Vec::new();
        places.push(place);
        places.push(blocking_place);
        let mutant_sequence = places_to_statements(&mut mutant_body, self.ctx, &places);
        let first: Statement = mutant_sequence[0];
        let second: Statement = mutant_sequence[1];
        assert(mutant_body@.locals =~= self.body@.locals.push(
            reborrow_decl(*self.ctx, source_info, place),
        ).push(reborrow_decl(*self.ctx, source_info, blocking_place)));
        let curr_bb_index: usize = self.curr.block;
        let ghost blocks = self.body@.blocks;
        let ghost block = blocks[curr_bb_index as int];
        let ghost at = self.next.statement_index as int;
        assert(mutant_body@.blocks == blocks);
        assert(mutant_body.basic_blocks@.len() == blocks.len());
        assert(mutant_body.basic_blocks@[curr_bb_index as int]@ == block);

        // Split the original basic block between `curr` and `next`.
        let tail_statements = mutant_body.basic_blocks[curr_bb_index].statements.split_off(
            self.next.statement_index,
        );
        let bb_terminator = mutant_body.basic_blocks[curr_bb_index].terminator.take();
        let ghost split = blocks.update(
            curr_bb_index as int,
            BlockView { statements: block.statements.take(at), terminator: None },
        );
        assert(mutant_body@.blocks =~~= split);
        let tail_bb_index: usize = fresh_basic_block(&mut mutant_body);
        set_block(
            &mut mutant_body,
            tail_bb_index,
            BasicBlockData { statements: tail_statements, terminator: bb_terminator },
        );

        let ghost with_tail = split.push(
            BlockView { statements: block.statements.skip(at), terminator: block.terminator },
        );
        assert(mutant_body@.blocks =~~= with_tail);

        let bogus_source_info = bogus_source_info(&mutant_body);

        // `mutant_bb` is the branch in which we expire `place` before `blocking_place`.
        let mutant_bb_index: usize = fresh_basic_block(&mut mutant_body);
        set_block(
            &mut mutant_body,
            mutant_bb_index,
            BasicBlockData {
                statements: mutant_sequence,
                terminator: Some(
                    Terminator {
                        source_info: bogus_source_info,
                        kind: TerminatorKind::Unreachable,
                    },
                ),
            },
        );

        let ghost with_branch = with_tail.push(
            BlockView {
                statements: seq![first, second],
                terminator: Some(
                    Terminator {
                        source_info: bogus_source_info,
                        kind: TerminatorKind::Unreachable,
                    },
                ),
            },
        );
        assert(mutant_body@.blocks =~~= with_branch);

        let start_loc = MutantLocation { basic_block: mutant_bb_index, statement_index: 0 };
        let end_loc = MutantLocation { basic_block: mutant_bb_index, statement_index: 1 };

        // Terminator of the original basic block becomes a false branch.
        // Control will always flow to `tail_bb` but the compiler type-checks
        // the body as if it could go to `mutant_bb`.
        set_terminator(
            &mut mutant_body,
            curr_bb_index,
            Terminator {
                source_info: bogus_source_info,
                kind: TerminatorKind::FalseEdge {
                    real_target: tail_bb_index,
                    imaginary_target: mutant_bb_index,
                },
            },
        );
        let mutant = Mutant {
            body: mutant_body,
            range: MutantRange { start: start_loc, end: end_loc },
            info: MutantInfo::ExpirySequence { first, second },
        };
        proof {
            let expected = self.mutants()((place, blocking_place));
            assert(mutant@.body.blocks =~~= expected.body.blocks);
            assert(mutant@ =~= expected);
        }
        Some(mutant)
    }
}

impl<'a> MutantIterator for Iter<'a> {
    closed spec fn ready(&self) -> bool {
        forall|i: int|
            0 <= i < self.mutant_sequences@.len() ==> {
                &&& self.ctx.has_ty((#[trigger] self.mutant_sequences@[i]).0)
                &&& self.ctx.has_ty(self.mutant_sequences@[i].1)
                &&& self.body@.locals.len() > 0
                &&& can_split(self.body@, self.curr, self.next)
            }
    }

    closed spec fn remaining(&self) -> Seq<MutantView> {
        self.mutant_sequences@.reverse().map_values(self.mutants())
    }

    fn next(&mut self) -> (res: Option<Mutant>) {
        if self.mutant_sequences.is_empty() {
            assert(self.remaining().len() == 0);
            return None;
        }
        self.maybe_next()
    }
}

/// The second place of the pair blocks the first one, which is mutably borrowed, and the
/// user named both.
pub open spec fn is_expiry_pair(
    ctx: CompilerCtxt,
    body: BodyView,
    graph: Seq<EdgeView>,
    blocking: spec_fn(Set<BorrowPcgEdgeKind>) -> bool,
    pair: (Place, Place),
) -> bool {
    &&& is_lent(graph, mut_borrows(), pair.0)
    &&& spec_has_named_local(pair.0, body)
    &&& blocks_place(graph, valid_edges(ctx), blocking, pair.0, pair.1)
    &&& spec_has_named_local(pair.1, body)
}

/// `is_expiry_pair` as a value.
pub open spec fn expiry_pairs_of(
    ctx: CompilerCtxt,
    body: BodyView,
    graph: Seq<EdgeView>,
    blocking: spec_fn(Set<BorrowPcgEdgeKind>) -> bool,
) -> spec_fn((Place, Place)) -> bool {
    |pair: (Place, Place)| is_expiry_pair(ctx, body, graph, blocking, pair)
}

/// The search for what blocks a place ends, for each place that is mutably borrowed and that
/// the user named.
pub open spec fn searches_end(ctx: CompilerCtxt, body: BodyView, graph: Seq<EdgeView>) -> bool {
    forall|place: Place|
        #[trigger] is_lent(graph, mut_borrows(), place) && spec_has_named_local(place, body)
            ==> paths_bounded(graph, valid_edges(ctx), BlockedNode::spec_from_place(place))
}

/// Whether the search for what blocks a place ends, for each place that is mutably borrowed
/// and that the user named.
fn check_searches(ctx: &CompilerCtxt, body: &Body, graph: &BorrowsGraph) -> (res: bool)
    requires
        expansions_typed(*ctx, graph@),
    ensures
        res == searches_end(*ctx, body@, graph@),
{
    let lent = borrowed_places(graph, is_mut);
    assert(decides(is_mut, mut_borrows()));
    let places = distinct_places(&lent);
    let mut i: usize = 0;
    while i < places.len()
        invariant
            expansions_typed(*ctx, graph@),
            forall|place: Place| #[trigger]
                places@.contains(place) <==> is_lent(graph@, mut_borrows(), place),
            i <= places.len(),
            forall|j: int|
                0 <= j < i && spec_has_named_local(#[trigger] places@[j], body@) ==> paths_bounded(
                    graph@,
                    valid_edges(*ctx),
                    BlockedNode::spec_from_place(places@[j]),
                ),
        decreases places.len() - i,
    {
        let place: Place = places[i];
        assert(places@.contains(places@[i as int]));
        if has_named_local(place, body) && !search_ends(place, graph, ctx) {
            return false;
        }
        i = i + 1;
    }
    assert forall|place: Place|
        #[trigger] is_lent(graph@, mut_borrows(), place) && spec_has_named_local(
            place,
            body@,
        ) implies paths_bounded(
        graph@,
        valid_edges(*ctx),
        BlockedNode::spec_from_place(place),
    ) by {
        assert(places@.contains(place));
        let j = choose|j: int| 0 <= j < places@.len() && places@[j] == place;
        assert(spec_has_named_local(places@[j], body@));
    }
    true
}

/// The search for blocking places works on these inputs, and so does making a mutant of
/// each pair that it finds.
pub open spec fn expiry_applicable(
    ctx: CompilerCtxt,
    body: BodyView,
    curr: PcgLocation,
    next: PcgLocation,
    blocking: spec_fn(Set<BorrowPcgEdgeKind>) -> bool,
) -> bool {
    let graph = next.post_operands.graph@;
    &&& expansions_typed(ctx, graph)
    &&& searches_end(ctx, body, graph)
    &&& forall|pair: (Place, Place)| #[trigger]
        is_expiry_pair(ctx, body, graph, blocking, pair) ==> {
            &&& ctx.has_ty(pair.0)
            &&& ctx.has_ty(pair.1)
            &&& can_split(body, curr.location, next.location)
        }
}

/// The mutants of all pairs, in any order.
pub open spec fn expiry_produces(
    ctx: CompilerCtxt,
    body: BodyView,
    curr: PcgLocation,
    next: PcgLocation,
    blocking: spec_fn(Set<BorrowPcgEdgeKind>) -> bool,
    mutants: Seq<MutantView>,
) -> bool {
    let graph = next.post_operands.graph@;
    exists|order: Seq<(Place, Place)>|
        {
            &&& #[trigger] enumerates(order, expiry_pairs_of(ctx, body, graph, blocking))
            &&& mutants == order.map_values(
                |pair: (Place, Place)|
                    expiry_mutant(ctx, body, curr.location, next.location, pair.0, pair.1),
            )
        }
}

/// Identifies the blocking places for each mutably borrowed place.
fn expiry_pairs<R: ExpiryRule>(
    rule: &R,
    ctx: &CompilerCtxt,
    body: &Body,
    graph: &BorrowsGraph,
) -> (res: Vec<(Place, Place)>)
    requires
        expansions_typed(*ctx, graph@),
        searches_end(*ctx, body@, graph@),
    ensures
        enumerates(res@, expiry_pairs_of(*ctx, body@, graph@, rule.blocking())),
{
    let lent = borrowed_places(graph, is_mut);
    assert(decides(is_mut, mut_borrows()));
    let places = distinct_places(&lent);
    let ghost wanted = expiry_pairs_of(*ctx, body@, graph@, rule.blocking());
    let mut res: Vec<(Place, Place)> = Vec::new();
    let mut i: usize = 0;
    while i < places.len()
        invariant
            expansions_typed(*ctx, graph@),
            searches_end(*ctx, body@, graph@),
            wanted == expiry_pairs_of(*ctx, body@, graph@, rule.blocking()),
            places@.no_duplicates(),
            forall|place: Place| #[trigger]
                places@.contains(place) <==> is_lent(graph@, mut_borrows(), place),
            i <= places.len(),
            res@.no_duplicates(),
            forall|pair: (Place, Place)| #[trigger]
                res@.contains(pair) <==> wanted(pair) && places@.take(i as int).contains(pair.0),
        decreases places.len() - i,
    {
        let place: Place = places[i];
        assert(places@.contains(places@[i as int]));
        let ghost before = res@;
        if has_named_local(place, body) {
            let blocking_places = places_blocking(place, graph, ctx, rule);
            let mut j: usize = 0;
            while j < blocking_places.len()
                invariant
                    wanted == expiry_pairs_of(*ctx, body@, graph@, rule.blocking()),
                    i < places.len(),
                    places@[i as int] == place,
                    places@.no_duplicates(),
                    is_lent(graph@, mut_borrows(), place),
                    spec_has_named_local(place, body@),
                    blocking_places@.no_duplicates(),
                    forall|blocker: Place| #[trigger]
                        blocking_places@.contains(blocker) <==> blocks_place(
                            graph@,
                            valid_edges(*ctx),
                            rule.blocking(),
                            place,
                            blocker,
                        ),
                    j <= blocking_places.len(),
                    forall|pair: (Place, Place)| #[trigger]
                        before.contains(pair) <==> wanted(pair) && places@.take(
                            i as int,
                        ).contains(pair.0),
                    res@.no_duplicates(),
                    forall|pair: (Place, Place)| #[trigger]
                        res@.contains(pair) <==> before.contains(pair) || (wanted(pair) && pair.0
                            == place && blocking_places@.take(j as int).contains(pair.1)),
                decreases blocking_places.len() - j,
            {
                let blocking_place: Place = blocking_places[j];
                let ghost so_far = res@;
                let ghost new_pair = (place, blocking_place);
                assert(blocking_places@.contains(blocking_places@[j as int]));
                if has_named_local(blocking_place, body) {
                    res.push((place, blocking_place));
                    assert(!places@.take(i as int).contains(place));
                    assert(!blocking_places@.take(j as int).contains(blocking_place));
                    assert(!so_far.contains(new_pair));
                }
                proof {
                    assert forall|pair: (Place, Place)| #[trigger]
                        res@.contains(pair) <==> before.contains(pair) || (wanted(pair) && pair.0
                            == place && blocking_places@.take(j + 1).contains(pair.1)) by {
                        lemma_take_contains(blocking_places@, j as int, pair.1);
                        if spec_has_named_local(blocking_place, body@) {
                            lemma_push_contains(so_far, new_pair, pair);
                        }
                    }
                }
                j = j + 1;
            }
            assert(blocking_places@.take(j as int) =~= blocking_places@);
        }
        proof {
            assert forall|pair: (Place, Place)| #[trigger]
                res@.contains(pair) <==> wanted(pair) && places@.take(i + 1).contains(pair.0) by {
                lemma_take_contains(places@, i as int, pair.0);
                assert(before.contains(pair) <==> wanted(pair) && places@.take(
                    i as int,
                ).contains(pair.0));
            }
        }
        i = i + 1;
    }
    assert(places@.take(i as int) =~= places@);
    res
}

/// Whether the type of whatever an edge of `graph` expands is known.
fn check_expansions(ctx: &CompilerCtxt, graph: &BorrowsGraph) -> (res: bool)
    ensures
        res == expansions_typed(*ctx, graph@),
{
    let mut i: usize = 0;
    while i < graph.edges.len()
        invariant
            i <= graph.edges.len(),
            forall|j: int| 0 <= j < i ==> kind_typed(*ctx, (#[trigger] graph@[j]).kind),
        decreases graph.edges.len() - i,
    {
        assert(graph@[i as int] == graph.edges@[i as int]@);
        if let BorrowPcgEdgeKind::BorrowPcgExpansion(expansion) = &graph.edges[i].kind {
            if !ctx.knows_ty(expansion.base.related_place()) {
                return false;
            }
        }
        i = i + 1;
    }
    true
}

fn expiry_is_applicable<R: ExpiryRule>(
    rule: &R,
    ctx: &CompilerCtxt,
    body: &Body,
    curr: &PcgLocation,
    next: &PcgLocation,
) -> (res: bool)
    ensures
        res == expiry_applicable(*ctx, body@, *curr, *next, rule.blocking()),
{
    let graph = &next.post_operands.graph;
    if !check_expansions(ctx, graph) || !check_searches(ctx, body, graph) {
        return false;
    }
    let pairs = expiry_pairs(rule, ctx, body, graph);
    let ghost wanted = expiry_pairs_of(*ctx, body@, graph@, rule.blocking());
    if pairs.is_empty() {
        assert forall|pair: (Place, Place)|
            !#[trigger] is_expiry_pair(*ctx, body@, graph@, rule.blocking(), pair) by {
            assert(!pairs@.contains(pair));
            assert(!wanted(pair));
        }
        return true;
    }
    assert(pairs@.contains(pairs@[0]));
    assert(wanted(pairs@[0]));
    assert(body@.blocks.len() == body.basic_blocks@.len());
    if curr.location.block >= body.basic_blocks.len() {
        return false;
    }
    let block = &body.basic_blocks[curr.location.block];
    assert(block@ == body@.blocks[curr.location.block as int]);
    if next.location.statement_index > block.statements.len() {
        return false;
    }
    let mut i: usize = 0;
    while i < pairs.len()
        invariant
            wanted == expiry_pairs_of(*ctx, body@, graph@, rule.blocking()),
            enumerates(pairs@, wanted),
            graph@ == next.post_operands.graph@,
            i <= pairs.len(),
            forall|j: int|
                0 <= j < i ==> ctx.has_ty((#[trigger] pairs@[j]).0) && ctx.has_ty(pairs@[j].1),
        decreases pairs.len() - i,
    {
        let pair: (Place, Place) = pairs[i];
        assert(pairs@.contains(pairs@[i as int]));
        assert(wanted(pair));
        if !ctx.knows_ty(pair.0) || !ctx.knows_ty(pair.1) {
            return false;
        }
        i = i + 1;
    }
    assert forall|pair: (Place, Place)| #[trigger]
        is_expiry_pair(*ctx, body@, graph@, rule.blocking(), pair) implies ctx.has_ty(pair.0)
        && ctx.has_ty(pair.1) by {
        assert(wanted(pair));
        assert(pairs@.contains(pair));
    }
    true
}

fn expiry_stream<'a, R: ExpiryRule>(
    rule: &R,
    ctx: &'a CompilerCtxt,
    body: &'a Body,
    curr: &'a PcgLocation,
    next: &'a PcgLocation,
) -> (res: MutantStream<'a>)
    requires
        expiry_applicable(*ctx, body@, *curr, *next, rule.blocking()),
    ensures
        res.ready(),
        expiry_produces(*ctx, body@, *curr, *next, rule.blocking(), res.remaining()),
{
    let mutant_sequences = expiry_pairs(rule, ctx, body, &next.post_operands.graph);
    let iter = Iter { mutant_sequences, ctx, body, curr: curr.location, next: next.location };
    proof {
        let wanted = expiry_pairs_of(
            *ctx,
            body@,
            next.post_operands.graph@,
            rule.blocking(),
        );
        assert forall|i: int| 0 <= i < mutant_sequences@.len() implies {
            &&& ctx.has_ty((#[trigger] mutant_sequences@[i]).0)
            &&& ctx.has_ty(mutant_sequences@[i].1)
            &&& body@.locals.len() > 0
            &&& can_split(body@, curr.location, next.location)
        } by {
            assert(mutant_sequences@.contains(mutant_sequences@[i]));
            assert(wanted(mutant_sequences@[i]));
        }
        lemma_reverse_enumerates(mutant_sequences@, wanted);
        assert(iter.remaining() =~= mutant_sequences@.reverse().map_values(
            |pair: (Place, Place)|
                expiry_mutant(*ctx, body@, curr.location, next.location, pair.0, pair.1),
        ));
    }
    MutantStream::new(Box::new(iter))
}

/// `BorrowExpiryOrder` identifies a place p1 which blocks another place p2 via a mutable
/// borrow and attempts to use p2 before p1.
pub struct BorrowExpiryOrder;

impl ExpiryRule for BorrowExpiryOrder {
    open spec fn blocking(&self) -> spec_fn(Set<BorrowPcgEdgeKind>) -> bool {
        has_mut_borrow()
    }

    fn is_blocking_edge(&self, kinds: &Vec<BorrowPcgEdgeKind>) -> (res: bool) {
        any_mut_borrow(kinds)
    }
}

impl Mutation for BorrowExpiryOrder {
    open spec fn applicable(
        &self,
        ctx: CompilerCtxt,
        body: BodyView,
        curr: PcgLocation,
        next: PcgLocation,
    ) -> bool {
        expiry_applicable(ctx, body, curr, next, has_mut_borrow())
    }

    open spec fn produces(
        &self,
        ctx: CompilerCtxt,
        body: BodyView,
        curr: PcgLocation,
        next: PcgLocation,
        mutants: Seq<MutantView>,
    ) -> bool {
        expiry_produces(ctx, body, curr, next, has_mut_borrow(), mutants)
    }

    open spec fn spec_name(&self) -> Seq<char> {
        "borrow-expiry-order"@
    }

    fn make_stream<'a>(
        &self,
        ctx: &'a CompilerCtxt,
        body: &'a Body,
        curr: &'a PcgLocation,
        next: &'a PcgLocation,
    ) -> (res: MutantStream<'a>) {
        expiry_stream(self, ctx, body, curr, next)
    }

    fn is_applicable(
        &self,
        ctx: &CompilerCtxt,
        body: &Body,
        curr: &PcgLocation,
        next: &PcgLocation,
    ) -> (res: bool) {
        expiry_is_applicable(self, ctx, body, curr, next)
    }

    fn name(&self) -> (res: String) {
        "borrow-expiry-order".to_string()
    }
}

/// `AbstractExpiryOrder` identifies a place p1 which blocks another place p2 via a mutable
/// borrow and through an abstraction edge and attempts to use p2 before p1.
pub struct AbstractExpiryOrder;

impl ExpiryRule for AbstractExpiryOrder {
    open spec fn blocking(&self) -> spec_fn(Set<BorrowPcgEdgeKind>) -> bool {
        has_abstraction_and_mut_borrow()
    }

    fn is_blocking_edge(&self, kinds: &Vec<BorrowPcgEdgeKind>) -> (res: bool) {
        any_abstraction(kinds) && any_mut_borrow(kinds)
    }
}

impl Mutation for AbstractExpiryOrder {
    open spec fn applicable(
        &self,
        ctx: CompilerCtxt,
        body: BodyView,
        curr: PcgLocation,
        next: PcgLocation,
    ) -> bool {
        expiry_applicable(ctx, body, curr, next, has_abstraction_and_mut_borrow())
    }

    open spec fn produces(
        &self,
        ctx: CompilerCtxt,
        body: BodyView,
        curr: PcgLocation,
        next: PcgLocation,
        mutants: Seq<MutantView>,
    ) -> bool {
        expiry_produces(ctx, body, curr, next, has_abstraction_and_mut_borrow(), mutants)
    }

    open spec fn spec_name(&self) -> Seq<char> {
        "abstract-expiry-order"@
    }

    fn make_stream<'a>(
        &self,
        ctx: &'a CompilerCtxt,
        body: &'a Body,
        curr: &'a PcgLocation,
        next: &'a PcgLocation,
    ) -> (res: MutantStream<'a>) {
        expiry_stream(self, ctx, body, curr, next)
    }

    fn is_applicable(
        &self,
        ctx: &CompilerCtxt,
        body: &Body,
        curr: &PcgLocation,
        next: &PcgLocation,
    ) -> (res: bool) {
        expiry_is_applicable(self, ctx, body, curr, next)
    }

    fn name(&self) -> (res: String) {
        "abstract-expiry-order".to_string()
    }
}

/// A search that may use more edges, or whose rule holds of more sets of kinds, finds no
/// fewer blockers.
pub proof fn law_looser_rules_find_no_fewer_blockers(
    graph: Seq<EdgeView>,
    valid: spec_fn(BorrowPcgEdgeKind) -> bool,
    looser_valid: spec_fn(BorrowPcgEdgeKind) -> bool,
    blocking: spec_fn(Set<BorrowPcgEdgeKind>) -> bool,
    looser_blocking: spec_fn(Set<BorrowPcgEdgeKind>) -> bool,
    place: Place,
    blocker: Place,
)
    requires
        forall|kind: BorrowPcgEdgeKind| #[trigger] valid(kind) ==> looser_valid(kind),
        forall|kinds: Set<BorrowPcgEdgeKind>| #[trigger] blocking(kinds) ==> looser_blocking(kinds),
        blocks_place(graph, valid, blocking, place, blocker),
    ensures
        blocks_place(graph, looser_valid, looser_blocking, place, blocker),
{
    let path = choose|path: Seq<usize>| #[trigger]
        ends_at(graph, valid, blocking, place, path, blocker);
    assert(ends_at(graph, looser_valid, looser_blocking, place, path, blocker));
}

/// Where no edge that blocks `place` may be used, or the rule never holds, nothing blocks
/// the place.
pub proof fn law_no_way_no_blockers(
    graph: Seq<EdgeView>,
    valid: spec_fn(BorrowPcgEdgeKind) -> bool,
    blocking: spec_fn(Set<BorrowPcgEdgeKind>) -> bool,
    place: Place,
    blocker: Place,
)
    requires
        ({
            ||| forall|i: int|
                0 <= i < graph.len() && (#[trigger] graph[i]).blocked.contains(
                    BlockedNode::spec_from_place(place),
                ) ==> !valid(graph[i].kind)
            ||| forall|kinds: Set<BorrowPcgEdgeKind>| !#[trigger] blocking(kinds)
        }),
    ensures
        !blocks_place(graph, valid, blocking, place, blocker),
{
    if blocks_place(graph, valid, blocking, place, blocker) {
        let path = choose|path: Seq<usize>| #[trigger]
            ends_at(graph, valid, blocking, place, path, blocker);
        assert(path[0] < graph.len());
        assert(valid(graph[path[0] as int].kind));
    }
}

/// Whatever blocks a place through an abstraction blocks it.
pub proof fn law_abstract_pairs_are_borrow_pairs(
    ctx: CompilerCtxt,
    body: BodyView,
    graph: Seq<EdgeView>,
    pair: (Place, Place),
)
    requires
        is_expiry_pair(ctx, body, graph, has_abstraction_and_mut_borrow(), pair),
    ensures
        is_expiry_pair(ctx, body, graph, has_mut_borrow(), pair),
{
    law_looser_rules_find_no_fewer_blockers(
        graph,
        valid_edges(ctx),
        valid_edges(ctx),
        has_abstraction_and_mut_borrow(),
        has_mut_borrow(),
        pair.0,
        pair.1,
    );
}

/// Every mutant of `AbstractExpiryOrder` is one of `BorrowExpiryOrder`.
pub proof fn law_abstract_mutants_are_borrow_mutants(
    ctx: CompilerCtxt,
    body: BodyView,
    curr: PcgLocation,
    next: PcgLocation,
    abstract_mutants: Seq<MutantView>,
    borrow_mutants: Seq<MutantView>,
    mutant: MutantView,
)
    requires
        AbstractExpiryOrder.produces(ctx, body, curr, next, abstract_mutants),
        BorrowExpiryOrder.produces(ctx, body, curr, next, borrow_mutants),
        abstract_mutants.contains(mutant),
    ensures
        borrow_mutants.contains(mutant),
{
    let graph = next.post_operands.graph@;
    let mutant_of = |pair: (Place, Place)|
        expiry_mutant(ctx, body, curr.location, next.location, pair.0, pair.1);
    let abstract_pairs = expiry_pairs_of(ctx, body, graph, has_abstraction_and_mut_borrow());
    let borrow_pairs = expiry_pairs_of(ctx, body, graph, has_mut_borrow());
    let abstract_order = choose|order: Seq<(Place, Place)>|
        #[trigger] enumerates(order, abstract_pairs) && abstract_mutants == order.map_values(
            mutant_of,
        );
    let borrow_order = choose|order: Seq<(Place, Place)>|
        #[trigger] enumerates(order, borrow_pairs) && borrow_mutants == order.map_values(mutant_of);
    let i = choose|i: int| 0 <= i < abstract_mutants.len() && abstract_mutants[i] == mutant;
    let pair = abstract_order[i];
    assert(abstract_order.contains(pair));
    law_abstract_pairs_are_borrow_pairs(ctx, body, graph, pair);
    assert(borrow_pairs(pair));
    assert(borrow_order.contains(pair));
    let j = choose|j: int| 0 <= j < borrow_order.len() && borrow_order[j] == pair;
    assert(borrow_mutants[j] == mutant);
}

/// A mutant that uses two places in the wrong order leaves what the function does alone:
/// its block is only split, control flows from the first part to the second one, and the
/// new branch, which is the mutant's range, leads nowhere.
pub proof fn law_expiry_mutant_keeps_the_code(
    ctx: CompilerCtxt,
    body: BodyView,
    curr: Location,
    next: Location,
    place: Place,
    blocking_place: Place,
)
    requires
        can_split(body, curr, next),
        body.blocks.len() + 1 <= usize::MAX,
    ensures
        ({
            let mutant = expiry_mutant(ctx, body, curr, next, place, blocking_place);
            let block = body.blocks[curr.block as int];
            let head = mutant.body.blocks[curr.block as int];
            let tail = mutant.body.blocks[body.blocks.len() as int];
            let branch = mutant.body.blocks[(body.blocks.len() + 1) as int];
            &&& mutant.body.blocks.len() == body.blocks.len() + 2
            &&& forall|b: int|
                0 <= b < body.blocks.len() && b != curr.block
                    ==> #[trigger] mutant.body.blocks[b] == body.blocks[b]
            &&& head.statements + tail.statements == block.statements
            &&& tail.terminator == block.terminator
            &&& head.terminator matches Some(terminator) && terminator.kind == (
            TerminatorKind::FalseEdge {
                real_target: body.blocks.len() as usize,
                imaginary_target: mutant.range.start.basic_block,
            })
            &&& mutant.range.start.basic_block == body.blocks.len() + 1
            &&& mutant.range.start.statement_index == 0
            &&& mutant.range.end.basic_block == body.blocks.len() + 1
            &&& mutant.range.end.statement_index == branch.statements.len() - 1
            &&& branch.terminator matches Some(terminator) && terminator.kind
                == TerminatorKind::Unreachable
            &&& mutant.body.locals.take(body.locals.len() as int) == body.locals
        }),
{
    let mutant = expiry_mutant(ctx, body, curr, next, place, blocking_place);
    let block = body.blocks[curr.block as int];
    let at = next.statement_index as int;
    assert(block.statements.take(at) + block.statements.skip(at) =~= block.statements);
    assert(mutant.body.locals.take(body.locals.len() as int) =~= body.locals);
}

} // verus!
