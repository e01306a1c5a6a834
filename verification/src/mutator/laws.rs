//! What the mutations promise, edge by edge and statement by statement: which mutants there
//! are for two consecutive statements, and what each of them looks like.

use super::expiry_order::{
    blocks_place, can_split, ends_at, expiry_applicable, expiry_mutant, expiry_pairs_of, expiry_produces,
    has_abstraction_and_mut_borrow, has_mut_borrow, is_expiry_pair, kind_typed, valid_edges,
    AbstractExpiryOrder, BorrowExpiryOrder,
};
use super::move_from_borrowed::{
    move_mutant, move_mutants, stays_mutably_borrowed, MoveFromBorrowed,
};
use super::mutably_lend_shared::{
    immutably_lent_places, lend_mutant, lend_mutants, stays_shared, MutablyLendShared,
};
use super::mutator_impl::{MutantInfo, MutantView, Mutation};
use super::read_from_write::{
    read_mutant, read_mutants, stays_write_only, write_only_places, ReadFromWriteOnly,
};
use super::utils::{
    enumerates, is_lent, lent_by, mut_borrows, shared_borrows, spec_borrowed_places,
    spec_has_named_local, spec_is_mut, spec_is_shared, with_fresh_block, with_fresh_local,
};
use super::write_to_shared::{shared_places, was_shared, write_mutant, write_mutants, WriteToShared};
use crate::graph::{bounded_by, follows, is_path, kinds_along, paths_bounded};
use crate::mir::{
    BindingForm, BindingMode, BodyView, BorrowKind, ByRef, LocalDecl, LocalInfo, Location,
    MutBorrowKind, Mutability, Operand, Place, Region, Rvalue, SourceInfo, Statement,
    StatementKind, TerminatorKind, Ty, VarBindingForm,
};
use crate::pcg::{
    lookup_ty, with_capability, BlockedNode, BorrowEdge, BorrowPcgEdge, BorrowPcgEdgeKind,
    CapabilityKind, CompilerCtxt, EdgeView, LocalNode, MaybeLabelledPlace, PcgLocation, PcgState,
};
use vstd::prelude::*;

verus! {

/// The edge is a borrow by the function itself, of the kind `kind`, that lends the current
/// version of `place`.
pub open spec fn borrows(edge: BorrowPcgEdge, kind: BorrowKind, place: Place) -> bool {
    &&& edge.kind matches BorrowPcgEdgeKind::Borrow(BorrowEdge::Local(borrow))
    &&& borrow.blocked_place == MaybeLabelledPlace::Current(place)
    &&& borrow.kind == kind
}

/// Some edge of the state is such a borrow.
pub open spec fn is_borrowed(state: PcgState, kind: BorrowKind, place: Place) -> bool {
    exists|i: int|
        0 <= i < state.graph.edges@.len() && #[trigger] borrows(
            state.graph.edges@[i],
            kind,
            place,
        )
}

/// The analysis lists `place` with the capability `capability`.
pub open spec fn is_listed(state: PcgState, capability: CapabilityKind, place: Place) -> bool {
    exists|i: int|
        0 <= i < state.capabilities@.len() && #[trigger] state.capabilities@[i] == (
            place,
            capability,
        )
}

/// The user named the variable of which `place` is a part.
pub open spec fn is_named(body: BodyView, place: Place) -> bool {
    place.local < body.locals.len() && body.locals[place.local as int].local_info is User
}

/// The first type that is given for `place` is `ty`.
pub open spec fn has_type(ctx: CompilerCtxt, place: Place, ty: Ty) -> bool {
    exists|i: int|
        0 <= i < ctx.place_tys@.len() && #[trigger] ctx.place_tys@[i] == (place, ty) && forall|
            j: int,
        |
            0 <= j < i ==> (#[trigger] ctx.place_tys@[j]).0 != place
}

/// There is a statement at `location`.
pub open spec fn is_statement(body: BodyView, location: Location) -> bool {
    &&& location.block < body.blocks.len()
    &&& location.statement_index < body.blocks[location.block as int].statements.len()
}

/// `mutant` has `statement` between the statement at `location` and the next one, its range
/// is that statement, and its blocks are otherwise those of `body`.
pub open spec fn has_inserted(
    body: BodyView,
    location: Location,
    mutant: MutantView,
    statement: Statement,
) -> bool {
    let block = body.blocks[location.block as int];
    let mutant_block = mutant.body.blocks[location.block as int];
    let at = location.statement_index + 1;
    &&& is_statement(body, location)
    &&& mutant.range.start.basic_block == location.block
    &&& mutant.range.start.statement_index == at
    &&& mutant.range.end == mutant.range.start
    &&& mutant_block.statements == block.statements.take(at) + seq![statement]
        + block.statements.skip(at)
    &&& mutant_block.terminator == block.terminator
    &&& mutant.body.blocks.len() == body.blocks.len()
    &&& forall|b: int|
        0 <= b < body.blocks.len() && b != location.block ==> #[trigger] mutant.body.blocks[b]
            == body.blocks[b]
}

/// A new local of type `ty`: a plain immutable binding by value, which stands where the
/// function's first local does.
pub open spec fn plain_local(body: BodyView, ty: Ty) -> LocalDecl {
    let source_info = body.locals[0].source_info;
    LocalDecl {
        ty,
        source_info,
        local_info: LocalInfo::User(
            BindingForm::Var(
                VarBindingForm {
                    binding_mode: BindingMode { by_ref: ByRef::No, mutability: Mutability::Not },
                    opt_ty_info: None,
                    opt_match_place: None,
                    pat_span: source_info.span,
                },
            ),
        ),
    }
}

/// The place that is the first local after those of `body`.
pub open spec fn is_next_local(body: BodyView, place: Place) -> bool {
    place.local == body.locals.len() && place.projection == 0
}

/// `order` are the numbers below `n` that are `wanted`, in increasing order.
pub open spec fn lists(order: Seq<int>, n: int, wanted: spec_fn(int) -> bool) -> bool {
    &&& forall|i: int, j: int| 0 <= i < j < order.len() ==> order[i] < order[j]
    &&& forall|i: int| #[trigger] order.contains(i) <==> 0 <= i < n && wanted(i)
}

// Sequences of what is picked.

spec fn picks(n: nat, wanted: spec_fn(int) -> bool) -> Seq<int>
    decreases n,
{
    if n == 0 {
        Seq::empty()
    } else {
        let before = picks((n - 1) as nat, wanted);
        if wanted(n - 1) {
            before.push(n - 1)
        } else {
            before
        }
    }
}

proof fn lemma_picks(n: nat, wanted: spec_fn(int) -> bool)
    ensures
        lists(picks(n, wanted), n as int, wanted),
    decreases n,
{
    if n > 0 {
        lemma_picks((n - 1) as nat, wanted);
        let before = picks((n - 1) as nat, wanted);
        let after = picks(n, wanted);
        assert forall|i: int| 0 <= i < before.len() implies #[trigger] before[i] < n - 1 by {
            assert(before.contains(before[i]));
        }
        assert forall|i: int| #[trigger] after.contains(i) <==> 0 <= i < n && wanted(i) by {
            if before.contains(i) {
                let j = choose|j: int| 0 <= j < before.len() && before[j] == i;
                assert(after[j] == i);
            }
            if wanted(n - 1) {
                assert(after[before.len() as int] == n - 1);
            }
            if after.contains(i) {
                let j = choose|j: int| 0 <= j < after.len() && after[j] == i;
                if j < before.len() {
                    assert(before[j] == i);
                }
            }
            assert(before.contains(i) <==> 0 <= i < n - 1 && wanted(i));
        }
    }
}

proof fn lemma_picks_agree(n: nat, p: spec_fn(int) -> bool, q: spec_fn(int) -> bool)
    requires
        forall|i: int| 0 <= i < n ==> #[trigger] p(i) == q(i),
    ensures
        picks(n, p) == picks(n, q),
    decreases n,
{
    if n > 0 {
        lemma_picks_agree((n - 1) as nat, p, q);
        assert(p(n - 1) == q(n - 1));
    }
}

/// What `f` and then `g` select, by index.
spec fn selected<A, B, C>(
    s: Seq<A>,
    f: spec_fn(A) -> Option<B>,
    g: spec_fn(B) -> Option<C>,
) -> spec_fn(int) -> bool {
    |i: int| f(s[i]) is Some && g(f(s[i])->0) is Some
}

spec fn selection<A, B, C>(
    s: Seq<A>,
    f: spec_fn(A) -> Option<B>,
    g: spec_fn(B) -> Option<C>,
) -> spec_fn(int) -> C {
    |i: int| g(f(s[i])->0)->0
}

proof fn lemma_select_twice<A, B, C>(
    s: Seq<A>,
    f: spec_fn(A) -> Option<B>,
    g: spec_fn(B) -> Option<C>,
)
    ensures
        s.filter_map(f).filter_map(g) == picks(s.len(), selected(s, f, g)).map_values(
            selection(s, f, g),
        ),
    decreases s.len(),
{
    let p = selected(s, f, g);
    let h = selection(s, f, g);
    if s.len() > 0 {
        let rest = s.drop_last();
        lemma_select_twice(rest, f, g);
        lemma_picks_agree(rest.len(), selected(rest, f, g), p);
        lemma_picks(rest.len(), p);
        let before = picks(rest.len(), p);
        let inner = rest.filter_map(f);
        assert(before.map_values(selection(rest, f, g)) =~= before.map_values(h)) by {
            assert forall|i: int| 0 <= i < before.len() implies #[trigger] before[i] < rest.len()
                && before[i] >= 0 by {
                assert(before.contains(before[i]));
            }
        }
        match f(s.last()) {
            Some(b) => {
                assert(s.filter_map(f) =~= inner.push(b));
                assert(inner.push(b).drop_last() =~= inner);
                match g(b) {
                    Some(c) => {
                        assert(s.filter_map(f).filter_map(g) =~= inner.filter_map(g).push(c));
                        assert(picks(s.len(), p).map_values(h) =~= before.map_values(h).push(c));
                    },
                    None => {
                        assert(s.filter_map(f).filter_map(g) =~= inner.filter_map(g));
                    },
                }
            },
            None => {},
        }
    }
    assert(s.filter_map(f).filter_map(g) =~= picks(s.len(), p).map_values(h));
}

/// `Some` of what satisfies `q`.
spec fn keep<A>(q: spec_fn(A) -> bool) -> spec_fn(A) -> Option<A> {
    |a: A|
        if q(a) {
            Some(a)
        } else {
            None
        }
}

proof fn lemma_filter_is_filter_map<A>(s: Seq<A>, q: spec_fn(A) -> bool)
    ensures
        s.filter(q) == s.filter_map(keep(q)),
    decreases s.len(),
{
    reveal(Seq::filter);
    if s.len() > 0 {
        lemma_filter_is_filter_map(s.drop_last(), q);
        assert(s.filter(q) =~= s.filter_map(keep(q)));
    }
}

// Types, and what is lent.

proof fn lemma_lookup(place_tys: Seq<(Place, Ty)>, place: Place) -> (res: int)
    ensures
        lookup_ty(place_tys, place) is Some ==> {
            &&& 0 <= res < place_tys.len()
            &&& place_tys[res] == (place, lookup_ty(place_tys, place)->0)
            &&& forall|j: int| 0 <= j < res ==> (#[trigger] place_tys[j]).0 != place
        },
        lookup_ty(place_tys, place) is None ==> forall|j: int|
            0 <= j < place_tys.len() ==> (#[trigger] place_tys[j]).0 != place,
    decreases place_tys.len(),
{
    if place_tys.len() == 0 {
        0
    } else if place_tys[0].0 == place {
        0
    } else {
        let rest = place_tys.drop_first();
        let i = lemma_lookup(rest, place);
        if lookup_ty(place_tys, place) is Some {
            assert forall|j: int| 0 <= j < i + 1 implies (#[trigger] place_tys[j]).0 != place by {
                if j > 0 {
                    assert(rest[j - 1].0 != place);
                }
            }
        } else {
            assert forall|j: int| 0 <= j < place_tys.len() implies (#[trigger] place_tys[j]).0
                != place by {
                if j > 0 {
                    assert(rest[j - 1].0 != place);
                }
            }
        }
        i + 1
    }
}

/// The type of a place is the first one that is given for it.
pub proof fn law_the_first_type_counts(ctx: CompilerCtxt, place: Place, ty: Ty)
    ensures
        has_type(ctx, place, ty) <==> ctx.has_ty(place) && ctx.spec_ty(place) == ty,
{
    let i = lemma_lookup(ctx.place_tys@, place);
    if ctx.has_ty(place) && ctx.spec_ty(place) == ty {
        assert(ctx.place_tys@[i] == (place, ty));
    }
    if has_type(ctx, place, ty) {
        let j = choose|j: int|
            0 <= j < ctx.place_tys@.len() && #[trigger] ctx.place_tys@[j] == (place, ty) && forall|
                k: int,
            |
                0 <= k < j ==> (#[trigger] ctx.place_tys@[k]).0 != place;
        assert(ctx.place_tys@[j].0 == place);
        if ctx.has_ty(place) {
            assert(ctx.place_tys@[i].0 == place);
            assert(i == j);
        }
    }
}

/// A place is lent exactly if some edge borrows it.
proof fn lemma_is_lent(
    state: PcgState,
    p: spec_fn(BorrowKind) -> bool,
    kind: BorrowKind,
    place: Place,
)
    requires
        forall|k: BorrowKind| #[trigger] p(k) <==> k == kind,
    ensures
        is_lent(state.graph@, p, place) <==> is_borrowed(state, kind, place),
{
    let graph = state.graph@;
    let lent = spec_borrowed_places(graph, p);
    if is_lent(graph, p, place) {
        let i = choose|i: int|
            #![trigger spec_borrowed_places(graph, p)[i]]
            0 <= i < spec_borrowed_places(graph, p).len() && spec_borrowed_places(graph, p)[i].0
                == place;
        assert(lent.contains(lent[i]));
        graph.lemma_filter_map_contains(lent_by(p), lent[i]);
        let edge = choose|edge: EdgeView| #[trigger]
            graph.contains(edge) && lent_by(p)(edge) == Some(lent[i]);
        let e = choose|e: int| 0 <= e < graph.len() && graph[e] == edge;
        assert(graph[e] == state.graph.edges@[e]@);
        assert(borrows(state.graph.edges@[e], kind, place));
    }
    if is_borrowed(state, kind, place) {
        let e = choose|e: int|
            0 <= e < state.graph.edges@.len() && #[trigger] borrows(
                state.graph.edges@[e],
                kind,
                place,
            );
        assert(graph[e] == state.graph.edges@[e]@);
        lemma_filter_map_has(graph, lent_by(p), e);
        let entry = lent_by(p)(graph[e])->0;
        let i = choose|i: int| 0 <= i < lent.len() && lent[i] == entry;
        assert(spec_borrowed_places(graph, p)[i].0 == place);
    }
}

proof fn lemma_filter_map_has<A, B>(s: Seq<A>, f: spec_fn(A) -> Option<B>, i: int)
    requires
        0 <= i < s.len(),
        f(s[i]) is Some,
    ensures
        s.filter_map(f).contains(f(s[i])->0),
    decreases s.len(),
{
    let rest = s.drop_last();
    let b = f(s[i])->0;
    if i < rest.len() {
        lemma_filter_map_has(rest, f, i);
        let j = choose|j: int| 0 <= j < rest.filter_map(f).len() && rest.filter_map(f)[j] == b;
        assert(s.filter_map(f)[j] == b);
    } else {
        assert(s.filter_map(f)[rest.filter_map(f).len() as int] == b);
    }
}

proof fn lemma_mut_lent(state: PcgState, place: Place)
    ensures
        is_lent(state.graph@, mut_borrows(), place) <==> is_borrowed(
            state,
            BorrowKind::Mut { kind: MutBorrowKind::Default },
            place,
        ),
{
    lemma_is_lent(
        state,
        mut_borrows(),
        BorrowKind::Mut { kind: MutBorrowKind::Default },
        place,
    );
}

proof fn lemma_shared_lent(state: PcgState, place: Place)
    ensures
        is_lent(state.graph@, shared_borrows(), place) <==> is_borrowed(
            state,
            BorrowKind::Shared,
            place,
        ),
{
    lemma_is_lent(state, shared_borrows(), BorrowKind::Shared, place);
}

proof fn lemma_inserted(body: BodyView, location: Location, statement: Statement)
    requires
        is_statement(body, location),
    ensures
        ({
            let statements = body.blocks[location.block as int].statements;
            let at = location.statement_index + 1;
            statements.insert(at, statement) == statements.take(at) + seq![statement]
                + statements.skip(at)
        }),
{
    let statements = body.blocks[location.block as int].statements;
    let at = location.statement_index + 1;
    assert(statements.insert(at, statement) =~= statements.take(at) + seq![statement]
        + statements.skip(at));
}

// Moving out of a place.

/// `place` is mutably borrowed after `curr`, still is once the operands of `next` are
/// evaluated, and is named.
pub open spec fn can_be_moved(
    body: BodyView,
    curr: PcgLocation,
    next: PcgLocation,
    place: Place,
) -> bool {
    let kind = BorrowKind::Mut { kind: MutBorrowKind::Default };
    &&& is_borrowed(curr.post_main, kind, place)
    &&& is_borrowed(next.post_operands, kind, place)
    &&& is_named(body, place)
}

/// `mutant` moves `place`, which has its own type, into a new local.
pub open spec fn moves(
    ctx: CompilerCtxt,
    body: BodyView,
    location: Location,
    mutant: MutantView,
    place: Place,
) -> bool {
    &&& mutant.info matches MutantInfo::Lent { place: found, inserted }
    &&& found == place
    &&& has_inserted(body, location, mutant, inserted)
    &&& inserted.source_info
        == body.blocks[location.block as int].statements[location.statement_index as int].source_info
    &&& inserted.kind matches StatementKind::Assign(target, value)
    &&& is_next_local(body, target)
    &&& value == Rvalue::Use(Operand::Move(place))
    &&& exists|ty: Ty| #[trigger]
        has_type(ctx, place, ty) && mutant.body.locals == body.locals.push(plain_local(body, ty))
}

/// The mutants of `MoveFromBorrowed` are as many as the named places that are and stay
/// mutably borrowed, and each of them moves one of these places, whatever its type, into a new
/// local. Where there is no statement after which to do so, there are none.
pub proof fn law_move_from_borrowed_moves_each_place(
    ctx: CompilerCtxt,
    body: BodyView,
    curr: PcgLocation,
    next: PcgLocation,
    mutants: Seq<MutantView>,
)
    requires
        MoveFromBorrowed.applicable(ctx, body, curr, next),
        MoveFromBorrowed.produces(ctx, body, curr, next, mutants),
        curr.location.statement_index < usize::MAX,
        body.locals.len() <= usize::MAX,
    ensures
        !is_statement(body, curr.location) ==> mutants.len() == 0,
        is_statement(body, curr.location) ==> exists|order: Seq<Place>|
            #![trigger order.no_duplicates()]
            {
                &&& order.no_duplicates()
                &&& order.len() == mutants.len()
                &&& forall|place: Place| #[trigger]
                    order.contains(place) <==> can_be_moved(body, curr, next, place)
                &&& forall|k: int|
                    0 <= k < mutants.len() ==> moves(
                        ctx,
                        body,
                        curr.location,
                        #[trigger] mutants[k],
                        order[k],
                    )
            },
{
    if is_statement(body, curr.location) {
        let order = choose|order: Seq<Place>|
            {
                &&& #[trigger] enumerates(order, stays_mutably_borrowed(body, curr, next))
                &&& mutants == order.map_values(move_mutants(ctx, body, curr.location))
            };
        assert forall|place: Place| #[trigger] order.contains(place) <==> can_be_moved(
            body,
            curr,
            next,
            place,
        ) by {
            lemma_mut_lent(curr.post_main, place);
            lemma_mut_lent(next.post_operands, place);
            assert(order.contains(place) <==> stays_mutably_borrowed(body, curr, next)(place));
        }
        assert forall|k: int| 0 <= k < mutants.len() implies moves(
            ctx,
            body,
            curr.location,
            #[trigger] mutants[k],
            order[k],
        ) by {
            let place = order[k];
            assert(order.contains(place));
            assert(stays_mutably_borrowed(body, curr, next)(place));
            assert(mutants[k] == move_mutant(ctx, body, curr.location, place));
            assert(ctx.has_ty(place));
            law_the_first_type_counts(ctx, place, ctx.spec_ty(place));
            lemma_inserted(body, curr.location, mutants[k].info->Lent_inserted);
            assert(has_type(ctx, place, ctx.spec_ty(place)));
        }
        assert(order.no_duplicates());
    }
}

// Lending a shared place.

/// Edge `i` after `curr` shares a named place that is still shared once the operands of
/// `next` are evaluated.
pub open spec fn can_be_lent(body: BodyView, curr: PcgLocation, next: PcgLocation) -> spec_fn(
    int,
) -> bool {
    |i: int|
        exists|place: Place|
            {
                &&& #[trigger] borrows(
                    curr.post_main.graph.edges@[i],
                    BorrowKind::Shared,
                    place,
                )
                &&& is_borrowed(next.post_operands, BorrowKind::Shared, place)
                &&& is_named(body, place)
            }
}

/// `mutant` mutably borrows the place that `edge` lends, for the same lifetime, into a new
/// local.
pub open spec fn lends(
    ctx: CompilerCtxt,
    body: BodyView,
    location: Location,
    mutant: MutantView,
    edge: BorrowPcgEdge,
) -> bool {
    &&& edge.kind matches BorrowPcgEdgeKind::Borrow(BorrowEdge::Local(borrow))
    &&& borrow.blocked_place matches MaybeLabelledPlace::Current(place)
    &&& mutant.info matches MutantInfo::Shared { place: found, inserted }
    &&& found == place
    &&& has_inserted(body, location, mutant, inserted)
    &&& inserted.source_info
        == body.blocks[location.block as int].statements[location.statement_index as int].source_info
    &&& inserted.kind matches StatementKind::Assign(target, value)
    &&& is_next_local(body, target)
    &&& value == Rvalue::Ref(
        borrow.region,
        BorrowKind::Mut { kind: MutBorrowKind::Default },
        place,
    )
    &&& exists|ty: Ty| #[trigger]
        has_type(ctx, place, ty) && mutant.body.locals == body.locals.push(
            plain_local(
                body,
                Ty::Ref { region: borrow.region, ty: Box::new(ty), mutability: Mutability::Mut },
            ),
        )
}

/// The mutants of `MutablyLendShared` are as many as the borrows that share a named place
/// which stays shared. Beginning with the last of these borrows, each mutant mutably borrows
/// exactly the place that one of them lends. Where there is no statement after which to do so,
/// there are none.
pub proof fn law_mutably_lend_shared_lends_each_place(
    ctx: CompilerCtxt,
    body: BodyView,
    curr: PcgLocation,
    next: PcgLocation,
    mutants: Seq<MutantView>,
)
    requires
        MutablyLendShared.applicable(ctx, body, curr, next),
        MutablyLendShared.produces(ctx, body, curr, next, mutants),
        curr.location.statement_index < usize::MAX,
        body.locals.len() <= usize::MAX,
    ensures
        !is_statement(body, curr.location) ==> mutants.len() == 0,
        is_statement(body, curr.location) ==> exists|order: Seq<int>|
            {
                &&& #[trigger] lists(
                    order,
                    curr.post_main.graph.edges@.len() as int,
                    can_be_lent(body, curr, next),
                )
                &&& order.len() == mutants.len()
                &&& forall|k: int|
                    0 <= k < mutants.len() ==> lends(
                        ctx,
                        body,
                        curr.location,
                        #[trigger] mutants[k],
                        curr.post_main.graph.edges@[order[order.len() - 1 - k]],
                    )
            },
{
    if is_statement(body, curr.location) {
        let graph = curr.post_main.graph@;
        let edges = curr.post_main.graph.edges@;
        let f = lent_by(shared_borrows());
        let q = stays_shared(body, next);
        let found = immutably_lent_places(body, curr, next);
        lemma_filter_is_filter_map(spec_borrowed_places(graph, shared_borrows()), q);
        lemma_select_twice(graph, f, keep(q));
        let wanted = can_be_lent(body, curr, next);
        let by_index = selected(graph, f, keep(q));
        assert forall|i: int| 0 <= i < graph.len() implies #[trigger] by_index(i) == wanted(i) by {
            assert(graph[i] == edges[i]@);
            if by_index(i) {
                let place = (f(graph[i])->0).0;
                assert(borrows(edges[i], BorrowKind::Shared, place));
                lemma_shared_lent(next.post_operands, place);
            }
            if wanted(i) {
                let place = choose|place: Place|
                    {
                        &&& #[trigger] borrows(edges[i], BorrowKind::Shared, place)
                        &&& is_borrowed(next.post_operands, BorrowKind::Shared, place)
                        &&& is_named(body, place)
                    };
                lemma_shared_lent(next.post_operands, place);
            }
        }
        lemma_picks_agree(graph.len(), by_index, wanted);
        lemma_picks(graph.len(), wanted);
        let order = picks(graph.len(), wanted);
        let n = order.len();
        assert(found == order.map_values(selection(graph, f, keep(q))));
        assert(mutants == found.reverse().map_values(lend_mutants(ctx, body, curr.location)));
        assert forall|k: int| 0 <= k < mutants.len() implies lends(
            ctx,
            body,
            curr.location,
            #[trigger] mutants[k],
            edges[order[n - 1 - k]],
        ) by {
            let i = order[n - 1 - k];
            assert(order.contains(i));
            assert(wanted(i));
            assert(by_index(i) == wanted(i));
            assert(graph[i] == edges[i]@);
            let lent = found[n - 1 - k];
            assert(found.contains(lent));
            assert(mutants[k] == lend_mutant(ctx, body, curr.location, lent));
            assert(ctx.has_ty(lent.0));
            law_the_first_type_counts(ctx, lent.0, ctx.spec_ty(lent.0));
            lemma_inserted(body, curr.location, mutants[k].info->Shared_inserted);
            assert(has_type(ctx, lent.0, ctx.spec_ty(lent.0)));
        }
        assert(lists(order, edges.len() as int, wanted));
    }
}

// Reading a place that may only be written to.

/// Entry `i` of the capabilities after `curr` is that of a named place which may only be
/// written to, and still may only be once the operands of `next` are evaluated.
pub open spec fn can_be_read(body: BodyView, curr: PcgLocation, next: PcgLocation) -> spec_fn(
    int,
) -> bool {
    |i: int|
        {
            let entry = curr.post_main.capabilities@[i];
            &&& entry.1 == CapabilityKind::Write
            &&& is_listed(next.post_operands, CapabilityKind::Write, entry.0)
            &&& is_named(body, entry.0)
        }
}

/// `mutant` reads `place`, which has its own type, into a new local.
pub open spec fn reads(
    ctx: CompilerCtxt,
    body: BodyView,
    location: Location,
    mutant: MutantView,
    place: Place,
) -> bool {
    &&& mutant.info matches MutantInfo::WriteOnly { place: found, inserted }
    &&& found == place
    &&& has_inserted(body, location, mutant, inserted)
    &&& inserted.source_info
        == body.blocks[location.block as int].statements[location.statement_index as int].source_info
    &&& inserted.kind matches StatementKind::Assign(target, value)
    &&& is_next_local(body, target)
    &&& value == Rvalue::Use(Operand::Copy(place))
    &&& exists|ty: Ty| #[trigger]
        has_type(ctx, place, ty) && mutant.body.locals == body.locals.push(plain_local(body, ty))
}

/// The mutants of `ReadFromWriteOnly` are as many as the named places that may only be
/// written to and stay so. Beginning with the last of these places, each mutant reads one of
/// them into a new local. Where there is no statement after which to do so, there are none.
pub proof fn law_read_from_write_only_reads_each_place(
    ctx: CompilerCtxt,
    body: BodyView,
    curr: PcgLocation,
    next: PcgLocation,
    mutants: Seq<MutantView>,
)
    requires
        ReadFromWriteOnly.applicable(ctx, body, curr, next),
        ReadFromWriteOnly.produces(ctx, body, curr, next, mutants),
        curr.location.statement_index < usize::MAX,
        body.locals.len() <= usize::MAX,
    ensures
        !is_statement(body, curr.location) ==> mutants.len() == 0,
        is_statement(body, curr.location) ==> exists|order: Seq<int>|
            {
                &&& #[trigger] lists(
                    order,
                    curr.post_main.capabilities@.len() as int,
                    can_be_read(body, curr, next),
                )
                &&& order.len() == mutants.len()
                &&& forall|k: int|
                    0 <= k < mutants.len() ==> reads(
                        ctx,
                        body,
                        curr.location,
                        #[trigger] mutants[k],
                        curr.post_main.capabilities@[order[order.len() - 1 - k]].0,
                    )
            },
{
    if is_statement(body, curr.location) {
        let entries = curr.post_main.capabilities@;
        let f = with_capability(CapabilityKind::Write);
        let q = stays_write_only(body, next);
        let found = write_only_places(body, curr, next);
        lemma_filter_is_filter_map(entries.filter_map(f), q);
        lemma_select_twice(entries, f, keep(q));
        let wanted = can_be_read(body, curr, next);
        let by_index = selected(entries, f, keep(q));
        assert forall|i: int| 0 <= i < entries.len() implies #[trigger] by_index(i) == wanted(
            i,
        ) by {
            lemma_listed(next.post_operands, CapabilityKind::Write, entries[i].0);
        }
        lemma_picks_agree(entries.len(), by_index, wanted);
        lemma_picks(entries.len(), wanted);
        let order = picks(entries.len(), wanted);
        let n = order.len();
        assert(found == order.map_values(selection(entries, f, keep(q))));
        assert(mutants == found.reverse().map_values(read_mutants(ctx, body, curr.location)));
        assert forall|k: int| 0 <= k < mutants.len() implies reads(
            ctx,
            body,
            curr.location,
            #[trigger] mutants[k],
            entries[order[n - 1 - k]].0,
        ) by {
            let i = order[n - 1 - k];
            assert(order.contains(i));
            assert(wanted(i));
            assert(by_index(i) == wanted(i));
            let place = found[n - 1 - k];
            assert(found.contains(place));
            assert(mutants[k] == read_mutant(ctx, body, curr.location, place));
            assert(ctx.has_ty(place));
            law_the_first_type_counts(ctx, place, ctx.spec_ty(place));
            lemma_inserted(body, curr.location, mutants[k].info->WriteOnly_inserted);
            assert(has_type(ctx, place, ctx.spec_ty(place)));
        }
        assert(lists(order, entries.len() as int, wanted));
    }
}

proof fn lemma_listed(state: PcgState, capability: CapabilityKind, place: Place)
    ensures
        state.spec_places_with_capability(capability).contains(place) <==> is_listed(
            state,
            capability,
            place,
        ),
{
    let entries = state.capabilities@;
    let f = with_capability(capability);
    if entries.filter_map(f).contains(place) {
        entries.lemma_filter_map_contains(f, place);
        let entry = choose|entry: (Place, CapabilityKind)| #[trigger]
            entries.contains(entry) && f(entry) == Some(place);
        let i = choose|i: int| 0 <= i < entries.len() && entries[i] == entry;
        assert(entries[i] == (place, capability));
    }
    if is_listed(state, capability, place) {
        let i = choose|i: int|
            0 <= i < entries.len() && #[trigger] entries[i] == (place, capability);
        lemma_filter_map_has(entries, f, i);
    }
}

/// Entry `i` has the capability `capability`.
pub open spec fn has_capability(state: PcgState, capability: CapabilityKind) -> spec_fn(
    int,
) -> bool {
    |i: int| state.capabilities@[i].1 == capability
}

/// The places with a capability are those of the entries with that capability, in the order
/// of the entries.
pub proof fn law_places_with_a_capability(state: PcgState, capability: CapabilityKind)
    ensures
        exists|order: Seq<int>|
            {
                &&& #[trigger] lists(
                    order,
                    state.capabilities@.len() as int,
                    has_capability(state, capability),
                )
                &&& state.spec_places_with_capability(capability) == order.map_values(
                    |i: int| state.capabilities@[i].0,
                )
            },
{
    let entries = state.capabilities@;
    let f = with_capability(capability);
    let all = keep(|place: Place| true);
    let wanted = has_capability(state, capability);
    let listed = entries.filter_map(f);
    lemma_select_twice(entries, f, all);
    lemma_keep_all(listed);
    lemma_picks_agree(entries.len(), selected(entries, f, all), wanted);
    lemma_picks(entries.len(), wanted);
    let order = picks(entries.len(), wanted);
    assert(lists(order, entries.len() as int, wanted));
    let by_index = order.map_values(|i: int| entries[i].0);
    assert(listed =~= by_index) by {
        assert forall|k: int| 0 <= k < order.len() implies listed[k] == #[trigger] by_index[k] by {
            assert(order.contains(order[k]));
            assert(wanted(order[k]));
        }
    }
}

proof fn lemma_keep_all<A>(s: Seq<A>)
    ensures
        s.filter_map(keep(|a: A| true)) == s,
    decreases s.len(),
{
    if s.len() > 0 {
        lemma_keep_all(s.drop_last());
        assert(s =~= s.drop_last().push(s.last()));
    }
    assert(s.filter_map(keep(|a: A| true)) =~= s);
}

// Writing to a shared place.

/// Edge `i` before the effect of `next` shares a named place that was shared after `curr`
/// already.
pub open spec fn can_be_written(body: BodyView, curr: PcgLocation, next: PcgLocation) -> spec_fn(
    int,
) -> bool {
    |i: int|
        exists|place: Place|
            {
                &&& #[trigger] borrows(
                    next.post_operands.graph.edges@[i],
                    BorrowKind::Shared,
                    place,
                )
                &&& is_borrowed(curr.post_main, BorrowKind::Shared, place)
                &&& is_named(body, place)
            }
}

/// `mutant` writes to the place that `edge` lends, and has no new local.
pub open spec fn writes(
    body: BodyView,
    location: Location,
    mutant: MutantView,
    edge: BorrowPcgEdge,
) -> bool {
    &&& edge.kind matches BorrowPcgEdgeKind::Borrow(BorrowEdge::Local(borrow))
    &&& borrow.blocked_place matches MaybeLabelledPlace::Current(place)
    &&& mutant.info matches MutantInfo::Shared { place: found, inserted }
    &&& found == place
    &&& has_inserted(body, location, mutant, inserted)
    &&& inserted.source_info == body.locals[0].source_info
    &&& inserted.kind == StatementKind::Assign(place, Rvalue::Len(place))
    &&& mutant.body.locals == body.locals
}

/// The mutants of `WriteToShared` are as many as the borrows that share a named place once
/// the operands of `next` are evaluated, where it was shared before. Beginning with the last of
/// these borrows, each mutant writes to exactly the place that one of them lends.
pub proof fn law_write_to_shared_writes_to_each_place(
    ctx: CompilerCtxt,
    body: BodyView,
    curr: PcgLocation,
    next: PcgLocation,
    mutants: Seq<MutantView>,
)
    requires
        WriteToShared.produces(ctx, body, curr, next, mutants),
        curr.location.statement_index < usize::MAX,
    ensures
        !is_statement(body, curr.location) ==> mutants.len() == 0,
        is_statement(body, curr.location) ==> exists|order: Seq<int>|
            {
                &&& #[trigger] lists(
                    order,
                    next.post_operands.graph.edges@.len() as int,
                    can_be_written(body, curr, next),
                )
                &&& order.len() == mutants.len()
                &&& forall|k: int|
                    0 <= k < mutants.len() ==> writes(
                        body,
                        curr.location,
                        #[trigger] mutants[k],
                        next.post_operands.graph.edges@[order[order.len() - 1 - k]],
                    )
            },
{
    if is_statement(body, curr.location) {
        let graph = next.post_operands.graph@;
        let edges = next.post_operands.graph.edges@;
        let f = lent_by(shared_borrows());
        let g = was_shared(body, curr);
        let found = shared_places(body, curr, next);
        lemma_select_twice(graph, f, g);
        let wanted = can_be_written(body, curr, next);
        let by_index = selected(graph, f, g);
        assert forall|i: int| 0 <= i < graph.len() implies #[trigger] by_index(i) == wanted(i) by {
            assert(graph[i] == edges[i]@);
            if by_index(i) {
                let place = (f(graph[i])->0).0;
                assert(borrows(edges[i], BorrowKind::Shared, place));
                lemma_shared_lent(curr.post_main, place);
            }
            if wanted(i) {
                let place = choose|place: Place|
                    {
                        &&& #[trigger] borrows(edges[i], BorrowKind::Shared, place)
                        &&& is_borrowed(curr.post_main, BorrowKind::Shared, place)
                        &&& is_named(body, place)
                    };
                lemma_shared_lent(curr.post_main, place);
            }
        }
        lemma_picks_agree(graph.len(), by_index, wanted);
        lemma_picks(graph.len(), wanted);
        let order = picks(graph.len(), wanted);
        let n = order.len();
        assert(found == order.map_values(selection(graph, f, g)));
        assert(mutants == found.reverse().map_values(write_mutants(body, curr.location)));
        assert forall|k: int| 0 <= k < mutants.len() implies writes(
            body,
            curr.location,
            #[trigger] mutants[k],
            edges[order[n - 1 - k]],
        ) by {
            let i = order[n - 1 - k];
            assert(order.contains(i));
            assert(wanted(i));
            assert(by_index(i) == wanted(i));
            assert(graph[i] == edges[i]@);
            let place = found[n - 1 - k];
            assert(mutants[k] == write_mutant(body, curr.location, place));
            lemma_inserted(body, curr.location, mutants[k].info->Shared_inserted);
        }
        assert(lists(order, edges.len() as int, wanted));
    }
}

// What is lent, borrow by borrow.

/// Edge `i` is a borrow by the function itself, of a kind that satisfies `p`, that lends the
/// current version of a place.
pub open spec fn lends_by(state: PcgState, p: spec_fn(BorrowKind) -> bool) -> spec_fn(int) -> bool {
    |i: int|
        {
            &&& state.graph.edges@[i].kind matches BorrowPcgEdgeKind::Borrow(
                BorrowEdge::Local(borrow),
            )
            &&& borrow.blocked_place is Current
            &&& p(borrow.kind)
        }
}

/// The borrowed places are those that the borrows of the right kind lend, in the order of the
/// edges and with the lifetimes of the borrows.
pub proof fn law_borrowed_places_borrow_by_borrow(
    state: PcgState,
    p: spec_fn(BorrowKind) -> bool,
)
    ensures
        exists|order: Seq<int>|
            {
                &&& #[trigger] lists(
                    order,
                    state.graph.edges@.len() as int,
                    lends_by(state, p),
                )
                &&& spec_borrowed_places(state.graph@, p).len() == order.len()
                &&& forall|k: int|
                    0 <= k < order.len() ==> ({
                        let borrow = state.graph.edges@[#[trigger] order[k]].kind->Borrow_0->Local_0;
                        spec_borrowed_places(state.graph@, p)[k] == (
                            borrow.blocked_place->Current_0,
                            borrow.region,
                        )
                    })
            },
{
    let graph = state.graph@;
    let edges = state.graph.edges@;
    let f = lent_by(p);
    let all = keep(|lent: (Place, Region)| true);
    let wanted = lends_by(state, p);
    let listed = spec_borrowed_places(graph, p);
    lemma_select_twice(graph, f, all);
    lemma_keep_all(listed);
    let by_index = selected(graph, f, all);
    assert forall|i: int| 0 <= i < graph.len() implies #[trigger] by_index(i) == wanted(i) by {
        assert(graph[i] == edges[i]@);
    }
    lemma_picks_agree(graph.len(), by_index, wanted);
    lemma_picks(graph.len(), wanted);
    let order = picks(graph.len(), wanted);
    assert(lists(order, edges.len() as int, wanted));
    assert forall|k: int| 0 <= k < order.len() implies ({
        let borrow = edges[#[trigger] order[k]].kind->Borrow_0->Local_0;
        listed[k] == (borrow.blocked_place->Current_0, borrow.region)
    }) by {
        assert(order.contains(order[k]));
        assert(wanted(order[k]));
        assert(graph[order[k]] == edges[order[k]]@);
    }
}

// Using two places in the wrong order.

/// The place that a node is, or on whose type it projects, whatever its version.
pub open spec fn place_of(node: LocalNode) -> Place {
    let versioned = match node {
        LocalNode::Place(place) => place,
        LocalNode::LifetimeProjection(projection) => projection.base,
    };
    match versioned {
        MaybeLabelledPlace::Current(place) => place,
        MaybeLabelledPlace::Labelled(place, _) => place,
    }
}

/// A path may use an edge of this kind: a mutable borrow by the function itself, the expansion
/// of a mutable reference, or an edge that is neither a borrow nor an expansion.
pub open spec fn may_use(ctx: CompilerCtxt, kind: BorrowPcgEdgeKind) -> bool {
    match kind {
        BorrowPcgEdgeKind::Borrow(BorrowEdge::Local(borrow)) => borrow.kind == (
        BorrowKind::Mut { kind: MutBorrowKind::Default }),
        BorrowPcgEdgeKind::Borrow(BorrowEdge::Remote(_)) => false,
        BorrowPcgEdgeKind::BorrowPcgExpansion(expansion) => exists|ty: Ty|
            #[trigger] has_type(ctx, place_of(expansion.base), ty) && (ty matches Ty::Ref {
                mutability,
                ..
            } && mutability == Mutability::Mut),
        BorrowPcgEdgeKind::Abstraction(_) => true,
        BorrowPcgEdgeKind::Other(_) => true,
    }
}

/// Edge `b` blocks one of the nodes that block what edge `a` blocks.
pub open spec fn goes_on(edges: Seq<BorrowPcgEdge>, a: usize, b: usize) -> bool {
    exists|m: int|
        0 <= m < edges[a as int].blocked_by@.len() && edges[b as int].blocked@.contains(
            BlockedNode::Local(#[trigger] edges[a as int].blocked_by@[m]),
        )
}

/// `path` leads away from the current version of `place`, edge by edge, along edges that it
/// may use.
pub open spec fn leads_from(
    ctx: CompilerCtxt,
    edges: Seq<BorrowPcgEdge>,
    place: Place,
    path: Seq<usize>,
) -> bool {
    &&& path.len() > 0
    &&& forall|i: int|
        0 <= i < path.len() ==> #[trigger] path[i] < edges.len() && may_use(
            ctx,
            edges[path[i] as int].kind,
        )
    &&& edges[path[0] as int].blocked@.contains(
        BlockedNode::Local(LocalNode::Place(MaybeLabelledPlace::Current(place))),
    )
    &&& forall|i: int, j: int|
        #![trigger path[i], path[j]]
        0 <= i && j == i + 1 && j < path.len() ==> goes_on(edges, path[i], path[j])
}

/// `path` leads from `place` to the current version of `blocker` and has a mutable borrow on
/// it, and an abstraction if that is asked for.
pub open spec fn leads_to(
    ctx: CompilerCtxt,
    edges: Seq<BorrowPcgEdge>,
    place: Place,
    path: Seq<usize>,
    blocker: Place,
    through_abstraction: bool,
) -> bool {
    &&& leads_from(ctx, edges, place, path)
    &&& edges[path.last() as int].blocked_by@.contains(
        LocalNode::Place(MaybeLabelledPlace::Current(blocker)),
    )
    &&& exists|i: int|
        0 <= i < path.len() && (edges[#[trigger] path[i] as int].kind matches
            BorrowPcgEdgeKind::Borrow(BorrowEdge::Local(borrow)) && borrow.kind == (
        BorrowKind::Mut { kind: MutBorrowKind::Default }))
    &&& through_abstraction ==> exists|i: int|
        0 <= i < path.len() && edges[#[trigger] path[i] as int].kind is Abstraction
}

/// `pair.0` is mutably borrowed, `pair.1` blocks it, and the user named both.
pub open spec fn is_blocked_pair(
    ctx: CompilerCtxt,
    body: BodyView,
    state: PcgState,
    through_abstraction: bool,
    pair: (Place, Place),
) -> bool {
    &&& is_borrowed(state, BorrowKind::Mut { kind: MutBorrowKind::Default }, pair.0)
    &&& is_named(body, pair.0)
    &&& is_named(body, pair.1)
    &&& exists|path: Seq<usize>| #[trigger]
        leads_to(ctx, state.graph.edges@, pair.0, path, pair.1, through_abstraction)
}

/// `statement` reborrows `place` into the local with index `local`.
pub open spec fn uses(
    statement: Statement,
    source_info: SourceInfo,
    local: nat,
    place: Place,
) -> bool {
    &&& statement.source_info == source_info
    &&& statement.kind matches StatementKind::Assign(target, value)
    &&& target.local == local
    &&& target.projection == 0
    &&& value == Rvalue::Ref(Region::MaxVar, BorrowKind::Shared, place)
}

/// `mutant` has a false branch, between `curr` and `next`, that uses `place` and then
/// `blocker`.
pub open spec fn uses_in_order(
    ctx: CompilerCtxt,
    body: BodyView,
    curr: Location,
    next: Location,
    mutant: MutantView,
    place: Place,
    blocker: Place,
) -> bool {
    let n = body.blocks.len() as int;
    let source_info = body.locals[0].source_info;
    let block = body.blocks[curr.block as int];
    let head = mutant.body.blocks[curr.block as int];
    let tail = mutant.body.blocks[n];
    let branch = mutant.body.blocks[n + 1];
    let at = next.statement_index as int;
    &&& mutant.body.blocks.len() == n + 2
    &&& forall|b: int|
        0 <= b < n && b != curr.block ==> #[trigger] mutant.body.blocks[b] == body.blocks[b]
    &&& head.statements == block.statements.take(at)
    &&& head.terminator matches Some(terminator)
    &&& terminator.source_info == source_info
    &&& terminator.kind matches TerminatorKind::FalseEdge { real_target, imaginary_target }
    &&& real_target == n
    &&& imaginary_target == n + 1
    &&& tail.statements == block.statements.skip(at)
    &&& tail.terminator == block.terminator
    &&& branch.statements.len() == 2
    &&& uses(branch.statements[0], source_info, body.locals.len(), place)
    &&& uses(branch.statements[1], source_info, body.locals.len() + 1, blocker)
    &&& branch.terminator matches Some(end)
    &&& end.source_info == source_info
    &&& end.kind == TerminatorKind::Unreachable
    &&& exists|ty: Ty, blocker_ty: Ty|
        #![trigger has_type(ctx, place, ty), has_type(ctx, blocker, blocker_ty)]
        {
            &&& has_type(ctx, place, ty)
            &&& has_type(ctx, blocker, blocker_ty)
            &&& mutant.body.locals == body.locals.push(
                plain_local(
                    body,
                    Ty::Ref {
                        region: Region::MaxVar,
                        ty: Box::new(ty),
                        mutability: Mutability::Mut,
                    },
                ),
            ).push(
                plain_local(
                    body,
                    Ty::Ref {
                        region: Region::MaxVar,
                        ty: Box::new(blocker_ty),
                        mutability: Mutability::Mut,
                    },
                ),
            )
        }
    &&& mutant.range.start.basic_block == n + 1
    &&& mutant.range.start.statement_index == 0
    &&& mutant.range.end.basic_block == n + 1
    &&& mutant.range.end.statement_index == 1
    &&& mutant.info == (MutantInfo::ExpirySequence {
        first: branch.statements[0],
        second: branch.statements[1],
    })
}

proof fn lemma_may_use(ctx: CompilerCtxt, kind: BorrowPcgEdgeKind)
    requires
        kind_typed(ctx, kind),
    ensures
        valid_edges(ctx)(kind) <==> may_use(ctx, kind),
{
    if let BorrowPcgEdgeKind::BorrowPcgExpansion(expansion) = kind {
        let place = place_of(expansion.base);
        law_the_first_type_counts(ctx, place, ctx.spec_ty(place));
        assert(has_type(ctx, place, ctx.spec_ty(place)));
        assert forall|ty: Ty| #[trigger] has_type(ctx, place, ty) implies ty == ctx.spec_ty(
            place,
        ) by {
            law_the_first_type_counts(ctx, place, ty);
        }
    }
}

proof fn lemma_goes_on(graph: Seq<EdgeView>, edges: Seq<BorrowPcgEdge>, a: usize, b: usize)
    requires
        graph.len() == edges.len(),
        forall|i: int| 0 <= i < graph.len() ==> #[trigger] graph[i] == edges[i]@,
        a < edges.len(),
        b < edges.len(),
    ensures
        follows(graph[a as int], graph[b as int]) <==> goes_on(edges, a, b),
{
    assert(graph[a as int] == edges[a as int]@ && graph[b as int] == edges[b as int]@);
    if follows(graph[a as int], graph[b as int]) {
        let m = choose|m: int|
            0 <= m < graph[a as int].blocked_by.len() && graph[b as int].blocked.contains(
                BlockedNode::Local(#[trigger] graph[a as int].blocked_by[m]),
            );
        assert(edges[a as int].blocked_by@[m] == graph[a as int].blocked_by[m]);
    }
    if goes_on(edges, a, b) {
        let m = choose|m: int|
            0 <= m < edges[a as int].blocked_by@.len() && edges[b as int].blocked@.contains(
                BlockedNode::Local(#[trigger] edges[a as int].blocked_by@[m]),
            );
        assert(graph[a as int].blocked_by[m] == edges[a as int].blocked_by@[m]);
    }
}

proof fn lemma_leads_from(ctx: CompilerCtxt, state: PcgState, place: Place, path: Seq<usize>)
    requires
        forall|i: int|
            0 <= i < state.graph@.len() ==> kind_typed(ctx, (#[trigger] state.graph@[i]).kind),
    ensures
        is_path(
            state.graph@,
            valid_edges(ctx),
            BlockedNode::spec_from_place(place),
            path,
        ) <==> leads_from(ctx, state.graph.edges@, place, path),
{
    let graph = state.graph@;
    let edges = state.graph.edges@;
    let valid = valid_edges(ctx);
    let start = BlockedNode::spec_from_place(place);
    assert forall|i: int| 0 <= i < graph.len() implies #[trigger] graph[i] == edges[i]@ by {}
    if is_path(graph, valid, start, path) {
        assert forall|i: int| 0 <= i < path.len() implies #[trigger] path[i] < edges.len()
            && may_use(ctx, edges[path[i] as int].kind) by {
            assert(graph[path[i] as int] == edges[path[i] as int]@);
            lemma_may_use(ctx, graph[path[i] as int].kind);
        }
        assert(path[0] < graph.len());
        assert(graph[path[0] as int] == edges[path[0] as int]@);
        assert forall|i: int, j: int|
            #![trigger path[i], path[j]]
            0 <= i && j == i + 1 && j < path.len() implies goes_on(edges, path[i], path[j]) by {
            assert(path[i] < graph.len() && path[j] < graph.len());
            lemma_goes_on(graph, edges, path[i], path[j]);
        }
    }
    if leads_from(ctx, edges, place, path) {
        assert forall|i: int| 0 <= i < path.len() implies #[trigger] path[i] < graph.len() && valid(
            graph[path[i] as int].kind,
        ) by {
            assert(graph[path[i] as int] == edges[path[i] as int]@);
            lemma_may_use(ctx, graph[path[i] as int].kind);
        }
        assert(path[0] < graph.len());
        assert(graph[path[0] as int] == edges[path[0] as int]@);
        assert forall|i: int, j: int|
            #![trigger path[i], path[j]]
            0 <= i && j == i + 1 && j < path.len() implies follows(
            graph[path[i] as int],
            graph[path[j] as int],
        ) by {
            assert(path[i] < graph.len() && path[j] < graph.len());
            lemma_goes_on(graph, edges, path[i], path[j]);
        }
    }
}

/// The rule of the mutation.
spec fn rule(through_abstraction: bool) -> spec_fn(Set<BorrowPcgEdgeKind>) -> bool {
    if through_abstraction {
        has_abstraction_and_mut_borrow()
    } else {
        has_mut_borrow()
    }
}

proof fn lemma_leads_to(
    ctx: CompilerCtxt,
    state: PcgState,
    place: Place,
    path: Seq<usize>,
    blocker: Place,
    through_abstraction: bool,
)
    requires
        forall|i: int|
            0 <= i < state.graph@.len() ==> kind_typed(ctx, (#[trigger] state.graph@[i]).kind),
    ensures
        ends_at(
            state.graph@,
            valid_edges(ctx),
            rule(through_abstraction),
            place,
            path,
            blocker,
        ) <==> leads_to(ctx, state.graph.edges@, place, path, blocker, through_abstraction),
{
    let graph = state.graph@;
    let edges = state.graph.edges@;
    lemma_leads_from(ctx, state, place, path);
    if leads_from(ctx, edges, place, path) {
        let kinds = kinds_along(graph, path);
        assert forall|i: int| 0 <= i < path.len() implies kinds[i] == edges[
            #[trigger] path[i] as int
        ].kind && kinds.to_set().contains(kinds[i]) by {
            assert(graph[path[i] as int] == edges[path[i] as int]@);
            assert(kinds.contains(kinds[i]));
        }
        assert forall|kind: BorrowPcgEdgeKind| #[trigger] kinds.to_set().contains(
            kind,
        ) implies exists|i: int|
            0 <= i < path.len() && edges[#[trigger] path[i] as int].kind == kind by {
            let i = choose|i: int| 0 <= i < kinds.len() && kinds[i] == kind;
            assert(edges[path[i] as int].kind == kind);
        }
        let last = path[path.len() - 1];
        assert(last < graph.len());
        let edge = graph[last as int];
        assert(edge == edges[last as int]@);
        let node = LocalNode::Place(MaybeLabelledPlace::Current(blocker));
        if edges[last as int].blocked_by@.contains(node) {
            let m = choose|m: int|
                0 <= m < edges[last as int].blocked_by@.len() && edges[last as int].blocked_by@[m]
                    == node;
            assert(edge.blocked_by[m].spec_as_current_place() == Some(blocker));
        }
        if exists|m: int|
            0 <= m < edge.blocked_by.len() && (#[trigger] edge.blocked_by[m]).spec_as_current_place()
                == Some(blocker) {
            let m = choose|m: int|
                0 <= m < edge.blocked_by.len()
                    && (#[trigger] edge.blocked_by[m]).spec_as_current_place() == Some(blocker);
            assert(edges[last as int].blocked_by@[m] == node);
        }
    }
}

proof fn lemma_blocked_pair(
    ctx: CompilerCtxt,
    body: BodyView,
    state: PcgState,
    through_abstraction: bool,
    pair: (Place, Place),
)
    requires
        forall|i: int|
            0 <= i < state.graph@.len() ==> kind_typed(ctx, (#[trigger] state.graph@[i]).kind),
    ensures
        is_expiry_pair(ctx, body, state.graph@, rule(through_abstraction), pair)
            <==> is_blocked_pair(ctx, body, state, through_abstraction, pair),
{
    let graph = state.graph@;
    let valid = valid_edges(ctx);
    let blocking = rule(through_abstraction);
    lemma_mut_lent(state, pair.0);
    if blocks_place(graph, valid, blocking, pair.0, pair.1) {
        let path = choose|path: Seq<usize>| #[trigger]
            ends_at(graph, valid, blocking, pair.0, path, pair.1);
        lemma_leads_to(ctx, state, pair.0, path, pair.1, through_abstraction);
    }
    if exists|path: Seq<usize>| #[trigger]
        leads_to(ctx, state.graph.edges@, pair.0, path, pair.1, through_abstraction) {
        let path = choose|path: Seq<usize>| #[trigger]
            leads_to(ctx, state.graph.edges@, pair.0, path, pair.1, through_abstraction);
        lemma_leads_to(ctx, state, pair.0, path, pair.1, through_abstraction);
        assert(ends_at(graph, valid, blocking, pair.0, path, pair.1));
    }
}

/// The mutants are as many as the blocked pairs, and each of them uses the two places of one
/// pair, first the borrowed one and then the one that blocks it.
pub open spec fn uses_each_pair(
    ctx: CompilerCtxt,
    body: BodyView,
    curr: PcgLocation,
    next: PcgLocation,
    through_abstraction: bool,
    mutants: Seq<MutantView>,
) -> bool {
    exists|order: Seq<(Place, Place)>|
        #![trigger order.no_duplicates()]
        {
            &&& order.no_duplicates()
            &&& order.len() == mutants.len()
            &&& forall|pair: (Place, Place)| #[trigger]
                order.contains(pair) <==> is_blocked_pair(
                    ctx,
                    body,
                    next.post_operands,
                    through_abstraction,
                    pair,
                )
            &&& forall|k: int|
                0 <= k < mutants.len() ==> uses_in_order(
                    ctx,
                    body,
                    curr.location,
                    next.location,
                    #[trigger] mutants[k],
                    order[k].0,
                    order[k].1,
                )
        }
}

proof fn lemma_uses_each_pair(
    ctx: CompilerCtxt,
    body: BodyView,
    curr: PcgLocation,
    next: PcgLocation,
    through_abstraction: bool,
    mutants: Seq<MutantView>,
)
    requires
        expiry_applicable(ctx, body, curr, next, rule(through_abstraction)),
        expiry_produces(ctx, body, curr, next, rule(through_abstraction), mutants),
        body.blocks.len() + 1 <= usize::MAX,
        body.locals.len() + 1 <= usize::MAX,
    ensures
        uses_each_pair(ctx, body, curr, next, through_abstraction, mutants),
{
    let state = next.post_operands;
    let graph = state.graph@;
    let blocking = rule(through_abstraction);
    let wanted = expiry_pairs_of(ctx, body, graph, blocking);
    let mutant_of = |pair: (Place, Place)|
        expiry_mutant(ctx, body, curr.location, next.location, pair.0, pair.1);
    let order = choose|order: Seq<(Place, Place)>|
        #[trigger] enumerates(order, wanted) && mutants == order.map_values(mutant_of);
    assert forall|pair: (Place, Place)| #[trigger] order.contains(pair) <==> is_blocked_pair(
        ctx,
        body,
        state,
        through_abstraction,
        pair,
    ) by {
        lemma_blocked_pair(ctx, body, state, through_abstraction, pair);
        assert(order.contains(pair) <==> wanted(pair));
    }
    assert forall|k: int| 0 <= k < mutants.len() implies uses_in_order(
        ctx,
        body,
        curr.location,
        next.location,
        #[trigger] mutants[k],
        order[k].0,
        order[k].1,
    ) by {
        let pair = order[k];
        assert(order.contains(pair));
        assert(wanted(pair));
        assert(is_expiry_pair(ctx, body, graph, blocking, pair));
        assert(mutants[k] == mutant_of(pair));
        law_the_first_type_counts(ctx, pair.0, ctx.spec_ty(pair.0));
        law_the_first_type_counts(ctx, pair.1, ctx.spec_ty(pair.1));
        assert(has_type(ctx, pair.0, ctx.spec_ty(pair.0)));
        assert(has_type(ctx, pair.1, ctx.spec_ty(pair.1)));
    }
    assert(order.no_duplicates());
}

/// The mutants of `BorrowExpiryOrder` are as many as the pairs of named places of which the
/// first is mutably borrowed and the second blocks it, along a path with a mutable borrow on
/// it. Each mutant uses the two places of one pair in a false branch: first the borrowed one,
/// then the one that blocks it.
pub proof fn law_borrow_expiry_order_uses_each_pair(
    ctx: CompilerCtxt,
    body: BodyView,
    curr: PcgLocation,
    next: PcgLocation,
    mutants: Seq<MutantView>,
)
    requires
        BorrowExpiryOrder.applicable(ctx, body, curr, next),
        BorrowExpiryOrder.produces(ctx, body, curr, next, mutants),
        body.blocks.len() + 1 <= usize::MAX,
        body.locals.len() + 1 <= usize::MAX,
    ensures
        uses_each_pair(ctx, body, curr, next, false, mutants),
{
    lemma_uses_each_pair(ctx, body, curr, next, false, mutants);
}

/// The mutants of `AbstractExpiryOrder` are likewise, for the pairs that are connected by a
/// path with both a mutable borrow and an abstraction on it, whatever other edges it has.
pub proof fn law_abstract_expiry_order_uses_each_pair(
    ctx: CompilerCtxt,
    body: BodyView,
    curr: PcgLocation,
    next: PcgLocation,
    mutants: Seq<MutantView>,
)
    requires
        AbstractExpiryOrder.applicable(ctx, body, curr, next),
        AbstractExpiryOrder.produces(ctx, body, curr, next, mutants),
        body.blocks.len() + 1 <= usize::MAX,
        body.locals.len() + 1 <= usize::MAX,
    ensures
        uses_each_pair(ctx, body, curr, next, true, mutants),
{
    lemma_uses_each_pair(ctx, body, curr, next, true, mutants);
}

// When a mutation can work.

/// Some type is given for `place`.
pub open spec fn is_known(ctx: CompilerCtxt, place: Place) -> bool {
    exists|i: int| 0 <= i < ctx.place_tys@.len() && (#[trigger] ctx.place_tys@[i]).0 == place
}

proof fn lemma_known(ctx: CompilerCtxt, place: Place)
    ensures
        ctx.has_ty(place) <==> is_known(ctx, place),
{
    let i = lemma_lookup(ctx.place_tys@, place);
    if ctx.has_ty(place) {
        assert(ctx.place_tys@[i].0 == place);
    }
}

/// `MoveFromBorrowed` can work wherever the types of the places that it moves are known.
pub proof fn law_move_from_borrowed_is_applicable(
    ctx: CompilerCtxt,
    body: BodyView,
    curr: PcgLocation,
    next: PcgLocation,
)
    ensures
        MoveFromBorrowed.applicable(ctx, body, curr, next) <==> forall|place: Place| #[trigger]
            can_be_moved(body, curr, next, place) ==> is_known(ctx, place),
{
    assert forall|place: Place| stays_mutably_borrowed(body, curr, next)(place)
        <==> #[trigger] can_be_moved(body, curr, next, place) by {
        lemma_mut_lent(curr.post_main, place);
        lemma_mut_lent(next.post_operands, place);
    }
    if MoveFromBorrowed.applicable(ctx, body, curr, next) {
        assert forall|place: Place| #[trigger] can_be_moved(body, curr, next, place) implies is_known(
            ctx,
            place,
        ) by {
            lemma_known(ctx, place);
            assert(ctx.has_ty(place));
        }
    }
    if forall|place: Place| #[trigger]
        can_be_moved(body, curr, next, place) ==> is_known(ctx, place) {
        assert forall|place: Place|
            stays_mutably_borrowed(body, curr, next)(place) implies #[trigger] ctx.has_ty(place) by {
            lemma_known(ctx, place);
            assert(can_be_moved(body, curr, next, place));
        }
    }
}

/// `MutablyLendShared` can work wherever the types of the places that it lends are known.
pub proof fn law_mutably_lend_shared_is_applicable(
    ctx: CompilerCtxt,
    body: BodyView,
    curr: PcgLocation,
    next: PcgLocation,
)
    ensures
        MutablyLendShared.applicable(ctx, body, curr, next) <==> forall|place: Place|
            #[trigger] is_borrowed(curr.post_main, BorrowKind::Shared, place) && is_borrowed(
                next.post_operands,
                BorrowKind::Shared,
                place,
            ) && is_named(body, place) ==> is_known(ctx, place),
{
    let graph = curr.post_main.graph@;
    let all = spec_borrowed_places(graph, shared_borrows());
    let q = stays_shared(body, next);
    let found = immutably_lent_places(body, curr, next);
    if MutablyLendShared.applicable(ctx, body, curr, next) {
        assert forall|place: Place|
            #[trigger] is_borrowed(curr.post_main, BorrowKind::Shared, place) && is_borrowed(
                next.post_operands,
                BorrowKind::Shared,
                place,
            ) && is_named(body, place) implies is_known(ctx, place) by {
            lemma_shared_lent(curr.post_main, place);
            lemma_shared_lent(next.post_operands, place);
            lemma_known(ctx, place);
            let i = choose|i: int|
                #![trigger spec_borrowed_places(graph, shared_borrows())[i]]
                0 <= i < spec_borrowed_places(graph, shared_borrows()).len()
                    && spec_borrowed_places(graph, shared_borrows())[i].0 == place;
            all.lemma_filter_contains(q, i);
            assert(found.contains(all[i]));
        }
    }
    if forall|place: Place|
        #[trigger] is_borrowed(curr.post_main, BorrowKind::Shared, place) && is_borrowed(
            next.post_operands,
            BorrowKind::Shared,
            place,
        ) && is_named(body, place) ==> is_known(ctx, place) {
        assert forall|lent: (Place, Region)| #[trigger] found.contains(lent) implies ctx.has_ty(
            lent.0,
        ) by {
            all.lemma_filter_contains_rev(q, lent);
            let i = choose|i: int| 0 <= i < all.len() && all[i] == lent;
            assert(spec_borrowed_places(graph, shared_borrows())[i].0 == lent.0);
            let k = choose|k: int| 0 <= k < found.len() && found[k] == lent;
            all.lemma_filter_pred(q, k);
            lemma_shared_lent(curr.post_main, lent.0);
            lemma_shared_lent(next.post_operands, lent.0);
            lemma_known(ctx, lent.0);
        }
    }
}

/// `ReadFromWriteOnly` can work wherever the types of the places that it reads are known.
pub proof fn law_read_from_write_only_is_applicable(
    ctx: CompilerCtxt,
    body: BodyView,
    curr: PcgLocation,
    next: PcgLocation,
)
    ensures
        ReadFromWriteOnly.applicable(ctx, body, curr, next) <==> forall|place: Place|
            #[trigger] is_listed(curr.post_main, CapabilityKind::Write, place) && is_listed(
                next.post_operands,
                CapabilityKind::Write,
                place,
            ) && is_named(body, place) ==> is_known(ctx, place),
{
    let all = curr.post_main.spec_places_with_capability(CapabilityKind::Write);
    let q = stays_write_only(body, next);
    let found = write_only_places(body, curr, next);
    assert forall|place: Place| found.contains(place) <==> #[trigger] is_listed(
        curr.post_main,
        CapabilityKind::Write,
        place,
    ) && is_listed(next.post_operands, CapabilityKind::Write, place) && is_named(body, place) by {
        lemma_listed(curr.post_main, CapabilityKind::Write, place);
        lemma_listed(next.post_operands, CapabilityKind::Write, place);
        if found.contains(place) {
            all.lemma_filter_contains_rev(q, place);
            let k = choose|k: int| 0 <= k < found.len() && found[k] == place;
            all.lemma_filter_pred(q, k);
        }
        if all.contains(place) && q(place) {
            let i = choose|i: int| 0 <= i < all.len() && all[i] == place;
            all.lemma_filter_contains(q, i);
        }
    }
    if ReadFromWriteOnly.applicable(ctx, body, curr, next) {
        assert forall|place: Place|
            #[trigger] is_listed(curr.post_main, CapabilityKind::Write, place) && is_listed(
                next.post_operands,
                CapabilityKind::Write,
                place,
            ) && is_named(body, place) implies is_known(ctx, place) by {
            lemma_known(ctx, place);
            assert(ctx.has_ty(place));
        }
    }
    if forall|place: Place|
        #[trigger] is_listed(curr.post_main, CapabilityKind::Write, place) && is_listed(
            next.post_operands,
            CapabilityKind::Write,
            place,
        ) && is_named(body, place) ==> is_known(ctx, place) {
        assert forall|place: Place| found.contains(place) implies #[trigger] ctx.has_ty(place) by {
            lemma_known(ctx, place);
            assert(is_listed(curr.post_main, CapabilityKind::Write, place));
        }
    }
}

/// `WriteToShared` can work wherever there is a statement after which to write, or no block
/// at all, or nothing to write to.
pub proof fn law_write_to_shared_is_applicable(
    ctx: CompilerCtxt,
    body: BodyView,
    curr: PcgLocation,
    next: PcgLocation,
)
    ensures
        WriteToShared.applicable(ctx, body, curr, next) <==> {
            ||| is_statement(body, curr.location)
            ||| curr.location.block >= body.blocks.len()
            ||| forall|place: Place|
                !(#[trigger] is_borrowed(next.post_operands, BorrowKind::Shared, place)
                    && is_borrowed(curr.post_main, BorrowKind::Shared, place) && is_named(
                    body,
                    place,
                ))
        },
{
    let graph = next.post_operands.graph@;
    let all = spec_borrowed_places(graph, shared_borrows());
    let g = was_shared(body, curr);
    let found = shared_places(body, curr, next);
    if found.len() > 0 {
        assert(found.contains(found[0]));
        all.lemma_filter_map_contains(g, found[0]);
        let lent = choose|lent: (Place, Region)| #[trigger]
            all.contains(lent) && g(lent) == Some(found[0]);
        let i = choose|i: int| 0 <= i < all.len() && all[i] == lent;
        assert(spec_borrowed_places(graph, shared_borrows())[i].0 == lent.0);
        lemma_shared_lent(next.post_operands, lent.0);
        lemma_shared_lent(curr.post_main, lent.0);
        assert(is_borrowed(next.post_operands, BorrowKind::Shared, lent.0));
    }
    assert forall|place: Place|
        #[trigger] is_borrowed(next.post_operands, BorrowKind::Shared, place) && is_borrowed(
            curr.post_main,
            BorrowKind::Shared,
            place,
        ) && is_named(body, place) implies found.len() > 0 by {
        lemma_shared_lent(next.post_operands, place);
        lemma_shared_lent(curr.post_main, place);
        let i = choose|i: int|
            #![trigger spec_borrowed_places(graph, shared_borrows())[i]]
            0 <= i < spec_borrowed_places(graph, shared_borrows()).len()
                && spec_borrowed_places(graph, shared_borrows())[i].0 == place;
        lemma_filter_map_has(all, g, i);
    }
}

/// No path that leads from `place` has more than `n` edges.
pub open spec fn leads_at_most(
    ctx: CompilerCtxt,
    edges: Seq<BorrowPcgEdge>,
    place: Place,
    n: nat,
) -> bool {
    forall|path: Seq<usize>| #[trigger] leads_from(ctx, edges, place, path) ==> path.len() <= n
}

/// The search for pairs ends, the types that it looks at are known, and so are those of the
/// pairs that it finds, between whose uses the block can be split.
pub open spec fn can_search(
    ctx: CompilerCtxt,
    body: BodyView,
    curr: PcgLocation,
    next: PcgLocation,
    through_abstraction: bool,
) -> bool {
    let state = next.post_operands;
    let edges = state.graph.edges@;
    &&& forall|i: int|
        0 <= i < edges.len() ==> ((#[trigger] edges[i]).kind matches
            BorrowPcgEdgeKind::BorrowPcgExpansion(expansion) ==> is_known(
            ctx,
            place_of(expansion.base),
        ))
    &&& forall|place: Place|
        #[trigger] is_borrowed(
            state,
            BorrowKind::Mut { kind: MutBorrowKind::Default },
            place,
        ) && is_named(body, place) ==> exists|n: nat| #[trigger]
            leads_at_most(ctx, edges, place, n)
    &&& forall|pair: (Place, Place)| #[trigger]
        is_blocked_pair(ctx, body, state, through_abstraction, pair) ==> {
            &&& is_known(ctx, pair.0)
            &&& is_known(ctx, pair.1)
            &&& curr.location.block < body.blocks.len()
            &&& next.location.statement_index
                <= body.blocks[curr.location.block as int].statements.len()
        }
}

proof fn lemma_can_search(
    ctx: CompilerCtxt,
    body: BodyView,
    curr: PcgLocation,
    next: PcgLocation,
    through_abstraction: bool,
)
    ensures
        expiry_applicable(ctx, body, curr, next, rule(through_abstraction)) <==> can_search(
            ctx,
            body,
            curr,
            next,
            through_abstraction,
        ),
{
    let state = next.post_operands;
    let graph = state.graph@;
    let edges = state.graph.edges@;
    let valid = valid_edges(ctx);
    let kind = BorrowKind::Mut { kind: MutBorrowKind::Default };
    assert forall|i: int| 0 <= i < graph.len() implies #[trigger] graph[i] == edges[i]@ by {}
    assert forall|place: Place| #[trigger] ctx.has_ty(place) <==> is_known(ctx, place) by {
        lemma_known(ctx, place);
    }
    let typed = forall|i: int| 0 <= i < graph.len() ==> kind_typed(ctx, (#[trigger] graph[i]).kind);
    if expiry_applicable(ctx, body, curr, next, rule(through_abstraction)) {
        assert(typed);
        assert forall|i: int| 0 <= i < edges.len() implies ((#[trigger] edges[i]).kind matches
            BorrowPcgEdgeKind::BorrowPcgExpansion(expansion) ==> is_known(
            ctx,
            place_of(expansion.base),
        )) by {
            assert(kind_typed(ctx, graph[i].kind));
            if let BorrowPcgEdgeKind::BorrowPcgExpansion(expansion) = edges[i].kind {
                lemma_known(ctx, place_of(expansion.base));
            }
        }
        assert forall|place: Place|
            #[trigger] is_borrowed(state, kind, place) && is_named(body, place) implies exists|
            n: nat,
        | #[trigger] leads_at_most(ctx, edges, place, n) by {
            lemma_mut_lent(state, place);
            assert(is_lent(graph, mut_borrows(), place));
            let start = BlockedNode::spec_from_place(place);
            let n = choose|n: nat| #[trigger] bounded_by(graph, valid, start, n);
            assert forall|path: Seq<usize>| #[trigger]
                leads_from(ctx, edges, place, path) implies path.len() <= n by {
                lemma_leads_from(ctx, state, place, path);
            }
            assert(leads_at_most(ctx, edges, place, n));
        }
        assert forall|pair: (Place, Place)| #[trigger]
            is_blocked_pair(ctx, body, state, through_abstraction, pair) implies {
            &&& is_known(ctx, pair.0)
            &&& is_known(ctx, pair.1)
            &&& curr.location.block < body.blocks.len()
            &&& next.location.statement_index
                <= body.blocks[curr.location.block as int].statements.len()
        } by {
            lemma_blocked_pair(ctx, body, state, through_abstraction, pair);
            lemma_known(ctx, pair.0);
            lemma_known(ctx, pair.1);
        }
    }
    if can_search(ctx, body, curr, next, through_abstraction) {
        assert forall|i: int| 0 <= i < graph.len() implies kind_typed(
            ctx,
            (#[trigger] graph[i]).kind,
        ) by {
            assert(edges[i].kind == graph[i].kind);
            if let BorrowPcgEdgeKind::BorrowPcgExpansion(expansion) = edges[i].kind {
                lemma_known(ctx, place_of(expansion.base));
            }
        }
        assert forall|place: Place|
            #[trigger] is_lent(graph, mut_borrows(), place) && spec_has_named_local(
                place,
                body,
            ) implies paths_bounded(graph, valid, BlockedNode::spec_from_place(place)) by {
            lemma_mut_lent(state, place);
            assert(is_borrowed(state, kind, place));
            let start = BlockedNode::spec_from_place(place);
            let n = choose|n: nat| #[trigger] leads_at_most(ctx, edges, place, n);
            assert forall|path: Seq<usize>| #[trigger]
                is_path(graph, valid, start, path) implies path.len() <= n by {
                lemma_leads_from(ctx, state, place, path);
            }
            assert(bounded_by(graph, valid, start, n));
        }
        assert forall|pair: (Place, Place)| #[trigger]
            is_expiry_pair(ctx, body, graph, rule(through_abstraction), pair) implies {
            &&& ctx.has_ty(pair.0)
            &&& ctx.has_ty(pair.1)
            &&& can_split(body, curr.location, next.location)
        } by {
            lemma_blocked_pair(ctx, body, state, through_abstraction, pair);
            lemma_known(ctx, pair.0);
            lemma_known(ctx, pair.1);
        }
    }
}

/// `BorrowExpiryOrder` can work wherever its searches end, the types are known, and the block
/// can be split.
pub proof fn law_borrow_expiry_order_is_applicable(
    ctx: CompilerCtxt,
    body: BodyView,
    curr: PcgLocation,
    next: PcgLocation,
)
    ensures
        BorrowExpiryOrder.applicable(ctx, body, curr, next) <==> can_search(
            ctx,
            body,
            curr,
            next,
            false,
        ),
{
    lemma_can_search(ctx, body, curr, next, false);
}

/// So can `AbstractExpiryOrder`.
pub proof fn law_abstract_expiry_order_is_applicable(
    ctx: CompilerCtxt,
    body: BodyView,
    curr: PcgLocation,
    next: PcgLocation,
)
    ensures
        AbstractExpiryOrder.applicable(ctx, body, curr, next) <==> can_search(
            ctx,
            body,
            curr,
            next,
            true,
        ),
{
    lemma_can_search(ctx, body, curr, next, true);
}

// What the mutations share.

/// A fresh local comes last, with the type that is asked for, and nothing else changes.
pub proof fn law_a_fresh_local_is_plain(body: BodyView, ty: Ty)
    ensures
        with_fresh_local(body, ty).blocks == body.blocks,
        with_fresh_local(body, ty).locals == body.locals.push(plain_local(body, ty)),
{
}

/// A fresh block comes last, is empty and has no terminator, and nothing else changes.
pub proof fn law_a_fresh_block_is_empty(body: BodyView)
    ensures
        with_fresh_block(body).locals == body.locals,
        with_fresh_block(body).blocks.drop_last() == body.blocks,
        with_fresh_block(body).blocks.last().statements.len() == 0,
        with_fresh_block(body).blocks.last().terminator is None,
{
    assert(with_fresh_block(body).blocks.drop_last() =~= body.blocks);
}

/// Of all kinds of borrows one is an ordinary mutable one, and one is shared.
pub proof fn law_kinds_of_borrows(kind: BorrowKind)
    ensures
        spec_is_mut(kind) <==> (kind matches BorrowKind::Mut { kind } && kind is Default),
        spec_is_shared(kind) <==> kind is Shared,
{
}

/// A place is named exactly if its local is one of the body's and the user's.
pub proof fn law_named_places(body: BodyView, place: Place)
    ensures
        spec_has_named_local(place, body) <==> is_named(body, place),
{
}

} // verus!
