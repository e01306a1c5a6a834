//! Helpers that several mutations share.

use super::mutator_impl::{MutantInfo, MutantLocation, MutantRange, MutantView};
use crate::mir::{
    BasicBlockData, BindingForm, BindingMode, BlockView, Body, BodyView, BorrowKind, ByRef,
    LocalDecl, LocalInfo, Location, MutBorrowKind, Mutability, Place, Region, SourceInfo, Statement,
    Ty, VarBindingForm,
};
use crate::pcg::{BorrowEdge, BorrowPcgEdgeKind, BorrowsGraph, EdgeView};
use vstd::prelude::*;

verus! {

/// The declaration of a fresh local: it passes for a plain `let` binding of the user's,
/// at source position `source_info`.
pub open spec fn fresh_local_decl(ty: Ty, source_info: SourceInfo) -> LocalDecl {
    LocalDecl {
        ty,
        source_info,
        local_info: LocalInfo::User(
            BindingForm::Var(
                VarBindingForm {
                    binding_mode: BindingMode { by_ref: ByRef::No, mutability: Mutability::Not },
                    opt_ty_info: None,
                    opt_match_place: None,
                    pat_span: source_info.span,
                },
            ),
        ),
    }
}

/// The body after `fresh_local`.
pub open spec fn with_fresh_local(body: BodyView, ty: Ty) -> BodyView {
    body.push_local(fresh_local_decl(ty, body.locals[0].source_info))
}

/// Creates a fresh local with a bogus source span, and returns its index.
pub fn fresh_local(body: &mut Body, ty: Ty) -> (res: usize)
    requires
        old(body)@.locals.len() > 0,
    ensures
        res == old(body)@.locals.len(),
        final(body)@ == with_fresh_local(old(body)@, ty),
{
    let source_info = bogus_source_info(body);
    let var_binding_form = VarBindingForm {
        binding_mode: BindingMode { by_ref: ByRef::No, mutability: Mutability::Not },
        opt_ty_info: None,
        opt_match_place: None,
        pat_span: source_info.span,
    };
    let local_info = LocalInfo::User(BindingForm::Var(var_binding_form));
    let local: usize = body.local_decls.len();
    body.local_decls.push(LocalDecl { ty, source_info, local_info });
    assert(body@.blocks =~= old(body)@.blocks);
    local
}

/// The body after `fresh_basic_block`.
pub open spec fn with_fresh_block(body: BodyView) -> BodyView {
    BodyView {
        blocks: body.blocks.push(BlockView { statements: Seq::empty(), terminator: None }),
        ..body
    }
}

/// Adds an empty basic block without a terminator, and returns its index.
pub fn fresh_basic_block(body: &mut Body) -> (res: usize)
    ensures
        res == old(body)@.blocks.len(),
        final(body)@ == (BodyView {
            blocks: old(body)@.blocks.push(
                BlockView { statements: Seq::empty(), terminator: None },
            ),
            ..old(body)@
        }),
        final(body)@ == with_fresh_block(old(body)@),
{
    let block: usize = body.basic_blocks.len();
    let data = BasicBlockData { statements: Vec::new(), terminator: None };
    assert(data@ =~= BlockView { statements: Seq::empty(), terminator: None });
    body.basic_blocks.push(data);
    assert(body@.blocks =~= old(body)@.blocks.push(data@));
    block
}

/// A source position for code that has none: that of the body's first local.
pub fn bogus_source_info(body: &Body) -> (res: SourceInfo)
    requires
        body@.locals.len() > 0,
    ensures
        res == body@.locals[0].source_info,
{
    body.local_decls[0].source_info
}

pub open spec fn spec_is_mut(kind: BorrowKind) -> bool {
    kind == (BorrowKind::Mut { kind: MutBorrowKind::Default })
}

/// Whether a borrow is an ordinary mutable one.
pub fn is_mut(kind: BorrowKind) -> (res: bool)
    ensures
        res == spec_is_mut(kind),
{
    match kind {
        BorrowKind::Mut { kind: MutBorrowKind::Default } => true,
        _ => false,
    }
}

pub open spec fn spec_is_shared(kind: BorrowKind) -> bool {
    kind == BorrowKind::Shared
}

/// Whether a borrow is a shared one.
pub fn is_shared(kind: BorrowKind) -> (res: bool)
    ensures
        res == spec_is_shared(kind),
{
    match kind {
        BorrowKind::Shared => true,
        _ => false,
    }
}

/// `spec_is_mut` as a value.
pub open spec fn mut_borrows() -> spec_fn(BorrowKind) -> bool {
    |kind: BorrowKind| spec_is_mut(kind)
}

/// `spec_is_shared` as a value.
pub open spec fn shared_borrows() -> spec_fn(BorrowKind) -> bool {
    |kind: BorrowKind| spec_is_shared(kind)
}

/// Selects from the edges the places that the function lends by a borrow satisfying `p`,
/// each with the lifetime of the borrow.
pub open spec fn lent_by(p: spec_fn(BorrowKind) -> bool) -> spec_fn(EdgeView) -> Option<
    (Place, Region),
> {
    |edge: EdgeView|
        match edge.kind {
            BorrowPcgEdgeKind::Borrow(BorrowEdge::Local(local_borrow)) => {
                match local_borrow.blocked_place.spec_as_current_place() {
                    Some(place) => {
                        if p(local_borrow.kind) {
                            Some((place, local_borrow.region))
                        } else {
                            None
                        }
                    },
                    None => None,
                }
            },
            _ => None,
        }
}

/// The places that borrow edges satisfying `p` block, edge by edge.
pub open spec fn spec_borrowed_places(
    graph: Seq<EdgeView>,
    p: spec_fn(BorrowKind) -> bool,
) -> Seq<(Place, Region)> {
    graph.filter_map(lent_by(p))
}

/// `place` is lent by a borrow satisfying `p`.
pub open spec fn is_lent(
    graph: Seq<EdgeView>,
    p: spec_fn(BorrowKind) -> bool,
    place: Place,
) -> bool {
    exists|i: int|
        #![trigger spec_borrowed_places(graph, p)[i]]
        0 <= i < spec_borrowed_places(graph, p).len() && spec_borrowed_places(graph, p)[i].0
            == place
}

/// `f` decides `p`.
pub open spec fn decides<F: Fn(BorrowKind) -> bool>(
    f: F,
    p: spec_fn(BorrowKind) -> bool,
) -> bool {
    &&& forall|kind: BorrowKind| #[trigger] call_requires(f, (kind,))
    &&& forall|kind: BorrowKind, res: bool| #[trigger]
        call_ensures(f, (kind,), res) ==> res == p(kind)
}

/// Returns every place blocked by a borrow edge satisfying `p`.
pub fn borrowed_places<F: Fn(BorrowKind) -> bool>(graph: &BorrowsGraph, p: F) -> (res: Vec<
    (Place, Region),
>)
    requires
        forall|kind: BorrowKind| #[trigger] call_requires(p, (kind,)),
    ensures
        forall|q: spec_fn(BorrowKind) -> bool| #[trigger]
            decides(p, q) ==> res@ == spec_borrowed_places(graph@, q),
{
    let mut res: Vec<(Place, Region)> = Vec::new();
    let mut i: usize = 0;
    while i < graph.edges.len()
        invariant
            forall|kind: BorrowKind| #[trigger] call_requires(p, (kind,)),
            i <= graph.edges.len(),
            forall|q: spec_fn(BorrowKind) -> bool| #[trigger]
                decides(p, q) ==> res@ == graph@.take(i as int).filter_map(lent_by(q)),
        decreases graph.edges.len() - i,
    {
        assert(graph@.take(i + 1).drop_last() =~= graph@.take(i as int));
        assert(graph@.take(i + 1).last() == graph.edges@[i as int]@);
        match &graph.edges[i].kind {
            BorrowPcgEdgeKind::Borrow(borrow_edge) => match borrow_edge {
                BorrowEdge::Local(local_borrow) => {
                    if let Some(kind) = borrow_edge.kind() {
                        if p(kind) {
                            if let Some(place) = local_borrow.blocked_place.as_current_place() {
                                res.push((place, local_borrow.region));
                            }
                        }
                    }
                },
                _ => {},
            },
            _ => {},
        }
        i = i + 1;
    }
    assert(graph@.take(i as int) =~= graph@);
    res
}

pub open spec fn spec_has_named_local(place: Place, body: BodyView) -> bool {
    place.local < body.locals.len() && body.locals[place.local as int].spec_is_user_variable()
}

/// Whether `place` is, or is part of, a variable that the user named.
pub fn has_named_local(place: Place, body: &Body) -> (res: bool)
    ensures
        res == spec_has_named_local(place, body@),
{
    if place.local < body.local_decls.len() {
        body.local_decls[place.local].is_user_variable()
    } else {
        false
    }
}

/// Whether `place` is among the places of `lent`.
pub(crate) fn lends(lent: &Vec<(Place, Region)>, place: Place) -> (res: bool)
    ensures
        res == (exists|i: int|
            #![trigger lent@[i]]
            0 <= i < lent@.len() && lent@[i].0 == place),
{
    let mut i: usize = 0;
    while i < lent.len()
        invariant
            i <= lent.len(),
            forall|j: int| 0 <= j < i ==> (#[trigger] lent@[j]).0 != place,
        decreases lent.len() - i,
    {
        if lent[i].0 == place {
            assert(lent@[i as int].0 == place);
            return true;
        }
        i = i + 1;
    }
    false
}

/// Whether `place` is one of `places`.
pub(crate) fn contains_place(places: &Vec<Place>, place: Place) -> (res: bool)
    ensures
        res == places@.contains(place),
{
    let mut i: usize = 0;
    while i < places.len()
        invariant
            i <= places.len(),
            forall|j: int| 0 <= j < i ==> places@[j] != place,
        decreases places.len() - i,
    {
        if places[i] == place {
            assert(places@[i as int] == place);
            return true;
        }
        i = i + 1;
    }
    false
}

/// Adds `place` to a list without duplicates, unless it is already there.
pub(crate) fn insert_place(places: &mut Vec<Place>, place: Place)
    requires
        old(places)@.no_duplicates(),
    ensures
        final(places)@.no_duplicates(),
        forall|p: Place| #[trigger]
            final(places)@.contains(p) <==> old(places)@.contains(p) || p == place,
{
    if !contains_place(places, place) {
        let ghost before = places@;
        places.push(place);
        assert forall|p: Place| #[trigger] places@.contains(p) <==> before.contains(p) || p
            == place by {
            if before.contains(p) {
                let i = choose|i: int| 0 <= i < before.len() && before[i] == p;
                assert(places@[i] == p);
            }
            if p == place {
                assert(places@[before.len() as int] == p);
            }
        }
    }
}

/// `order` lists everything that is `wanted`, once.
pub open spec fn enumerates<A>(order: Seq<A>, wanted: spec_fn(A) -> bool) -> bool {
    &&& order.no_duplicates()
    &&& forall|a: A| #[trigger] order.contains(a) <==> wanted(a)
}

pub(crate) proof fn lemma_reverse_enumerates<A>(order: Seq<A>, wanted: spec_fn(A) -> bool)
    requires
        enumerates(order, wanted),
    ensures
        enumerates(order.reverse(), wanted),
{
    let reversed = order.reverse();
    let n = order.len();
    assert forall|a: A| #[trigger] reversed.contains(a) <==> wanted(a) by {
        if reversed.contains(a) {
            let i = choose|i: int| 0 <= i < n && reversed[i] == a;
            assert(order[n - 1 - i] == a);
            assert(order.contains(a));
        }
        if wanted(a) {
            assert(order.contains(a));
            let i = choose|i: int| 0 <= i < n && order[i] == a;
            assert(reversed[n - 1 - i] == a);
        }
    }
}

/// The places that `lent` names, each once.
pub(crate) fn distinct_places(lent: &Vec<(Place, Region)>) -> (res: Vec<Place>)
    ensures
        res@.no_duplicates(),
        forall|p: Place| #[trigger]
            res@.contains(p) <==> exists|i: int|
                #![trigger lent@[i]]
                0 <= i < lent@.len() && lent@[i].0 == p,
{
    let mut res: Vec<Place> = Vec::new();
    let mut i: usize = 0;
    while i < lent.len()
        invariant
            i <= lent.len(),
            res@.no_duplicates(),
            forall|p: Place| #[trigger]
                res@.contains(p) <==> exists|j: int|
                    #![trigger lent@[j]]
                    0 <= j < i && lent@[j].0 == p,
        decreases lent.len() - i,
    {
        assert(lent@[i as int] == lent@[i as int]);
        insert_place(&mut res, lent[i].0);
        i = i + 1;
    }
    res
}

pub(crate) proof fn lemma_push_contains<A>(s: Seq<A>, a: A, x: A)
    ensures
        s.push(a).contains(x) <==> s.contains(x) || x == a,
{
    if s.contains(x) {
        let i = choose|i: int| 0 <= i < s.len() && s[i] == x;
        assert(s.push(a)[i] == x);
    }
    assert(s.push(a)[s.len() as int] == a);
}

pub(crate) proof fn lemma_take_contains<A>(s: Seq<A>, n: int, x: A)
    requires
        0 <= n < s.len(),
    ensures
        s.take(n + 1).contains(x) <==> s.take(n).contains(x) || x == s[n],
{
    assert(s.take(n + 1) =~= s.take(n).push(s[n]));
    lemma_push_contains(s.take(n), s[n], x);
}

/// Puts `statement` in directly after `location`, and returns where it stands.
pub(crate) fn insert_after(body: &mut Body, location: Location, statement: Statement) -> (res:
    MutantLocation)
    requires
        old(body)@.has_statement(location),
    ensures
        final(body)@ == old(body)@.insert_after(location, statement),
        res == inserted_location(location),
{
    let count: usize = body.basic_blocks[location.block].statements.len();
    assert(count == body@.blocks[location.block as int].statements.len());
    let ghost before = body.basic_blocks@;
    let ghost block = body@.blocks[location.block as int];
    assert(before[location.block as int]@ == block);
    body.basic_blocks[location.block].statements.insert(location.statement_index + 1, statement);
    assert(body.basic_blocks@ =~= before.update(
        location.block as int,
        body.basic_blocks@[location.block as int],
    ));
    assert(body.basic_blocks@[location.block as int]@ =~= BlockView {
        statements: block.statements.insert(location.statement_index + 1, statement),
        ..block
    });
    assert(body@.blocks =~= old(body)@.insert_after(location, statement).blocks);
    MutantLocation {
        basic_block: location.block,
        statement_index: location.statement_index + 1,
    }
}

/// The statement at `location`, if there is one.
pub(crate) fn get_statement(body: &Body, location: Location) -> (res: Option<Statement>)
    ensures
        res == (if body@.has_statement(location) {
            Some(body@.statement_at(location))
        } else {
            None
        }),
{
    if location.block < body.basic_blocks.len() {
        let bb = &body.basic_blocks[location.block];
        assert(bb@ == body@.blocks[location.block as int]);
        if location.statement_index < bb.statements.len() {
            return Some(bb.statements[location.statement_index]);
        }
    }
    None
}

/// The location of a statement put in directly after `location`.
pub open spec fn inserted_location(location: Location) -> MutantLocation {
    MutantLocation {
        basic_block: location.block,
        statement_index: (location.statement_index + 1) as usize,
    }
}

/// A mutant with one new statement, directly after `location`.
pub open spec fn insertion_mutant(
    body: BodyView,
    location: Location,
    inserted: Statement,
    info: MutantInfo,
) -> MutantView {
    MutantView {
        body: body.insert_after(location, inserted),
        range: MutantRange {
            start: inserted_location(location),
            end: inserted_location(location),
        },
        info,
    }
}

/// The mutant has one new statement, directly after `location`, where its range says, and is
/// otherwise `body`: without the new statement every block is as it was, and so are the
/// locals before the new ones.
pub open spec fn is_insertion(body: BodyView, location: Location, mutant: MutantView) -> bool {
    let at = mutant.range.start;
    let block = body.blocks[location.block as int];
    let mutant_block = mutant.body.blocks[location.block as int];
    &&& body.has_statement(location)
    &&& at.basic_block == location.block
    &&& at.statement_index == location.statement_index + 1
    &&& mutant.range.end == at
    &&& mutant_block.statements.len() == block.statements.len() + 1
    &&& mutant_block.statements.remove(at.statement_index as int) == block.statements
    &&& mutant_block.terminator == block.terminator
    &&& mutant.body.blocks.len() == body.blocks.len()
    &&& forall|b: int|
        0 <= b < body.blocks.len() && b != location.block ==> #[trigger] mutant.body.blocks[b]
            == body.blocks[b]
    &&& body.locals.len() <= mutant.body.locals.len()
    &&& mutant.body.locals.take(body.locals.len() as int) == body.locals
}

/// A mutant with one new statement has it where its range says, and is otherwise the body
/// that it was made from.
pub proof fn law_insertion_changes_nothing_else(
    body: BodyView,
    location: Location,
    inserted: Statement,
    info: MutantInfo,
)
    requires
        body.has_statement(location),
        location.statement_index < usize::MAX,
    ensures
        ({
            let mutant = insertion_mutant(body, location, inserted, info);
            let at = mutant.range.start;
            &&& is_insertion(body, location, mutant)
            &&& mutant.body.statement_at(
                Location { block: at.basic_block, statement_index: at.statement_index },
            ) == inserted
            &&& mutant.body.locals == body.locals
        }),
{
    let block = body.blocks[location.block as int];
    let at = location.statement_index + 1;
    assert(block.statements.insert(at, inserted).remove(at) =~= block.statements);
    assert(body.locals.take(body.locals.len() as int) =~= body.locals);
}

/// So does one that also has a fresh local.
pub(crate) proof fn lemma_insertion_with_fresh_local(
    body: BodyView,
    ty: Ty,
    location: Location,
    inserted: Statement,
    info: MutantInfo,
)
    requires
        body.has_statement(location),
        location.statement_index < usize::MAX,
    ensures
        is_insertion(
            body,
            location,
            insertion_mutant(with_fresh_local(body, ty), location, inserted, info),
        ),
{
    let extended = with_fresh_local(body, ty);
    law_insertion_changes_nothing_else(extended, location, inserted, info);
    assert(extended.locals.take(body.locals.len() as int) =~= body.locals);
}

/// A fresh local is not one of the body's, passes for a variable that the user named, and
/// leaves everything else as it was.
pub proof fn law_fresh_local_is_fresh(body: BodyView, ty: Ty)
    ensures
        with_fresh_local(body, ty).blocks == body.blocks,
        with_fresh_local(body, ty).locals.drop_last() == body.locals,
        with_fresh_local(body, ty).locals.last().ty == ty,
        with_fresh_local(body, ty).locals.last().spec_is_user_variable(),
{
    assert(with_fresh_local(body, ty).locals.drop_last() =~= body.locals);
}

} // verus!
