//! Mutants which move out of a place that is mutably borrowed.

use super::mutator_impl::{
    takes_first, Mutant, MutantInfo, MutantIterator, MutantRange, MutantStream, MutantView,
    Mutation,
};
use super::utils::{
    borrowed_places, decides, distinct_places, enumerates, fresh_local, get_statement,
    has_named_local, insert_after, insertion_mutant, is_insertion, is_lent, is_mut,
    lemma_insertion_with_fresh_local, lemma_push_contains, lemma_reverse_enumerates,
    lemma_take_contains, lends, mut_borrows, spec_borrowed_places, spec_has_named_local,
    with_fresh_local,
};
use crate::mir::{Body, BodyView, Location, Operand, Place, Rvalue, Statement, StatementKind};
use crate::pcg::{CompilerCtxt, PcgLocation};
use vstd::prelude::*;

verus! {

/// The mutant that moves `place` into a fresh local.
pub open spec fn move_mutant(
    ctx: CompilerCtxt,
    body: BodyView,
    location: Location,
    place: Place,
) -> MutantView {
    let inserted = Statement {
        source_info: body.statement_at(location).source_info,
        kind: StatementKind::Assign(
            Place::spec_from_local(body.locals.len() as usize),
            Rvalue::Use(Operand::Move(place)),
        ),
    };
    insertion_mutant(
        with_fresh_local(body, ctx.spec_ty(place)),
        location,
        inserted,
        MutantInfo::Lent { place, inserted },
    )
}

/// `move_mutant` as a function of the place.
pub open spec fn move_mutants(
    ctx: CompilerCtxt,
    body: BodyView,
    location: Location,
) -> spec_fn(Place) -> MutantView {
    |place: Place| move_mutant(ctx, body, location, place)
}

/// The places that are mutably borrowed after `curr` and still are once the operands of
/// `next` are evaluated, and that the user named.
pub open spec fn stays_mutably_borrowed(
    body: BodyView,
    curr: PcgLocation,
    next: PcgLocation,
) -> spec_fn(Place) -> bool {
    |place: Place|
        {
            &&& is_lent(curr.post_main.graph@, mut_borrows(), place)
            &&& is_lent(next.post_operands.graph@, mut_borrows(), place)
            &&& spec_has_named_local(place, body)
        }
}

struct Iter<'a> {
    borrowed: Vec<Place>,
    ctx: &'a CompilerCtxt,
    body: &'a Body,
    curr: Location,
}

impl<'a> Iter<'a> {
    fn maybe_next(&mut self) -> (res: Option<Mutant>)
        requires
            old(self).ready(),
            old(self).borrowed@.len() > 0,
        ensures
            final(self).ready(),
            final(self).borrowed@ == old(self).borrowed@.drop_last(),
            final(self).ctx == old(self).ctx,
            final(self).body == old(self).body,
            final(self).curr == old(self).curr,
            res is Some <==> old(self).body@.has_statement(old(self).curr),
            res is Some ==> takes_first(old(self).remaining(), res, final(self).remaining()),
    {
        let ghost before = *self;
        let place: Place = self.borrowed.pop().unwrap();
        proof {
            assert(before.borrowed@[before.borrowed@.len() - 1] == place);
            if self.body@.has_statement(self.curr) {
                assert(before.remaining()[0] == move_mutant(
                    *self.ctx,
                    self.body@,
                    self.curr,
                    place,
                ));
                assert(self.remaining() =~= before.remaining().drop_first());
            }
        }
        let mut mutant_body = self.body.clone();
        let lent_place_ty = self.ctx.ty(place).clone();
        let fresh_local: usize = fresh_local(&mut mutant_body, lent_place_ty);
        assert(mutant_body@.has_statement(self.curr) == self.body@.has_statement(self.curr));
        let statement = match get_statement(&mutant_body, self.curr) {
            Some(statement) => statement,
            None => {
                return None;
            },
        };

        // Statement that moves `place` into a `fresh_local`.
        let new_move = Statement {
            source_info: statement.source_info,
            kind: StatementKind::Assign(
                Place::from_local(fresh_local),
                Rvalue::Use(Operand::Move(place)),
            ),
        };
        // Insert `new_move` between `curr` and `next`.
        let borrow_loc = insert_after(&mut mutant_body, self.curr, new_move);
        Some(
            Mutant {
                body: mutant_body,
                range: MutantRange { start: borrow_loc, end: borrow_loc },
                info: MutantInfo::Lent { place, inserted: new_move },
            },
        )
    }
}

impl<'a> MutantIterator for Iter<'a> {
    closed spec fn ready(&self) -> bool {
        &&& self.borrowed@.len() > 0 ==> self.body@.locals.len() > 0
        &&& forall|i: int|
            0 <= i < self.borrowed@.len() ==> self.ctx.has_ty(#[trigger] self.borrowed@[i])
    }

    closed spec fn remaining(&self) -> Seq<MutantView> {
        if self.body@.has_statement(self.curr) {
            self.borrowed@.reverse().map_values(move_mutants(*self.ctx, self.body@, self.curr))
        } else {
            Seq::empty()
        }
    }

    fn next(&mut self) -> (res: Option<Mutant>) {
        while !self.borrowed.is_empty()
            invariant
                self.ready(),
                self.body == old(self).body,
                self.curr == old(self).curr,
                self.remaining() == old(self).remaining(),
            decreases self.borrowed@.len(),
        {
            if let Some(mutant) = self.maybe_next() {
                return Some(mutant);
            }
        }
        assert(self.remaining() =~= Seq::empty());
        None
    }
}

/// The places that are mutably borrowed after `curr` and still are once the operands of
/// `next` are evaluated, and that the user named.
fn find_borrowed(body: &Body, curr: &PcgLocation, next: &PcgLocation) -> (res: Vec<Place>)
    ensures
        enumerates(res@, stays_mutably_borrowed(body@, *curr, *next)),
{
    let lent_in_curr_pairs = borrowed_places(&curr.post_main.graph, is_mut);
    let lent_in_next = borrowed_places(&next.post_operands.graph, is_mut);
    assert(decides(is_mut, mut_borrows()));
    let lent_in_curr = distinct_places(&lent_in_curr_pairs);
    let ghost wanted = stays_mutably_borrowed(body@, *curr, *next);
    let mut borrowed: Vec<Place> = Vec::new();
    let mut i: usize = 0;
    while i < lent_in_curr.len()
        invariant
            wanted == stays_mutably_borrowed(body@, *curr, *next),
            lent_in_curr@.no_duplicates(),
            forall|place: Place| #[trigger]
                lent_in_curr@.contains(place) <==> is_lent(
                    curr.post_main.graph@,
                    mut_borrows(),
                    place,
                ),
            lent_in_next@ == spec_borrowed_places(next.post_operands.graph@, mut_borrows()),
            i <= lent_in_curr.len(),
            borrowed@.no_duplicates(),
            forall|place: Place| #[trigger]
                borrowed@.contains(place) <==> wanted(place) && lent_in_curr@.take(
                    i as int,
                ).contains(place),
        decreases lent_in_curr.len() - i,
    {
        let place: Place = lent_in_curr[i];
        let ghost before = borrowed@;
        assert(lent_in_curr@.contains(lent_in_curr@[i as int]));
        assert(!lent_in_curr@.take(i as int).contains(place));
        if lends(&lent_in_next, place) && has_named_local(place, body) {
            assert(!before.contains(place));
            borrowed.push(place);
        }
        proof {
            assert forall|p: Place| #[trigger] borrowed@.contains(p) <==> wanted(p)
                && lent_in_curr@.take(i + 1).contains(p) by {
                lemma_take_contains(lent_in_curr@, i as int, p);
                lemma_push_contains(before, place, p);
                assert(before.contains(p) <==> wanted(p) && lent_in_curr@.take(
                    i as int,
                ).contains(p));
            }
        }
        i = i + 1;
    }
    assert(lent_in_curr@.take(i as int) =~= lent_in_curr@);
    assert(enumerates(borrowed@, wanted));
    borrowed
}

/// `MoveFromBorrowed` creates mutants which move out of a place behind a mutable borrow.
pub struct MoveFromBorrowed;

impl Mutation for MoveFromBorrowed {
    open spec fn applicable(
        &self,
        ctx: CompilerCtxt,
        body: BodyView,
        curr: PcgLocation,
        next: PcgLocation,
    ) -> bool {
        forall|place: Place|
            stays_mutably_borrowed(body, curr, next)(place) ==> #[trigger] ctx.has_ty(place)
    }

    open spec fn produces(
        &self,
        ctx: CompilerCtxt,
        body: BodyView,
        curr: PcgLocation,
        next: PcgLocation,
        mutants: Seq<MutantView>,
    ) -> bool {
        exists|order: Seq<Place>|
            {
                &&& #[trigger] enumerates(order, stays_mutably_borrowed(body, curr, next))
                &&& mutants == if body.has_statement(curr.location) {
                    order.map_values(move_mutants(ctx, body, curr.location))
                } else {
                    Seq::empty()
                }
            }
    }

    open spec fn spec_name(&self) -> Seq<char> {
        "move-from-borrowed"@
    }

    fn make_stream<'a>(
        &self,
        ctx: &'a CompilerCtxt,
        body: &'a Body,
        curr: &'a PcgLocation,
        next: &'a PcgLocation,
    ) -> (res: MutantStream<'a>) {
        let ghost wanted = stays_mutably_borrowed(body@, *curr, *next);
        let borrowed = find_borrowed(body, curr, next);
        let iter = Iter { borrowed, ctx, body, curr: curr.location };
        proof {
            assert forall|j: int| 0 <= j < borrowed@.len() implies wanted(#[trigger] borrowed@[j]) by {
                assert(borrowed@.contains(borrowed@[j]));
            }
            if borrowed@.len() > 0 {
                assert(wanted(borrowed@[0]));
            }
            lemma_reverse_enumerates(borrowed@, wanted);
        }
        assert(iter.ready());
        assert(self.produces(*ctx, body@, *curr, *next, iter.remaining()));
        MutantStream::new(Box::new(iter))
    }

    fn is_applicable(
        &self,
        ctx: &CompilerCtxt,
        body: &Body,
        curr: &PcgLocation,
        next: &PcgLocation,
    ) -> (res: bool) {
        let borrowed = find_borrowed(body, curr, next);
        let mut i: usize = 0;
        while i < borrowed.len()
            invariant
                enumerates(borrowed@, stays_mutably_borrowed(body@, *curr, *next)),
                i <= borrowed.len(),
                forall|j: int| 0 <= j < i ==> ctx.has_ty(#[trigger] borrowed@[j]),
            decreases borrowed.len() - i,
        {
            let place: Place = borrowed[i];
            assert(borrowed@.contains(borrowed@[i as int]));
            if !ctx.knows_ty(place) {
                return false;
            }
            i = i + 1;
        }
        assert forall|place: Place|
            stays_mutably_borrowed(body@, *curr, *next)(place) implies #[trigger] ctx.has_ty(
            place,
        ) by {
            assert(borrowed@.contains(place));
        }
        true
    }

    fn name(&self) -> (res: String) {
        "move-from-borrowed".to_string()
    }
}

/// Each mutant of `MoveFromBorrowed` has one new statement and is otherwise the body that it
/// was made from.
pub proof fn law_move_from_borrowed_only_inserts(
    ctx: CompilerCtxt,
    body: BodyView,
    curr: PcgLocation,
    next: PcgLocation,
    mutants: Seq<MutantView>,
    mutant: MutantView,
)
    requires
        MoveFromBorrowed.produces(ctx, body, curr, next, mutants),
        mutants.contains(mutant),
        curr.location.statement_index < usize::MAX,
    ensures
        is_insertion(body, curr.location, mutant),
{
    let order = choose|order: Seq<Place>|
        {
            &&& #[trigger] enumerates(order, stays_mutably_borrowed(body, curr, next))
            &&& mutants == if body.has_statement(curr.location) {
                order.map_values(move_mutants(ctx, body, curr.location))
            } else {
                Seq::empty()
            }
        };
    let i = choose|i: int| 0 <= i < mutants.len() && mutants[i] == mutant;
    let place = order[i];
    assert(mutant == move_mutant(ctx, body, curr.location, place));
    lemma_insertion_with_fresh_local(
        body,
        ctx.spec_ty(place),
        curr.location,
        mutant.info->Lent_inserted,
        mutant.info,
    );
}

} // verus!
