//! Mutants which mutably borrow a place that is shared.

use super::mutator_impl::{
    takes_first, Mutant, MutantInfo, MutantIterator, MutantRange, MutantStream, MutantView,
    Mutation,
};
use super::utils::{
    borrowed_places, decides, fresh_local, get_statement, has_named_local, insert_after,
    insertion_mutant, is_insertion, is_lent, is_shared, lemma_insertion_with_fresh_local, lends,
    shared_borrows, spec_borrowed_places, spec_has_named_local, with_fresh_local,
};
use crate::mir::{
    Body, BodyView, BorrowKind, Location, MutBorrowKind, Place, Region, Rvalue, Statement,
    StatementKind, Ty,
};
use crate::pcg::{CompilerCtxt, PcgLocation};
use vstd::prelude::*;

verus! {

/// The mutant that mutably borrows `lent.0`, for the lifetime `lent.1`, into a fresh local.
pub open spec fn lend_mutant(
    ctx: CompilerCtxt,
    body: BodyView,
    location: Location,
    lent: (Place, Region),
) -> MutantView {
    let inserted = Statement {
        source_info: body.statement_at(location).source_info,
        kind: StatementKind::Assign(
            Place::spec_from_local(body.locals.len() as usize),
            Rvalue::Ref(lent.1, BorrowKind::Mut { kind: MutBorrowKind::Default }, lent.0),
        ),
    };
    insertion_mutant(
        with_fresh_local(body, Ty::spec_new_mut_ref(lent.1, ctx.spec_ty(lent.0))),
        location,
        inserted,
        MutantInfo::Shared { place: lent.0, inserted },
    )
}

/// `lend_mutant` as a function of the place and lifetime.
pub open spec fn lend_mutants(
    ctx: CompilerCtxt,
    body: BodyView,
    location: Location,
) -> spec_fn((Place, Region)) -> MutantView {
    |lent: (Place, Region)| lend_mutant(ctx, body, location, lent)
}

/// The place is still shared once the operands of `next` are evaluated, and the user
/// named it.
pub open spec fn stays_shared(body: BodyView, next: PcgLocation) -> spec_fn(
    (Place, Region),
) -> bool {
    |lent: (Place, Region)|
        {
            &&& is_lent(next.post_operands.graph@, shared_borrows(), lent.0)
            &&& spec_has_named_local(lent.0, body)
        }
}

/// The shared borrows after `curr` whose places stay shared, borrow by borrow.
pub open spec fn immutably_lent_places(
    body: BodyView,
    curr: PcgLocation,
    next: PcgLocation,
) -> Seq<(Place, Region)> {
    spec_borrowed_places(curr.post_main.graph@, shared_borrows()).filter(
        stays_shared(body, next),
    )
}

struct Iter<'a> {
    immutably_lent: Vec<(Place, Region)>,
    ctx: &'a CompilerCtxt,
    body: &'a Body,
    curr: Location,
}

impl<'a> Iter<'a> {
    fn maybe_next(&mut self) -> (res: Option<Mutant>)
        requires
            old(self).ready(),
            old(self).immutably_lent@.len() > 0,
        ensures
            final(self).ready(),
            final(self).immutably_lent@ == old(self).immutably_lent@.drop_last(),
            final(self).ctx == old(self).ctx,
            final(self).body == old(self).body,
            final(self).curr == old(self).curr,
            res is Some <==> old(self).body@.has_statement(old(self).curr),
            res is Some ==> takes_first(old(self).remaining(), res, final(self).remaining()),
    {
        let ghost before = *self;
        let lent: (Place, Region) = self.immutably_lent.pop().unwrap();
        let (place, region) = lent;
        proof {
            assert(before.immutably_lent@[before.immutably_lent@.len() - 1] == lent);
            if self.body@.has_statement(self.curr) {
                assert(before.remaining()[0] == lend_mutant(
                    *self.ctx,
                    self.body@,
                    self.curr,
                    lent,
                ));
                assert(self.remaining() =~= before.remaining().drop_first());
            }
        }
        let mut mutant_body = self.body.clone();
        let borrow_ty = Ty::new_mut_ref(region, self.ctx.ty(place).clone());
        let fresh_local: usize = fresh_local(&mut mutant_body, borrow_ty);
        assert(mutant_body@.has_statement(self.curr) == self.body@.has_statement(self.curr));
        let statement = match get_statement(&mutant_body, self.curr) {
            Some(statement) => statement,
            None => {
                return None;
            },
        };

        let default_mut_borrow = BorrowKind::Mut { kind: MutBorrowKind::Default };
        // Statement which mutably borrows `place` into a `fresh_local`.
        let new_borrow = Statement {
            source_info: statement.source_info,
            kind: StatementKind::Assign(
                Place::from_local(fresh_local),
                Rvalue::Ref(region, default_mut_borrow, place),
            ),
        };
        // Insert `new_borrow` between `curr` and `next`.
        let borrow_loc = insert_after(&mut mutant_body, self.curr, new_borrow);
        Some(
            Mutant {
                body: mutant_body,
                range: MutantRange { start: borrow_loc, end: borrow_loc },
                info: MutantInfo::Shared { place, inserted: new_borrow },
            },
        )
    }
}

impl<'a> MutantIterator for Iter<'a> {
    closed spec fn ready(&self) -> bool {
        &&& self.immutably_lent@.len() > 0 ==> self.body@.locals.len() > 0
        &&& forall|i: int|
            0 <= i < self.immutably_lent@.len() ==> self.ctx.has_ty(
                (#[trigger] self.immutably_lent@[i]).0,
            )
    }

    closed spec fn remaining(&self) -> Seq<MutantView> {
        if self.body@.has_statement(self.curr) {
            self.immutably_lent@.reverse().map_values(lend_mutants(*self.ctx, self.body@, self.curr))
        } else {
            Seq::empty()
        }
    }

    fn next(&mut self) -> (res: Option<Mutant>) {
        while !self.immutably_lent.is_empty()
            invariant
                self.ready(),
                self.body == old(self).body,
                self.curr == old(self).curr,
                self.remaining() == old(self).remaining(),
            decreases self.immutably_lent@.len(),
        {
            if let Some(mutant) = self.maybe_next() {
                return Some(mutant);
            }
        }
        assert(self.remaining() =~= Seq::empty());
        None
    }
}

/// The shared borrows after `curr` whose places stay shared, borrow by borrow.
fn find_immutably_lent(body: &Body, curr: &PcgLocation, next: &PcgLocation) -> (res: Vec<
    (Place, Region),
>)
    ensures
        res@ == immutably_lent_places(body@, *curr, *next),
{
    let immutably_lent_in_curr = borrowed_places(&curr.post_main.graph, is_shared);
    let immutably_lent_in_next = borrowed_places(&next.post_operands.graph, is_shared);
    assert(decides(is_shared, shared_borrows()));
    let ghost wanted = stays_shared(body@, *next);
    let mut immutably_lent: Vec<(Place, Region)> = Vec::new();
    let mut i: usize = 0;
    proof {
        reveal(Seq::filter);
    }
    while i < immutably_lent_in_curr.len()
        invariant
            wanted == stays_shared(body@, *next),
            immutably_lent_in_next@ == spec_borrowed_places(
                next.post_operands.graph@,
                shared_borrows(),
            ),
            i <= immutably_lent_in_curr.len(),
            immutably_lent@ == immutably_lent_in_curr@.take(i as int).filter(wanted),
        decreases immutably_lent_in_curr.len() - i,
    {
        let lent: (Place, Region) = immutably_lent_in_curr[i];
        proof {
            reveal(Seq::filter);
            assert(immutably_lent_in_curr@.take(i + 1).drop_last()
                =~= immutably_lent_in_curr@.take(i as int));
        }
        if lends(&immutably_lent_in_next, lent.0) && has_named_local(lent.0, body) {
            immutably_lent.push(lent);
        }
        i = i + 1;
    }
    assert(immutably_lent_in_curr@.take(i as int) =~= immutably_lent_in_curr@);
    immutably_lent
}

/// `MutablyLendShared` creates mutants which mutably borrow a place behind a shared borrow.
pub struct MutablyLendShared;

impl Mutation for MutablyLendShared {
    open spec fn applicable(
        &self,
        ctx: CompilerCtxt,
        body: BodyView,
        curr: PcgLocation,
        next: PcgLocation,
    ) -> bool {
        forall|lent: (Place, Region)| #[trigger]
            immutably_lent_places(body, curr, next).contains(lent) ==> ctx.has_ty(lent.0)
    }

    open spec fn produces(
        &self,
        ctx: CompilerCtxt,
        body: BodyView,
        curr: PcgLocation,
        next: PcgLocation,
        mutants: Seq<MutantView>,
    ) -> bool {
        mutants == if body.has_statement(curr.location) {
            immutably_lent_places(body, curr, next).reverse().map_values(
                lend_mutants(ctx, body, curr.location),
            )
        } else {
            Seq::empty()
        }
    }

    open spec fn spec_name(&self) -> Seq<char> {
        "mutably-lend-shared"@
    }

    fn make_stream<'a>(
        &self,
        ctx: &'a CompilerCtxt,
        body: &'a Body,
        curr: &'a PcgLocation,
        next: &'a PcgLocation,
    ) -> (res: MutantStream<'a>) {
        let ghost all = spec_borrowed_places(curr.post_main.graph@, shared_borrows());
        let ghost wanted = stays_shared(body@, *next);
        let immutably_lent = find_immutably_lent(body, curr, next);
        let iter = Iter { immutably_lent, ctx, body, curr: curr.location };
        proof {
            assert forall|j: int| 0 <= j < immutably_lent@.len() implies wanted(
                #[trigger] immutably_lent@[j],
            ) && immutably_lent_places(body@, *curr, *next).contains(immutably_lent@[j]) by {
                all.lemma_filter_pred(wanted, j);
            }
            if immutably_lent@.len() > 0 {
                assert(wanted(immutably_lent@[0]));
            }
        }
        assert(iter.ready());
        assert(self.produces(*ctx, body@, *curr, *next, iter.remaining()));
        MutantStream::new(Box::new(iter))
    }

    fn is_applicable(
        &self,
        ctx: &CompilerCtxt,
        body: &Body,
        curr: &PcgLocation,
        next: &PcgLocation,
    ) -> (res: bool) {
        let immutably_lent = find_immutably_lent(body, curr, next);
        let mut i: usize = 0;
        while i < immutably_lent.len()
            invariant
                immutably_lent@ == immutably_lent_places(body@, *curr, *next),
                i <= immutably_lent.len(),
                forall|j: int| 0 <= j < i ==> ctx.has_ty((#[trigger] immutably_lent@[j]).0),
            decreases immutably_lent.len() - i,
        {
            let lent: (Place, Region) = immutably_lent[i];
            assert(immutably_lent@.contains(immutably_lent@[i as int]));
            if !ctx.knows_ty(lent.0) {
                return false;
            }
            i = i + 1;
        }
        true
    }

    fn name(&self) -> (res: String) {
        "mutably-lend-shared".to_string()
    }
}

/// Each mutant of `MutablyLendShared` has one new statement and is otherwise the body that it
/// was made from.
pub proof fn law_mutably_lend_shared_only_inserts(
    ctx: CompilerCtxt,
    body: BodyView,
    curr: PcgLocation,
    next: PcgLocation,
    mutants: Seq<MutantView>,
    mutant: MutantView,
)
    requires
        MutablyLendShared.produces(ctx, body, curr, next, mutants),
        mutants.contains(mutant),
        curr.location.statement_index < usize::MAX,
    ensures
        is_insertion(body, curr.location, mutant),
{
    let order = immutably_lent_places(body, curr, next).reverse();
    let i = choose|i: int| 0 <= i < mutants.len() && mutants[i] == mutant;
    let lent = order[i];
    assert(mutant == lend_mutant(ctx, body, curr.location, lent));
    lemma_insertion_with_fresh_local(
        body,
        Ty::spec_new_mut_ref(lent.1, ctx.spec_ty(lent.0)),
        curr.location,
        mutant.info->Shared_inserted,
        mutant.info,
    );
}

} // verus!
