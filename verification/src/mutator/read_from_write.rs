//! Mutants which read from a place that may only be written to.

use super::mutator_impl::{
    takes_first, Mutant, MutantInfo, MutantIterator, MutantRange, MutantStream, MutantView,
    Mutation,
};
use super::utils::{
    contains_place, fresh_local, get_statement, has_named_local, insert_after, insertion_mutant,
    is_insertion, lemma_insertion_with_fresh_local, spec_has_named_local, with_fresh_local,
};
use crate::mir::{Body, BodyView, Location, Operand, Place, Rvalue, Statement, StatementKind};
use crate::pcg::{CapabilityKind, CompilerCtxt, PcgLocation};
use vstd::prelude::*;

verus! {

/// The mutant that reads `place` into a fresh local.
pub open spec fn read_mutant(
    ctx: CompilerCtxt,
    body: BodyView,
    location: Location,
    place: Place,
) -> MutantView {
    let inserted = Statement {
        source_info: body.statement_at(location).source_info,
        kind: StatementKind::Assign(
            Place::spec_from_local(body.locals.len() as usize),
            Rvalue::Use(Operand::Copy(place)),
        ),
    };
    insertion_mutant(
        with_fresh_local(body, ctx.spec_ty(place)),
        location,
        inserted,
        MutantInfo::WriteOnly { place, inserted },
    )
}

/// `read_mutant` as a function of the place.
pub open spec fn read_mutants(
    ctx: CompilerCtxt,
    body: BodyView,
    location: Location,
) -> spec_fn(Place) -> MutantView {
    |place: Place| read_mutant(ctx, body, location, place)
}

/// The place is still write-only once the operands of `next` are evaluated, and the user
/// named it.
pub open spec fn stays_write_only(body: BodyView, next: PcgLocation) -> spec_fn(Place) -> bool {
    |place: Place|
        {
            &&& next.post_operands.spec_places_with_capability(CapabilityKind::Write).contains(
                place,
            )
            &&& spec_has_named_local(place, body)
        }
}

/// The places that are write-only after `curr` and stay so, in the order in which the
/// analysis lists them.
pub open spec fn write_only_places(
    body: BodyView,
    curr: PcgLocation,
    next: PcgLocation,
) -> Seq<Place> {
    curr.post_main.spec_places_with_capability(CapabilityKind::Write).filter(
        stays_write_only(body, next),
    )
}

struct Iter<'a> {
    write_only: Vec<Place>,
    ctx: &'a CompilerCtxt,
    body: &'a Body,
    curr: Location,
}

impl<'a> Iter<'a> {
    fn maybe_next(&mut self) -> (res: Option<Mutant>)
        requires
            old(self).ready(),
            old(self).write_only@.len() > 0,
        ensures
            final(self).ready(),
            final(self).write_only@ == old(self).write_only@.drop_last(),
            final(self).ctx == old(self).ctx,
            final(self).body == old(self).body,
            final(self).curr == old(self).curr,
            res is Some <==> old(self).body@.has_statement(old(self).curr),
            res is Some ==> takes_first(old(self).remaining(), res, final(self).remaining()),
    {
        let ghost before = *self;
        let place: Place = self.write_only.pop().unwrap();
        proof {
            assert(before.write_only@[before.write_only@.len() - 1] == place);
            if self.body@.has_statement(self.curr) {
                assert(before.remaining()[0] == read_mutant(
                    *self.ctx,
                    self.body@,
                    self.curr,
                    place,
                ));
                assert(self.remaining() =~= before.remaining().drop_first());
            }
        }
        let mut mutant_body = self.body.clone();
        let place_ty = self.ctx.ty(place).clone();
        let fresh_local: usize = fresh_local(&mut mutant_body, place_ty);
        assert(mutant_body@.has_statement(self.curr) == self.body@.has_statement(self.curr));
        let statement = match get_statement(&mutant_body, self.curr) {
            Some(statement) => statement,
            None => {
                return None;
            },
        };

        // Statement that reads `place` into a `fresh_local`.
        let new_read = Statement {
            source_info: statement.source_info,
            kind: StatementKind::Assign(
                Place::from_local(fresh_local),
                Rvalue::Use(Operand::Copy(place)),
            ),
        };
        // Insert `new_read` between `curr` and `next`.
        let read_loc = insert_after(&mut mutant_body, self.curr, new_read);
        Some(
            Mutant {
                body: mutant_body,
                range: MutantRange { start: read_loc, end: read_loc },
                info: MutantInfo::WriteOnly { place, inserted: new_read },
            },
        )
    }
}

impl<'a> MutantIterator for Iter<'a> {
    closed spec fn ready(&self) -> bool {
        &&& self.write_only@.len() > 0 ==> self.body@.locals.len() > 0
        &&& forall|i: int|
            0 <= i < self.write_only@.len() ==> self.ctx.has_ty(#[trigger] self.write_only@[i])
    }

    closed spec fn remaining(&self) -> Seq<MutantView> {
        if self.body@.has_statement(self.curr) {
            self.write_only@.reverse().map_values(read_mutants(*self.ctx, self.body@, self.curr))
        } else {
            Seq::empty()
        }
    }

    fn next(&mut self) -> (res: Option<Mutant>) {
        while !self.write_only.is_empty()
            invariant
                self.ready(),
                self.body == old(self).body,
                self.curr == old(self).curr,
                self.remaining() == old(self).remaining(),
            decreases self.write_only@.len(),
        {
            if let Some(mutant) = self.maybe_next() {
                return Some(mutant);
            }
        }
        assert(self.remaining() =~= Seq::empty());
        None
    }
}

/// The places that are write-only after `curr` and stay so, in the order in which the
/// analysis lists them.
fn find_write_only(body: &Body, curr: &PcgLocation, next: &PcgLocation) -> (res: Vec<Place>)
    ensures
        res@ == write_only_places(body@, *curr, *next),
{
    // We consider only places that are W once `curr` has taken effect and once the
    // operands of `next` are evaluated, because a borrow could expire in between,
    // which restores E capability.
    let write_only_in_curr = curr.post_main.places_with_capability(CapabilityKind::Write);
    let write_only_in_next = next.post_operands.places_with_capability(CapabilityKind::Write);
    let ghost wanted = stays_write_only(body@, *next);
    let mut write_only: Vec<Place> = Vec::new();
    let mut i: usize = 0;
    proof {
        reveal(Seq::filter);
    }
    while i < write_only_in_curr.len()
        invariant
            wanted == stays_write_only(body@, *next),
            write_only_in_next@ == next.post_operands.spec_places_with_capability(
                CapabilityKind::Write,
            ),
            i <= write_only_in_curr.len(),
            write_only@ == write_only_in_curr@.take(i as int).filter(wanted),
        decreases write_only_in_curr.len() - i,
    {
        let place: Place = write_only_in_curr[i];
        proof {
            reveal(Seq::filter);
            assert(write_only_in_curr@.take(i + 1).drop_last() =~= write_only_in_curr@.take(
                i as int,
            ));
        }
        if contains_place(&write_only_in_next, place) && has_named_local(place, body) {
            write_only.push(place);
        }
        i = i + 1;
    }
    assert(write_only_in_curr@.take(i as int) =~= write_only_in_curr@);
    write_only
}

/// `ReadFromWriteOnly` creates mutants which read from places with W capability.
pub struct ReadFromWriteOnly;

impl Mutation for ReadFromWriteOnly {
    open spec fn applicable(
        &self,
        ctx: CompilerCtxt,
        body: BodyView,
        curr: PcgLocation,
        next: PcgLocation,
    ) -> bool {
        forall|place: Place|
            write_only_places(body, curr, next).contains(place) ==> #[trigger] ctx.has_ty(place)
    }

    open spec fn produces(
        &self,
        ctx: CompilerCtxt,
        body: BodyView,
        curr: PcgLocation,
        next: PcgLocation,
        mutants: Seq<MutantView>,
    ) -> bool {
        mutants == if body.has_statement(curr.location) {
            write_only_places(body, curr, next).reverse().map_values(
                read_mutants(ctx, body, curr.location),
            )
        } else {
            Seq::empty()
        }
    }

    open spec fn spec_name(&self) -> Seq<char> {
        "read-from-write-only"@
    }

    fn make_stream<'a>(
        &self,
        ctx: &'a CompilerCtxt,
        body: &'a Body,
        curr: &'a PcgLocation,
        next: &'a PcgLocation,
    ) -> (res: MutantStream<'a>) {
        let ghost all = curr.post_main.spec_places_with_capability(CapabilityKind::Write);
        let ghost wanted = stays_write_only(body@, *next);
        let write_only = find_write_only(body, curr, next);
        let iter = Iter { write_only, ctx, body, curr: curr.location };
        proof {
            assert forall|j: int| 0 <= j < write_only@.len() implies wanted(
                #[trigger] write_only@[j],
            ) && write_only_places(body@, *curr, *next).contains(write_only@[j]) by {
                all.lemma_filter_pred(wanted, j);
            }
            if write_only@.len() > 0 {
                assert(wanted(write_only@[0]));
            }
        }
        assert(iter.ready());
        assert(self.produces(*ctx, body@, *curr, *next, iter.remaining()));
        MutantStream::new(Box::new(iter))
    }

    fn is_applicable(
        &self,
        ctx: &CompilerCtxt,
        body: &Body,
        curr: &PcgLocation,
        next: &PcgLocation,
    ) -> (res: bool) {
        let write_only = find_write_only(body, curr, next);
        let mut i: usize = 0;
        while i < write_only.len()
            invariant
                write_only@ == write_only_places(body@, *curr, *next),
                i <= write_only.len(),
                forall|j: int| 0 <= j < i ==> ctx.has_ty(#[trigger] write_only@[j]),
            decreases write_only.len() - i,
        {
            let place: Place = write_only[i];
            assert(write_only@.contains(write_only@[i as int]));
            if !ctx.knows_ty(place) {
                return false;
            }
            i = i + 1;
        }
        true
    }

    fn name(&self) -> (res: String) {
        "read-from-write-only".to_string()
    }
}

/// Each mutant of `ReadFromWriteOnly` has one new statement and is otherwise the body that it
/// was made from.
pub proof fn law_read_from_write_only_inserts(
    ctx: CompilerCtxt,
    body: BodyView,
    curr: PcgLocation,
    next: PcgLocation,
    mutants: Seq<MutantView>,
    mutant: MutantView,
)
    requires
        ReadFromWriteOnly.produces(ctx, body, curr, next, mutants),
        mutants.contains(mutant),
        curr.location.statement_index < usize::MAX,
    ensures
        is_insertion(body, curr.location, mutant),
{
    let order = write_only_places(body, curr, next).reverse();
    let i = choose|i: int| 0 <= i < mutants.len() && mutants[i] == mutant;
    let place = order[i];
    assert(mutant == read_mutant(ctx, body, curr.location, place));
    lemma_insertion_with_fresh_local(
        body,
        ctx.spec_ty(place),
        curr.location,
        mutant.info->WriteOnly_inserted,
        mutant.info,
    );
}

} // verus!
