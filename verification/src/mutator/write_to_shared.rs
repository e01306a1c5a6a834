//! Mutants which write to a place that is shared.

use super::mutator_impl::{
    takes_first, Mutant, MutantInfo, MutantIterator, MutantRange, MutantStream, MutantView,
    Mutation,
};
use super::utils::{
    bogus_source_info, borrowed_places, decides, get_statement, has_named_local, insert_after,
    insertion_mutant, is_insertion, is_lent, is_shared, law_insertion_changes_nothing_else, lends,
    shared_borrows, spec_borrowed_places, spec_has_named_local,
};
use crate::mir::{Body, BodyView, Location, Place, Region, Rvalue, Statement, StatementKind};
use crate::pcg::{CompilerCtxt, PcgLocation};
use vstd::prelude::*;

verus! {

/// The mutant that writes to `place`.
pub open spec fn write_mutant(body: BodyView, location: Location, place: Place) -> MutantView {
    let inserted = Statement {
        source_info: body.locals[0].source_info,
        kind: StatementKind::Assign(place, Rvalue::Len(place)),
    };
    insertion_mutant(body, location, inserted, MutantInfo::Shared { place, inserted })
}

/// `write_mutant` as a function of the place.
pub open spec fn write_mutants(body: BodyView, location: Location) -> spec_fn(Place) -> MutantView {
    |place: Place| write_mutant(body, location, place)
}

/// Selects the places that were shared after `curr` already and that the user named.
pub open spec fn was_shared(body: BodyView, curr: PcgLocation) -> spec_fn((Place, Region)) -> Option<
    Place,
> {
    |lent: (Place, Region)|
        if is_lent(curr.post_main.graph@, shared_borrows(), lent.0) && spec_has_named_local(
            lent.0,
            body,
        ) {
            Some(lent.0)
        } else {
            None
        }
}

/// The places that are shared once the operands of `next` are evaluated and were so after
/// `curr`, borrow by borrow.
pub open spec fn shared_places(body: BodyView, curr: PcgLocation, next: PcgLocation) -> Seq<Place> {
    spec_borrowed_places(next.post_operands.graph@, shared_borrows()).filter_map(
        was_shared(body, curr),
    )
}

proof fn lemma_shared_places_named(lent: Seq<(Place, Region)>, body: BodyView, curr: PcgLocation)
    ensures
        lent.filter_map(was_shared(body, curr)).len() > 0 ==> body.locals.len() > 0,
    decreases lent.len(),
{
    if lent.len() > 0 {
        lemma_shared_places_named(lent.drop_last(), body, curr);
    }
}

/// If `location` is in one of the body's blocks, it is that of a statement.
pub open spec fn not_at_terminator(body: BodyView, location: Location) -> bool {
    location.block < body.blocks.len() ==> body.has_statement(location)
}

struct Iter<'a> {
    shared: Vec<Place>,
    body: &'a Body,
    curr: Location,
}

impl<'a> Iter<'a> {
    fn maybe_next(&mut self) -> (res: Option<Mutant>)
        requires
            old(self).ready(),
            old(self).shared@.len() > 0,
        ensures
            final(self).ready(),
            final(self).shared@ == old(self).shared@.drop_last(),
            final(self).body == old(self).body,
            final(self).curr == old(self).curr,
            res is Some <==> old(self).body@.has_statement(old(self).curr),
            res is Some ==> takes_first(old(self).remaining(), res, final(self).remaining()),
    {
        let ghost before = *self;
        let shared_place: Place = self.shared.pop().unwrap();
        proof {
            assert(before.shared@[before.shared@.len() - 1] == shared_place);
            if self.body@.has_statement(self.curr) {
                assert(before.remaining()[0] == write_mutant(
                    self.body@,
                    self.curr,
                    shared_place,
                ));
                assert(self.remaining() =~= before.remaining().drop_first());
            }
        }
        let mut mutant_body = self.body.clone();

        // Statement which writes to `shared_place`.
        let new_assign = Statement {
            source_info: bogus_source_info(&mutant_body),
            kind: StatementKind::Assign(shared_place, Rvalue::Len(shared_place)),
        };
        assert(mutant_body@.blocks.len() == mutant_body.basic_blocks@.len());
        if self.curr.block >= mutant_body.basic_blocks.len() {
            return None;
        }
        // Insert `new_assign` between `curr` and `next`.
        let borrow_loc = insert_after(&mut mutant_body, self.curr, new_assign);
        Some(
            Mutant {
                body: mutant_body,
                range: MutantRange { start: borrow_loc, end: borrow_loc },
                info: MutantInfo::Shared { place: shared_place, inserted: new_assign },
            },
        )
    }
}

impl<'a> MutantIterator for Iter<'a> {
    closed spec fn ready(&self) -> bool {
        self.shared@.len() > 0 ==> self.body@.locals.len() > 0 && not_at_terminator(
            self.body@,
            self.curr,
        )
    }

    closed spec fn remaining(&self) -> Seq<MutantView> {
        if self.body@.has_statement(self.curr) {
            self.shared@.reverse().map_values(write_mutants(self.body@, self.curr))
        } else {
            Seq::empty()
        }
    }

    fn next(&mut self) -> (res: Option<Mutant>) {
        while !self.shared.is_empty()
            invariant
                self.ready(),
                self.body == old(self).body,
                self.curr == old(self).curr,
                self.remaining() == old(self).remaining(),
            decreases self.shared@.len(),
        {
            if let Some(mutant) = self.maybe_next() {
                return Some(mutant);
            }
        }
        assert(self.remaining() =~= Seq::empty());
        None
    }
}

/// The places that are shared once the operands of `next` are evaluated and were so after
/// `curr`, borrow by borrow.
fn find_shared(body: &Body, curr: &PcgLocation, next: &PcgLocation) -> (res: Vec<Place>)
    ensures
        res@ == shared_places(body@, *curr, *next),
{
    let shared_in_curr = borrowed_places(&curr.post_main.graph, is_shared);
    let shared_in_next = borrowed_places(&next.post_operands.graph, is_shared);
    assert(decides(is_shared, shared_borrows()));
    let mut shared: Vec<Place> = Vec::new();
    let mut i: usize = 0;
    while i < shared_in_next.len()
        invariant
            shared_in_curr@ == spec_borrowed_places(curr.post_main.graph@, shared_borrows()),
            i <= shared_in_next.len(),
            shared@ == shared_in_next@.take(i as int).filter_map(was_shared(body@, *curr)),
        decreases shared_in_next.len() - i,
    {
        let place: Place = shared_in_next[i].0;
        assert(shared_in_next@.take(i + 1).drop_last() =~= shared_in_next@.take(i as int));
        if lends(&shared_in_curr, place) && has_named_local(place, body) {
            shared.push(place);
        }
        i = i + 1;
    }
    assert(shared_in_next@.take(i as int) =~= shared_in_next@);
    shared
}

/// `WriteToShared` creates mutants which write to shared borrows.
pub struct WriteToShared;

impl Mutation for WriteToShared {
    open spec fn applicable(
        &self,
        ctx: CompilerCtxt,
        body: BodyView,
        curr: PcgLocation,
        next: PcgLocation,
    ) -> bool {
        shared_places(body, curr, next).len() > 0 ==> not_at_terminator(body, curr.location)
    }

    open spec fn produces(
        &self,
        ctx: CompilerCtxt,
        body: BodyView,
        curr: PcgLocation,
        next: PcgLocation,
        mutants: Seq<MutantView>,
    ) -> bool {
        mutants == if body.has_statement(curr.location) {
            shared_places(body, curr, next).reverse().map_values(
                write_mutants(body, curr.location),
            )
        } else {
            Seq::empty()
        }
    }

    open spec fn spec_name(&self) -> Seq<char> {
        "write-to-shared"@
    }

    fn make_stream<'a>(
        &self,
        ctx: &'a CompilerCtxt,
        body: &'a Body,
        curr: &'a PcgLocation,
        next: &'a PcgLocation,
    ) -> (res: MutantStream<'a>) {
        let shared = find_shared(body, curr, next);
        proof {
            lemma_shared_places_named(
                spec_borrowed_places(next.post_operands.graph@, shared_borrows()),
                body@,
                *curr,
            );
        }
        let iter = Iter { shared, body, curr: curr.location };
        assert(iter.ready());
        assert(self.produces(*ctx, body@, *curr, *next, iter.remaining()));
        MutantStream::new(Box::new(iter))
    }

    fn is_applicable(
        &self,
        ctx: &CompilerCtxt,
        body: &Body,
        curr: &PcgLocation,
        next: &PcgLocation,
    ) -> (res: bool) {
        let shared = find_shared(body, curr, next);
        let location: Location = curr.location;
        shared.is_empty() || location.block >= body.basic_blocks.len() || get_statement(
            body,
            location,
        ).is_some()
    }

    fn name(&self) -> (res: String) {
        "write-to-shared".to_string()
    }
}

/// Each mutant of `WriteToShared` has one new statement and is otherwise the body that it was
/// made from.
pub proof fn law_write_to_shared_only_inserts(
    ctx: CompilerCtxt,
    body: BodyView,
    curr: PcgLocation,
    next: PcgLocation,
    mutants: Seq<MutantView>,
    mutant: MutantView,
)
    requires
        WriteToShared.produces(ctx, body, curr, next, mutants),
        mutants.contains(mutant),
        curr.location.statement_index < usize::MAX,
    ensures
        is_insertion(body, curr.location, mutant),
{
    let order = shared_places(body, curr, next).reverse();
    let i = choose|i: int| 0 <= i < mutants.len() && mutants[i] == mutant;
    let place = order[i];
    assert(mutant == write_mutant(body, curr.location, place));
    law_insertion_changes_nothing_else(
        body,
        curr.location,
        mutant.info->Shared_inserted,
        mutant.info,
    );
}

} // verus!
