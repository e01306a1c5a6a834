//! The list of the mutations.

use super::expiry_order::{AbstractExpiryOrder, BorrowExpiryOrder};
use super::move_from_borrowed::MoveFromBorrowed;
use super::mutably_lend_shared::MutablyLendShared;
use super::mutator_impl::{MutantView, Mutation};
use super::read_from_write::ReadFromWriteOnly;
use super::write_to_shared::WriteToShared;
use crate::mir::BodyView;
use crate::pcg::{CompilerCtxt, PcgLocation};
use vstd::prelude::*;

verus! {

/// `mutation` is the same as `other`, whatever their types.
pub open spec fn same_mutation<M: Mutation>(mutation: &Box<dyn Mutation>, other: M) -> bool {
    &&& mutation.spec_name() == other.spec_name()
    &&& forall|ctx: CompilerCtxt, body: BodyView, curr: PcgLocation, next: PcgLocation|
        #[trigger] mutation.applicable(ctx, body, curr, next) == other.applicable(
            ctx,
            body,
            curr,
            next,
        )
    &&& forall|
        ctx: CompilerCtxt,
        body: BodyView,
        curr: PcgLocation,
        next: PcgLocation,
        mutants: Seq<MutantView>,
    |
        #[trigger] mutation.produces(ctx, body, curr, next, mutants) == other.produces(
            ctx,
            body,
            curr,
            next,
            mutants,
        )
}

/// The mutations of this library.
pub open spec fn are_all_mutations(mutations: Seq<Box<dyn Mutation>>) -> bool {
    &&& mutations.len() == 6
    &&& same_mutation(&mutations[0], BorrowExpiryOrder)
    &&& same_mutation(&mutations[1], AbstractExpiryOrder)
    &&& same_mutation(&mutations[2], MutablyLendShared)
    &&& same_mutation(&mutations[3], ReadFromWriteOnly)
    &&& same_mutation(&mutations[4], WriteToShared)
    &&& same_mutation(&mutations[5], MoveFromBorrowed)
}

/// The mutations of this library, in the order in which they are tried.
pub fn all_mutations() -> (res: Vec<Box<dyn Mutation>>)
    ensures
        are_all_mutations(res@),
{
    let res: Vec<Box<dyn Mutation>> = vec![
        Box::new(BorrowExpiryOrder),
        Box::new(AbstractExpiryOrder),
        Box::new(MutablyLendShared),
        Box::new(ReadFromWriteOnly),
        Box::new(WriteToShared),
        Box::new(MoveFromBorrowed),
    ];
    assert(res@.len() == 6);
    assert(same_mutation(&res@[0], BorrowExpiryOrder));
    assert(same_mutation(&res@[1], AbstractExpiryOrder));
    assert(same_mutation(&res@[2], MutablyLendShared));
    assert(same_mutation(&res@[3], ReadFromWriteOnly));
    assert(same_mutation(&res@[4], WriteToShared));
    assert(same_mutation(&res@[5], MoveFromBorrowed));
    res
}

} // verus!
