//! What the place capability analysis says of a function: for each program point, who
//! borrows from whom and which capability each place has.

use crate::mir::{BorrowKind, Location, Place, Region, Ty};
use vstd::prelude::*;

verus! {

/// A place as it is now, or as it was at a labelled earlier point.
#[derive(Clone, Copy, Debug, PartialEq, Eq, Structural)]
pub enum MaybeLabelledPlace {
    Current(Place),
    Labelled(Place, usize),
}

impl MaybeLabelledPlace {
    pub open spec fn spec_place(self) -> Place {
        match self {
            MaybeLabelledPlace::Current(place) => place,
            MaybeLabelledPlace::Labelled(place, _) => place,
        }
    }

    /// The place, whatever its label.
    pub fn place(&self) -> (res: Place)
        ensures
            res == self.spec_place(),
    {
        match self {
            MaybeLabelledPlace::Current(place) => *place,
            MaybeLabelledPlace::Labelled(place, _) => *place,
        }
    }

    pub open spec fn spec_as_current_place(self) -> Option<Place> {
        match self {
            MaybeLabelledPlace::Current(place) => Some(place),
            MaybeLabelledPlace::Labelled(_, _) => None,
        }
    }

    /// The place, unless it is an earlier version.
    pub fn as_current_place(&self) -> (res: Option<Place>)
        ensures
            res == self.spec_as_current_place(),
    {
        match self {
            MaybeLabelledPlace::Current(place) => Some(*place),
            MaybeLabelledPlace::Labelled(_, _) => None,
        }
    }
}

/// The lifetimes that occur at one position of a place's type.
#[derive(Clone, Copy, Debug, PartialEq, Eq, Structural)]
pub struct LifetimeProjection {
    pub base: MaybeLabelledPlace,
    pub region_index: usize,
    pub label: Option<usize>,
}

/// A node of the graph that belongs to the analysed function.
#[derive(Clone, Copy, Debug, PartialEq, Eq, Structural)]
pub enum LocalNode {
    Place(MaybeLabelledPlace),
    LifetimeProjection(LifetimeProjection),
}

impl LocalNode {
    pub open spec fn spec_as_current_place(self) -> Option<Place> {
        match self {
            LocalNode::Place(place) => place.spec_as_current_place(),
            LocalNode::LifetimeProjection(_) => None,
        }
    }

    /// The place that the node is, if it is the current version of a place.
    pub fn as_current_place(&self) -> (res: Option<Place>)
        ensures
            res == self.spec_as_current_place(),
    {
        match self {
            LocalNode::Place(place) => place.as_current_place(),
            LocalNode::LifetimeProjection(_) => None,
        }
    }

    /// The place that the node is, or on whose type it projects.
    pub open spec fn spec_related_place(self) -> Place {
        match self {
            LocalNode::Place(place) => place.spec_place(),
            LocalNode::LifetimeProjection(projection) => projection.base.spec_place(),
        }
    }

    pub fn related_place(&self) -> (res: Place)
        ensures
            res == self.spec_related_place(),
    {
        match self {
            LocalNode::Place(place) => place.place(),
            LocalNode::LifetimeProjection(projection) => projection.base.place(),
        }
    }
}

/// A node that an edge can block: one of the function's own, or one of its caller's.
#[derive(Clone, Copy, Debug, PartialEq, Eq, Structural)]
pub enum BlockedNode {
    Local(LocalNode),
    Remote(usize),
}

impl BlockedNode {
    /// The node of the current version of `place`.
    pub open spec fn spec_from_place(place: Place) -> BlockedNode {
        BlockedNode::Local(LocalNode::Place(MaybeLabelledPlace::Current(place)))
    }

    pub fn from_place(place: Place) -> (res: BlockedNode)
        ensures
            res == BlockedNode::spec_from_place(place),
    {
        BlockedNode::Local(LocalNode::Place(MaybeLabelledPlace::Current(place)))
    }
}

/// A borrow that the function itself makes.
#[derive(Clone, Copy, Debug, PartialEq, Eq, Structural)]
pub struct LocalBorrow {
    pub blocked_place: MaybeLabelledPlace,
    pub kind: BorrowKind,
    pub region: Region,
}

#[derive(Clone, Copy, Debug, PartialEq, Eq, Structural)]
pub enum BorrowEdge {
    Local(LocalBorrow),
    Remote(usize),
}

impl BorrowEdge {
    /// The kind of a borrow that the function makes; that of a caller's borrow is unknown.
    pub open spec fn spec_kind(self) -> Option<BorrowKind> {
        match self {
            BorrowEdge::Local(local_borrow) => Some(local_borrow.kind),
            BorrowEdge::Remote(_) => None,
        }
    }

    pub fn kind(&self) -> (res: Option<BorrowKind>)
        ensures
            res == self.spec_kind(),
    {
        match self {
            BorrowEdge::Local(local_borrow) => Some(local_borrow.kind),
            BorrowEdge::Remote(_) => None,
        }
    }
}

/// The unfolding of `base` into the places or lifetimes that it consists of.
#[derive(Clone, Copy, Debug, PartialEq, Eq, Structural)]
pub struct BorrowPcgExpansion {
    pub base: LocalNode,
}

/// Why one node blocks another. `Abstraction` stands for a call or a loop.
#[derive(Clone, Copy, Debug, PartialEq, Eq, Structural)]
pub enum BorrowPcgEdgeKind {
    Borrow(BorrowEdge),
    BorrowPcgExpansion(BorrowPcgExpansion),
    Abstraction(usize),
    Other(usize),
}

/// An edge of the borrows graph: the nodes `blocked` cannot be used until the edge
/// expires, which the nodes `blocked_by` have to do first.
#[derive(Debug)]
pub struct BorrowPcgEdge {
    pub kind: BorrowPcgEdgeKind,
    pub blocked: Vec<BlockedNode>,
    pub blocked_by: Vec<LocalNode>,
}

#[verifier::ext_equal]
pub struct EdgeView {
    pub kind: BorrowPcgEdgeKind,
    pub blocked: Seq<BlockedNode>,
    pub blocked_by: Seq<LocalNode>,
}

impl View for BorrowPcgEdge {
    type V = EdgeView;

    open spec fn view(&self) -> EdgeView {
        EdgeView { kind: self.kind, blocked: self.blocked@, blocked_by: self.blocked_by@ }
    }
}

#[derive(Clone, Copy, Debug, PartialEq, Eq, Structural)]
pub enum CapabilityKind {
    Read,
    Write,
    Exclusive,
    ShallowExclusive,
}

/// The borrows graph of a program point. Its edges stand in the order in which the
/// analysis lists them.
#[derive(Debug)]
pub struct BorrowsGraph {
    pub edges: Vec<BorrowPcgEdge>,
}

impl View for BorrowsGraph {
    type V = Seq<EdgeView>;

    open spec fn view(&self) -> Seq<EdgeView> {
        self.edges@.map_values(|edge: BorrowPcgEdge| edge@)
    }
}

/// The state of the analysis at one point of a statement's evaluation.
#[derive(Debug)]
pub struct PcgState {
    pub graph: BorrowsGraph,
    pub capabilities: Vec<(Place, CapabilityKind)>,
}

/// Selects the places with a given capability.
pub open spec fn with_capability(capability: CapabilityKind) -> spec_fn(
    (Place, CapabilityKind),
) -> Option<Place> {
    |entry: (Place, CapabilityKind)|
        if entry.1 == capability {
            Some(entry.0)
        } else {
            None
        }
}

impl PcgState {
    /// The places whose capability is `capability`, in the order of the listing.
    pub open spec fn spec_places_with_capability(self, capability: CapabilityKind) -> Seq<Place> {
        self.capabilities@.filter_map(with_capability(capability))
    }

    pub fn places_with_capability(&self, capability: CapabilityKind) -> (res: Vec<Place>)
        ensures
            res@ == self.spec_places_with_capability(capability),
    {
        let mut res: Vec<Place> = Vec::new();
        let mut i: usize = 0;
        while i < self.capabilities.len()
            invariant
                i <= self.capabilities.len(),
                res@ == self.capabilities@.take(i as int).filter_map(with_capability(capability)),
            decreases self.capabilities.len() - i,
        {
            let entry: (Place, CapabilityKind) = self.capabilities[i];
            assert(self.capabilities@.take(i + 1).drop_last() =~= self.capabilities@.take(i as int));
            if entry.1 == capability {
                res.push(entry.0);
            }
            i = i + 1;
        }
        assert(self.capabilities@.take(i as int) =~= self.capabilities@);
        res
    }
}

/// The analysis of one statement: the state once its operands are evaluated and the
/// state once its main effect has happened.
#[derive(Debug)]
pub struct PcgLocation {
    pub location: Location,
    pub post_operands: PcgState,
    pub post_main: PcgState,
}

/// The analysis of one basic block, statement by statement; the terminator comes last.
#[derive(Debug)]
pub struct PcgBasicBlock {
    pub statements: Vec<PcgLocation>,
}

/// The analysis gave up on a basic block.
#[derive(Clone, Copy, Debug, PartialEq, Eq, Structural)]
pub struct PcgError;

/// The analysis of a function. A block that control never reaches has none.
#[derive(Debug)]
pub struct PcgOutput {
    pub blocks: Vec<Result<Option<PcgBasicBlock>, PcgError>>,
}

impl PcgOutput {
    /// The analysis of basic block `block`.
    pub fn get_all_for_bb(&self, block: usize) -> (res: &Result<Option<PcgBasicBlock>, PcgError>)
        requires
            block < self.blocks.len(),
        ensures
            *res == self.blocks@[block as int],
    {
        &self.blocks[block]
    }
}

/// What the compiler knows of the places of a function: their types.
#[derive(Debug)]
pub struct CompilerCtxt {
    pub place_tys: Vec<(Place, Ty)>,
}

/// The first type that `place_tys` gives for `place`.
pub open spec fn lookup_ty(place_tys: Seq<(Place, Ty)>, place: Place) -> Option<Ty>
    decreases place_tys.len(),
{
    if place_tys.len() == 0 {
        None
    } else if place_tys[0].0 == place {
        Some(place_tys[0].1)
    } else {
        lookup_ty(place_tys.drop_first(), place)
    }
}

impl CompilerCtxt {
    pub open spec fn has_ty(self, place: Place) -> bool {
        lookup_ty(self.place_tys@, place) is Some
    }

    pub open spec fn spec_ty(self, place: Place) -> Ty {
        lookup_ty(self.place_tys@, place)->0
    }

    /// Whether the type of `place` is known.
    pub fn knows_ty(&self, place: Place) -> (res: bool)
        ensures
            res == self.has_ty(place),
    {
        let mut i: usize = 0;
        assert(self.place_tys@.skip(0) =~= self.place_tys@);
        while i < self.place_tys.len()
            invariant
                i <= self.place_tys.len(),
                lookup_ty(self.place_tys@.skip(i as int), place) == lookup_ty(
                    self.place_tys@,
                    place,
                ),
            decreases self.place_tys.len() - i,
        {
            if self.place_tys[i].0 == place {
                return true;
            }
            assert(self.place_tys@.skip(i as int).drop_first() =~= self.place_tys@.skip(i + 1));
            i = i + 1;
        }
        false
    }

    /// The type of `place`.
    pub fn ty(&self, place: Place) -> (res: &Ty)
        requires
            self.has_ty(place),
        ensures
            *res == self.spec_ty(place),
    {
        let mut i: usize = 0;
        assert(self.place_tys@.skip(0) =~= self.place_tys@);
        while self.place_tys[i].0 != place
            invariant
                i < self.place_tys.len(),
                self.has_ty(place),
                lookup_ty(self.place_tys@.skip(i as int), place) == lookup_ty(
                    self.place_tys@,
                    place,
                ),
            decreases self.place_tys.len() - i,
        {
            assert(self.place_tys@.skip(i as int).drop_first() =~= self.place_tys@.skip(i + 1));
            i = i + 1;
        }
        &self.place_tys[i].1
    }
}

} // verus!
