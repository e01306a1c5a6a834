use pcg_mutation::mir::{
    BasicBlockData, BindingForm, BindingMode, Body, BorrowKind, ByRef, LocalDecl, LocalInfo, Location, MutBorrowKind, Mutability, Operand, Place, Region, Rvalue, SourceInfo,
    Statement, StatementKind, Terminator, TerminatorKind, Ty, VarBindingForm,
};
use pcg_mutation::mutator::expiry_order::{
    places_blocking, AbstractExpiryOrder, BorrowExpiryOrder,
};
use pcg_mutation::mutator::move_from_borrowed::MoveFromBorrowed;
use pcg_mutation::mutator::mutably_lend_shared::MutablyLendShared;
use pcg_mutation::mutator::mutator_impl::{
    Mutant, MutantInfo, MutantLocation, MutantRange, Mutation,
};
use pcg_mutation::mutator::read_from_write::ReadFromWriteOnly;
use pcg_mutation::mutator::utils::{
    bogus_source_info, borrowed_places, fresh_basic_block, fresh_local, has_named_local, is_mut,
    is_shared,
};
use pcg_mutation::mutator::write_to_shared::WriteToShared;
use pcg_mutation::pcg::{
    BlockedNode, BorrowEdge, BorrowPcgEdge, BorrowPcgEdgeKind, BorrowPcgExpansion, BorrowsGraph,
    CapabilityKind, CompilerCtxt, LifetimeProjection, LocalBorrow, LocalNode, MaybeLabelledPlace,
    PcgLocation, PcgState,
};

const SOURCE: SourceInfo = SourceInfo { span: 100, scope: 1 };
const DEFAULT_MUT: BorrowKind = BorrowKind::Mut { kind: MutBorrowKind::Default };

fn local(index: usize) -> Place {
    Place::from_local(index)
}

fn user() -> LocalInfo {
    LocalInfo::User(BindingForm::Var(VarBindingForm {
        binding_mode: BindingMode { by_ref: ByRef::No, mutability: Mutability::Mut },
        opt_ty_info: None,
        opt_match_place: None,
        pat_span: 7,
    }))
}

fn decl(ty: Ty, local_info: LocalInfo) -> LocalDecl {
    LocalDecl { ty, source_info: SOURCE, local_info }
}

fn statement(index: usize) -> Statement {
    Statement {
        source_info: SourceInfo { span: 200 + index, scope: 2 },
        kind: StatementKind::Original(index),
    }
}

fn terminator(index: usize) -> Option<Terminator> {
    Some(Terminator { source_info: SOURCE, kind: TerminatorKind::Original(index) })
}

fn mut_ref_ty() -> Ty {
    Ty::new_mut_ref(Region::Interned(5), Ty::Other(10))
}

// Locals: 0 is the return place, 1 to 3 are variables, and 4 is a temporary.
fn body() -> Body {
    Body {
        basic_blocks: vec![
            BasicBlockData {
                statements: vec![statement(0), statement(1), statement(2)],
                terminator: terminator(0),
            },
            BasicBlockData { statements: vec![statement(3)], terminator: terminator(1) },
        ],
        local_decls: vec![
            decl(Ty::Other(0), LocalInfo::Other(0)),
            decl(Ty::Other(10), user()),
            decl(mut_ref_ty(), user()),
            decl(mut_ref_ty(), user()),
            decl(Ty::Other(10), LocalInfo::Other(1)),
        ],
    }
}

fn ctx() -> CompilerCtxt {
    CompilerCtxt {
        place_tys: vec![
            (local(1), Ty::Other(10)),
            (local(2), mut_ref_ty()),
            (local(3), mut_ref_ty()),
            (local(4), Ty::Other(10)),
        ],
    }
}

fn node(place: Place) -> LocalNode {
    LocalNode::Place(MaybeLabelledPlace::Current(place))
}

fn edge(kind: BorrowPcgEdgeKind, blocked: usize, blocked_by: usize) -> BorrowPcgEdge {
    BorrowPcgEdge {
        kind,
        blocked: vec![BlockedNode::from_place(local(blocked))],
        blocked_by: vec![node(local(blocked_by))],
    }
}

fn borrow_kind(lent: usize, kind: BorrowKind, region: usize) -> BorrowPcgEdgeKind {
    BorrowPcgEdgeKind::Borrow(BorrowEdge::Local(LocalBorrow {
        blocked_place: MaybeLabelledPlace::Current(local(lent)),
        kind,
        region: Region::Interned(region),
    }))
}

fn borrow(lent: usize, kind: BorrowKind, region: usize, by: usize) -> BorrowPcgEdge {
    edge(borrow_kind(lent, kind, region), lent, by)
}

fn state(edges: Vec<BorrowPcgEdge>) -> PcgState {
    PcgState { graph: BorrowsGraph { edges }, capabilities: vec![] }
}

fn write_only(places: &[usize]) -> PcgState {
    let mut capabilities: Vec<(Place, CapabilityKind)> =
        places.iter().map(|place| (local(*place), CapabilityKind::Write)).collect();
    capabilities.push((local(2), CapabilityKind::Exclusive));
    PcgState { graph: BorrowsGraph { edges: vec![] }, capabilities }
}

fn at(statement_index: usize, post_operands: PcgState, post_main: PcgState) -> PcgLocation {
    PcgLocation { location: Location { block: 0, statement_index }, post_operands, post_main }
}

fn mutants_of(
    mutation: &dyn Mutation,
    body: &Body,
    curr: &PcgLocation,
    next: &PcgLocation,
) -> Vec<Mutant> {
    let ctx = ctx();
    let mut stream = mutation.make_stream(&ctx, body, curr, next);
    let mut res = Vec::new();
    while let Some(mutant) = stream.next() {
        res.push(mutant);
    }
    assert!(stream.next().is_none());
    res
}

fn debug<T: std::fmt::Debug>(value: &T) -> String {
    format!("{value:?}")
}

fn range(basic_block: usize, start: usize, end: usize) -> MutantRange {
    MutantRange {
        start: MutantLocation { basic_block, statement_index: start },
        end: MutantLocation { basic_block, statement_index: end },
    }
}

fn fresh_decl(ty: Ty) -> LocalDecl {
    decl(
        ty,
        LocalInfo::User(BindingForm::Var(VarBindingForm {
            binding_mode: BindingMode { by_ref: ByRef::No, mutability: Mutability::Not },
            opt_ty_info: None,
            opt_match_place: None,
            pat_span: 100,
        })),
    )
}

// The mutant is the body with `inserted` directly after the first statement and, if `ty`
// is given, a fresh local of that type.
fn assert_insertion(mutant: &Mutant, inserted: Statement, ty: Option<Ty>) {
    let mut expected = body();
    expected.basic_blocks[0].statements.insert(1, inserted);
    if let Some(ty) = ty {
        expected.local_decls.push(fresh_decl(ty));
    }
    assert_eq!(debug(&mutant.body), debug(&expected));
    assert_eq!(mutant.range, range(0, 1, 1));
}

#[test]
fn kinds_of_borrows() {
    assert!(is_mut(DEFAULT_MUT));
    assert!(!is_mut(BorrowKind::Mut { kind: MutBorrowKind::TwoPhaseBorrow }));
    assert!(!is_mut(BorrowKind::Mut { kind: MutBorrowKind::ClosureCapture }));
    assert!(!is_mut(BorrowKind::Shared));
    assert!(is_shared(BorrowKind::Shared));
    assert!(!is_shared(DEFAULT_MUT));
}

#[test]
fn a_fresh_local_comes_last() {
    let mut body = body();
    assert_eq!(fresh_local(&mut body, Ty::Other(3)), 5);
    assert_eq!(body.local_decls.len(), 6);
    assert_eq!(debug(&body.local_decls[5]), debug(&fresh_decl(Ty::Other(3))));
    assert_eq!(bogus_source_info(&body), SOURCE);
    assert!(has_named_local(local(5), &body));
}

#[test]
fn a_fresh_block_is_empty() {
    let mut body = body();
    assert_eq!(fresh_basic_block(&mut body), 2);
    assert_eq!(body.basic_blocks.len(), 3);
    assert!(body.basic_blocks[2].statements.is_empty());
    assert!(body.basic_blocks[2].terminator.is_none());
}

#[test]
fn named_locals() {
    let body = body();
    assert!(has_named_local(local(1), &body));
    assert!(has_named_local(Place { local: 1, projection: 9 }, &body));
    assert!(!has_named_local(local(0), &body));
    assert!(!has_named_local(local(4), &body));
    assert!(!has_named_local(local(99), &body));
}

#[test]
fn borrowed_places_edge_by_edge() {
    let mut labelled = borrow(1, DEFAULT_MUT, 8, 2);
    labelled.kind = BorrowPcgEdgeKind::Borrow(BorrowEdge::Local(LocalBorrow {
        blocked_place: MaybeLabelledPlace::Labelled(local(1), 4),
        kind: DEFAULT_MUT,
        region: Region::Interned(8),
    }));
    let graph = BorrowsGraph {
        edges: vec![
            borrow(3, DEFAULT_MUT, 1, 4),
            borrow(1, BorrowKind::Shared, 2, 2),
            labelled,
            edge(BorrowPcgEdgeKind::Borrow(BorrowEdge::Remote(0)), 1, 2),
            edge(BorrowPcgEdgeKind::Abstraction(0), 1, 2),
            borrow(1, DEFAULT_MUT, 3, 2),
            borrow(3, DEFAULT_MUT, 4, 2),
        ],
    };
    assert_eq!(
        borrowed_places(&graph, is_mut),
        vec![
            (local(3), Region::Interned(1)),
            (local(1), Region::Interned(3)),
            (local(3), Region::Interned(4)),
        ]
    );
    assert_eq!(
        borrowed_places(&graph, is_shared),
        vec![(local(1), Region::Interned(2))]
    );
}

#[test]
fn names_of_mutations() {
    assert_eq!(BorrowExpiryOrder.name(), "borrow-expiry-order");
    assert_eq!(AbstractExpiryOrder.name(), "abstract-expiry-order");
    assert_eq!(MutablyLendShared.name(), "mutably-lend-shared");
    assert_eq!(ReadFromWriteOnly.name(), "read-from-write-only");
    assert_eq!(WriteToShared.name(), "write-to-shared");
    assert_eq!(MoveFromBorrowed.name(), "move-from-borrowed");
}

#[test]
fn move_from_borrowed_moves_into_a_fresh_local() {
    let curr = at(0, state(vec![]), state(vec![borrow(1, DEFAULT_MUT, 1, 2)]));
    let next = at(1, state(vec![borrow(1, DEFAULT_MUT, 1, 2)]), state(vec![]));
    let mutants = mutants_of(&MoveFromBorrowed, &body(), &curr, &next);
    assert_eq!(mutants.len(), 1);
    let inserted = Statement {
        source_info: statement(0).source_info,
        kind: StatementKind::Assign(local(5), Rvalue::Use(Operand::Move(local(1)))),
    };
    assert_insertion(&mutants[0], inserted, Some(Ty::Other(10)));
    assert_eq!(mutants[0].info, MutantInfo::Lent { place: local(1), inserted });
}

#[test]
fn move_from_borrowed_takes_each_place_once() {
    let edges = || {
        vec![
            borrow(1, DEFAULT_MUT, 1, 2),
            borrow(1, DEFAULT_MUT, 2, 3),
            borrow(2, DEFAULT_MUT, 3, 3),
        ]
    };
    let curr = at(0, state(vec![]), state(edges()));
    let next = at(1, state(edges()), state(vec![]));
    let mutants = mutants_of(&MoveFromBorrowed, &body(), &curr, &next);
    assert_eq!(mutants.len(), 2);
    assert_ne!(mutants[0].info, mutants[1].info);
}

#[test]
fn move_from_borrowed_wants_a_borrow_that_lasts() {
    let lent = || state(vec![borrow(1, DEFAULT_MUT, 1, 2)]);
    let shared = || state(vec![borrow(1, BorrowKind::Shared, 1, 2)]);
    let body = body();
    let expires = (at(0, lent(), lent()), at(1, state(vec![]), lent()));
    let begins = (at(0, lent(), state(vec![])), at(1, lent(), lent()));
    let is_shared = (at(0, lent(), shared()), at(1, shared(), lent()));
    for (curr, next) in [expires, begins, is_shared] {
        assert!(mutants_of(&MoveFromBorrowed, &body, &curr, &next).is_empty());
    }
}

#[test]
fn move_from_borrowed_wants_a_named_place() {
    let lent = || state(vec![borrow(4, DEFAULT_MUT, 1, 2)]);
    let (curr, next) = (at(0, lent(), lent()), at(1, lent(), lent()));
    assert!(mutants_of(&MoveFromBorrowed, &body(), &curr, &next).is_empty());
}

#[test]
fn no_insertion_after_a_terminator() {
    let lent = || {
        let mut state = state(vec![
            borrow(1, DEFAULT_MUT, 1, 2),
            borrow(1, BorrowKind::Shared, 2, 2),
        ]);
        state.capabilities.push((local(1), CapabilityKind::Write));
        state
    };
    let body = body();
    let (curr, next) = (at(3, lent(), lent()), at(4, lent(), lent()));
    assert!(mutants_of(&MoveFromBorrowed, &body, &curr, &next).is_empty());
    assert!(mutants_of(&MutablyLendShared, &body, &curr, &next).is_empty());
    assert!(mutants_of(&ReadFromWriteOnly, &body, &curr, &next).is_empty());
}

#[test]
fn mutably_lend_shared_borrows_for_the_same_lifetime() {
    let curr = at(
        0,
        state(vec![]),
        state(vec![
            borrow(1, BorrowKind::Shared, 1, 2),
            borrow(3, BorrowKind::Shared, 2, 2),
            borrow(1, BorrowKind::Shared, 3, 2),
            borrow(4, BorrowKind::Shared, 4, 2),
        ]),
    );
    let next = at(
        1,
        state(vec![
            borrow(4, BorrowKind::Shared, 4, 2),
            borrow(1, BorrowKind::Shared, 9, 2),
        ]),
        state(vec![]),
    );
    let mutants = mutants_of(&MutablyLendShared, &body(), &curr, &next);
    assert_eq!(mutants.len(), 2);
    for (mutant, region) in mutants.iter().zip([Region::Interned(3), Region::Interned(1)]) {
        let inserted = Statement {
            source_info: statement(0).source_info,
            kind: StatementKind::Assign(local(5), Rvalue::Ref(region, DEFAULT_MUT, local(1))),
        };
        assert_insertion(mutant, inserted, Some(Ty::new_mut_ref(region, Ty::Other(10))));
        assert_eq!(mutant.info, MutantInfo::Shared { place: local(1), inserted });
    }
}

#[test]
fn read_from_write_only_reads_the_place_into_a_fresh_local() {
    let curr = at(0, state(vec![]), write_only(&[1, 3, 4, 2]));
    let next = at(1, write_only(&[2, 4, 1]), state(vec![]));
    let mutants = mutants_of(&ReadFromWriteOnly, &body(), &curr, &next);
    assert_eq!(mutants.len(), 2);
    for (mutant, (place, ty)) in
        mutants.iter().zip([(local(2), mut_ref_ty()), (local(1), Ty::Other(10))])
    {
        let inserted = Statement {
            source_info: statement(0).source_info,
            kind: StatementKind::Assign(local(5), Rvalue::Use(Operand::Copy(place))),
        };
        assert_insertion(mutant, inserted, Some(ty));
        assert_eq!(mutant.info, MutantInfo::WriteOnly { place, inserted });
    }
}

#[test]
fn write_to_shared_assigns_the_place() {
    let curr = at(0, state(vec![]), state(vec![borrow(1, BorrowKind::Shared, 1, 2)]));
    let next = at(
        1,
        state(vec![
            borrow(1, BorrowKind::Shared, 1, 2),
            borrow(3, BorrowKind::Shared, 2, 2),
            borrow(1, BorrowKind::Shared, 3, 3),
        ]),
        state(vec![]),
    );
    let mutants = mutants_of(&WriteToShared, &body(), &curr, &next);
    assert_eq!(mutants.len(), 2);
    let inserted = Statement {
        source_info: SOURCE,
        kind: StatementKind::Assign(local(1), Rvalue::Len(local(1))),
    };
    for mutant in &mutants {
        assert_insertion(mutant, inserted, None);
        assert_eq!(mutant.info, MutantInfo::Shared { place: local(1), inserted });
    }
}

#[test]
fn an_insertion_changes_nothing_else() {
    let lent = || state(vec![borrow(1, DEFAULT_MUT, 1, 2)]);
    let (curr, next) = (at(1, lent(), lent()), at(2, lent(), lent()));
    let mut mutants = mutants_of(&MoveFromBorrowed, &body(), &curr, &next);
    let mutant = mutants.pop().unwrap();
    let place = mutant.range.start;
    assert_eq!((place.basic_block, place.statement_index), (0, 2));
    let mut restored = mutant.body;
    restored.basic_blocks[0].statements.remove(place.statement_index);
    restored.local_decls.pop();
    assert_eq!(debug(&restored), debug(&body()));
}

fn reborrow(target: usize, place: usize) -> Statement {
    Statement {
        source_info: SOURCE,
        kind: StatementKind::Assign(
            local(target),
            Rvalue::Ref(Region::MaxVar, BorrowKind::Shared, local(place)),
        ),
    }
}

#[test]
fn borrow_expiry_order_branches_off() {
    let curr = at(0, state(vec![]), state(vec![]));
    let next = at(1, state(vec![borrow(1, DEFAULT_MUT, 1, 2)]), state(vec![]));
    let mutants = mutants_of(&BorrowExpiryOrder, &body(), &curr, &next);
    assert_eq!(mutants.len(), 1);
    let mutant = &mutants[0];
    let (first, second) = (reborrow(5, 1), reborrow(6, 2));
    assert_eq!(mutant.info, MutantInfo::ExpirySequence { first, second });
    assert_eq!(mutant.range, range(3, 0, 1));
    let mut expected = body();
    expected.basic_blocks[0] = BasicBlockData {
        statements: vec![statement(0)],
        terminator: Some(Terminator {
            source_info: SOURCE,
            kind: TerminatorKind::FalseEdge { real_target: 2, imaginary_target: 3 },
        }),
    };
    expected.basic_blocks.push(BasicBlockData {
        statements: vec![statement(1), statement(2)],
        terminator: terminator(0),
    });
    expected.basic_blocks.push(BasicBlockData {
        statements: vec![first, second],
        terminator: Some(Terminator {
            source_info: SOURCE,
            kind: TerminatorKind::Unreachable,
        }),
    });
    expected.local_decls.push(fresh_decl(Ty::new_mut_ref(Region::MaxVar, Ty::Other(10))));
    expected.local_decls.push(fresh_decl(Ty::new_mut_ref(Region::MaxVar, mut_ref_ty())));
    assert_eq!(debug(&mutant.body), debug(&expected));
}

#[test]
fn an_expiry_mutant_keeps_the_code() {
    let curr = at(1, state(vec![]), state(vec![]));
    let next = at(2, state(vec![borrow(1, DEFAULT_MUT, 1, 2)]), state(vec![]));
    let mutants = mutants_of(&BorrowExpiryOrder, &body(), &curr, &next);
    assert_eq!(mutants.len(), 1);
    assert_eq!(mutants[0].range, range(3, 0, 1));
    let blocks = &mutants[0].body.basic_blocks;
    let mut joined = blocks[0].statements.clone();
    joined.extend(blocks[2].statements.iter().cloned());
    assert_eq!(joined, body().basic_blocks[0].statements);
    assert_eq!(blocks[2].terminator, terminator(0));
    assert_eq!(debug(&blocks[1]), debug(&body().basic_blocks[1]));
}

#[test]
fn the_range_of_an_expiry_mutant_is_its_branch() {
    for index in 0..3 {
        let curr = at(index, state(vec![]), state(vec![]));
        let next = at(index + 1, state(vec![borrow(1, DEFAULT_MUT, 1, 2)]), state(vec![]));
        let mutants = mutants_of(&BorrowExpiryOrder, &body(), &curr, &next);
        assert_eq!(mutants.len(), 1);
        assert_eq!(mutants[0].range, range(3, 0, 1));
        assert_eq!(mutants[0].body.basic_blocks[3].statements.len(), 2);
        assert_eq!(mutants[0].body.basic_blocks[0].statements.len(), index + 1);
    }
}

fn expiry_pairs(mutation: &dyn Mutation, edges: Vec<BorrowPcgEdge>) -> Vec<(usize, usize)> {
    let curr = at(0, state(vec![]), state(vec![]));
    let next = at(1, state(edges), state(vec![]));
    let mut pairs: Vec<(usize, usize)> = mutants_of(mutation, &body(), &curr, &next)
        .iter()
        .map(|mutant| match mutant.info {
            MutantInfo::ExpirySequence { first, second } => match (first.kind, second.kind) {
                (
                    StatementKind::Assign(_, Rvalue::Ref(_, _, place)),
                    StatementKind::Assign(_, Rvalue::Ref(_, _, blocking_place)),
                ) => (place.local, blocking_place.local),
                _ => panic!("the uses are reborrows"),
            },
            _ => panic!("the mutant uses two places"),
        })
        .collect();
    pairs.sort();
    pairs
}

#[test]
fn expiry_order_follows_paths() {
    let edges = || {
        vec![
            borrow(1, DEFAULT_MUT, 1, 2),
            edge(BorrowPcgEdgeKind::Other(0), 2, 4),
            edge(BorrowPcgEdgeKind::Abstraction(0), 4, 3),
        ]
    };
    assert_eq!(expiry_pairs(&BorrowExpiryOrder, edges()), vec![(1, 2), (1, 3)]);
    assert_eq!(expiry_pairs(&AbstractExpiryOrder, edges()), vec![(1, 3)]);
}

#[test]
fn abstract_mutants_are_borrow_mutants() {
    let edges = || {
        vec![
            borrow(1, DEFAULT_MUT, 1, 2),
            borrow(2, DEFAULT_MUT, 2, 3),
            edge(BorrowPcgEdgeKind::Abstraction(0), 1, 3),
        ]
    };
    let all = expiry_pairs(&BorrowExpiryOrder, edges());
    let through_abstractions = expiry_pairs(&AbstractExpiryOrder, edges());
    assert_eq!(all, vec![(1, 2), (1, 3), (2, 3)]);
    assert!(through_abstractions.iter().all(|pair| all.contains(pair)));
}

#[test]
fn a_looser_rule_finds_no_fewer_blockers() {
    let graph = BorrowsGraph {
        edges: vec![
            borrow(1, DEFAULT_MUT, 1, 2),
            edge(BorrowPcgEdgeKind::Abstraction(0), 2, 4),
            edge(BorrowPcgEdgeKind::Other(0), 2, 3),
        ],
    };
    let mut all = places_blocking(local(1), &graph, &ctx(), &BorrowExpiryOrder);
    all.sort_by_key(|place| place.local);
    assert_eq!(all, vec![local(2), local(3), local(4)]);
    let through_abstractions = places_blocking(local(1), &graph, &ctx(), &AbstractExpiryOrder);
    assert_eq!(through_abstractions, vec![local(4)]);
    assert!(places_blocking(local(3), &graph, &ctx(), &BorrowExpiryOrder).is_empty());
}

#[test]
fn nothing_blocks_where_no_edge_may_be_used_or_no_rule_holds() {
    let unused = vec![
        borrow(1, BorrowKind::Shared, 1, 2),
        borrow(2, DEFAULT_MUT, 2, 4),
    ];
    assert!(expiry_pairs(&BorrowExpiryOrder, unused).is_empty());
    let no_abstraction = vec![borrow(1, DEFAULT_MUT, 1, 2), borrow(2, DEFAULT_MUT, 2, 3)];
    assert!(expiry_pairs(&AbstractExpiryOrder, no_abstraction).is_empty());
}

#[test]
fn expiry_order_does_not_pass_shared_borrows() {
    let edges = vec![
        borrow(1, DEFAULT_MUT, 1, 2),
        borrow(2, BorrowKind::Shared, 2, 3),
    ];
    assert_eq!(expiry_pairs(&BorrowExpiryOrder, edges), vec![(1, 2)]);
}

#[test]
fn expiry_order_does_not_pass_borrows_of_a_caller() {
    let edges = vec![
        borrow(1, DEFAULT_MUT, 1, 2),
        edge(BorrowPcgEdgeKind::Borrow(BorrowEdge::Remote(0)), 2, 3),
    ];
    assert_eq!(expiry_pairs(&BorrowExpiryOrder, edges), vec![(1, 2)]);
}

#[test]
fn expiry_order_passes_expansions_of_mutable_references() {
    let of_place = |base| {
        BorrowPcgEdgeKind::BorrowPcgExpansion(BorrowPcgExpansion { base: node(local(base)) })
    };
    let of_lifetime = BorrowPcgEdgeKind::BorrowPcgExpansion(BorrowPcgExpansion {
        base: LocalNode::LifetimeProjection(LifetimeProjection {
            base: MaybeLabelledPlace::Labelled(local(2), 3),
            region_index: 0,
            label: None,
        }),
    });
    let chain = |kind| vec![borrow(1, DEFAULT_MUT, 1, 2), edge(kind, 2, 3)];
    assert_eq!(expiry_pairs(&BorrowExpiryOrder, chain(of_place(2))), vec![(1, 2), (1, 3)]);
    assert_eq!(expiry_pairs(&BorrowExpiryOrder, chain(of_lifetime)), vec![(1, 2), (1, 3)]);
    assert_eq!(expiry_pairs(&BorrowExpiryOrder, chain(of_place(1))), vec![(1, 2)]);
}

#[test]
fn expiry_order_wants_named_and_current_places() {
    let mut labelled = borrow(1, DEFAULT_MUT, 1, 2);
    labelled.blocked_by = vec![
        LocalNode::Place(MaybeLabelledPlace::Labelled(local(2), 1)),
        LocalNode::LifetimeProjection(LifetimeProjection {
            base: MaybeLabelledPlace::Current(local(3)),
            region_index: 0,
            label: Some(2),
        }),
    ];
    assert!(expiry_pairs(&BorrowExpiryOrder, vec![labelled]).is_empty());
    let by_temporary = vec![borrow(1, DEFAULT_MUT, 1, 4)];
    assert!(expiry_pairs(&BorrowExpiryOrder, by_temporary).is_empty());
    let of_temporary = vec![borrow(4, DEFAULT_MUT, 1, 2)];
    assert!(expiry_pairs(&BorrowExpiryOrder, of_temporary).is_empty());
}

#[test]
fn expiry_order_finds_a_blocker_once() {
    let edges = vec![
        borrow(1, DEFAULT_MUT, 1, 2),
        borrow(1, DEFAULT_MUT, 2, 2),
        edge(BorrowPcgEdgeKind::Other(1), 1, 4),
        edge(BorrowPcgEdgeKind::Other(2), 4, 2),
    ];
    assert_eq!(expiry_pairs(&BorrowExpiryOrder, edges), vec![(1, 2)]);
}

#[test]
fn descriptions() {
    let inserted = statement(0);
    let place = local(1);
    let sequence = MutantInfo::ExpirySequence { first: inserted, second: inserted };
    assert_eq!(
        sequence.describe("_1", "[_5 = &_1, _6 = &_2]"),
        "created mutant expiry sequence [_5 = &_1, _6 = &_2]"
    );
    assert_eq!(
        MutantInfo::Lent { place, inserted }.describe("_1", "_5 = move _1"),
        "_1 was lent, so inserted _5 = move _1"
    );
    assert_eq!(
        MutantInfo::Shared { place, inserted }.describe("_1", "_1 = Len(_1)"),
        "_1 was shared, so inserted _1 = Len(_1)"
    );
    assert_eq!(
        MutantInfo::WriteOnly { place, inserted }.describe("_1", "_5 = copy _1"),
        "_1 was write-only, so inserted _5 = copy _1"
    );
}
