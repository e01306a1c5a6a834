use pcg_mutation::body_test::{test_body, BodyTest};
use pcg_mutation::mir::{
    BasicBlockData, BindingForm, Body, BorrowKind, LocalDecl, LocalInfo, Location, MutBorrowKind,
    Place, Region, SourceInfo, Statement, StatementKind, Ty,
};
use pcg_mutation::mutator::all::all_mutations;
use pcg_mutation::mutator::mutator_impl::{MutantInfo, Mutation, Mutator};
use pcg_mutation::mutator::write_to_shared::WriteToShared;
use pcg_mutation::pcg::{
    BlockedNode, BorrowEdge, BorrowPcgEdge, BorrowPcgEdgeKind, BorrowsGraph, CapabilityKind,
    CompilerCtxt, LocalBorrow, LocalNode, MaybeLabelledPlace, PcgBasicBlock, PcgError,
    PcgLocation, PcgOutput, PcgState,
};
use pcg_mutation::results::TestRun;

const SOURCE: SourceInfo = SourceInfo { span: 0, scope: 0 };

fn body(statements: &[usize]) -> Body {
    Body {
        basic_blocks: statements
            .iter()
            .map(|count| BasicBlockData {
                statements: (0..*count)
                    .map(|index| Statement {
                        source_info: SOURCE,
                        kind: StatementKind::Original(index),
                    })
                    .collect(),
                terminator: None,
            })
            .collect(),
        local_decls: (0..3)
            .map(|_| LocalDecl {
                ty: Ty::Other(0),
                source_info: SOURCE,
                local_info: LocalInfo::User(BindingForm::Other(0)),
            })
            .collect(),
    }
}

fn borrow_edge(kind: BorrowKind, lent: usize, by: usize) -> BorrowPcgEdge {
    let place = Place::from_local(lent);
    BorrowPcgEdge {
        kind: BorrowPcgEdgeKind::Borrow(BorrowEdge::Local(LocalBorrow {
            blocked_place: MaybeLabelledPlace::Current(place),
            kind,
            region: Region::Interned(0),
        })),
        blocked: vec![BlockedNode::from_place(place)],
        blocked_by: vec![LocalNode::Place(MaybeLabelledPlace::Current(Place::from_local(by)))],
    }
}

fn shared_state(lent: &[usize]) -> PcgState {
    PcgState {
        graph: BorrowsGraph {
            edges: lent.iter().map(|lent| borrow_edge(BorrowKind::Shared, *lent, 2)).collect(),
        },
        capabilities: vec![],
    }
}

fn location(block: usize, statement_index: usize, lent: &[usize]) -> PcgLocation {
    PcgLocation {
        location: Location { block, statement_index },
        post_operands: shared_state(lent),
        post_main: shared_state(lent),
    }
}

// Every program point of the block, its terminator too, shares `lent`.
fn analysed(block: usize, count: usize, lent: &[usize]) -> Result<Option<PcgBasicBlock>, PcgError> {
    Ok(Some(PcgBasicBlock {
        statements: (0..count + 1).map(|index| location(block, index, lent)).collect(),
    }))
}

fn ctx() -> CompilerCtxt {
    CompilerCtxt {
        place_tys: (0..3).map(|local| (Place::from_local(local), Ty::Other(0))).collect(),
    }
}

fn write_to_shared() -> Box<dyn Mutation> {
    Box::new(WriteToShared)
}

fn positions(analysis: &PcgOutput, body: &Body) -> Vec<(usize, usize)> {
    let ctx = ctx();
    let mutation = write_to_shared();
    let mut mutator = Mutator::new(&mutation, &ctx, analysis, body);
    assert_eq!(mutator.name(), "write-to-shared");
    let mut res = Vec::new();
    while let Some(mutant) = mutator.next() {
        let at = mutant.range.start;
        res.push((at.basic_block, at.statement_index));
    }
    assert!(mutator.next().is_none());
    assert!(mutator.next().is_none());
    res
}

#[test]
fn a_body_without_blocks_has_no_mutants() {
    assert!(positions(&PcgOutput { blocks: vec![] }, &body(&[])).is_empty());
}

#[test]
fn a_single_block_is_traversed() {
    let analysis = PcgOutput { blocks: vec![analysed(0, 3, &[1])] };
    assert_eq!(positions(&analysis, &body(&[3])), vec![(0, 1), (0, 2), (0, 3)]);
}

#[test]
fn all_blocks_are_traversed_in_order() {
    let analysis =
        PcgOutput { blocks: vec![analysed(0, 2, &[1]), analysed(1, 0, &[1]), analysed(2, 1, &[1])] };
    assert_eq!(
        positions(&analysis, &body(&[2, 0, 1])),
        vec![(0, 1), (0, 2), (2, 1)]
    );
}

#[test]
fn blocks_without_analysis_are_passed_over() {
    let analysis = PcgOutput {
        blocks: vec![Err(PcgError), analysed(1, 1, &[1]), Ok(None), analysed(3, 1, &[1])],
    };
    assert_eq!(positions(&analysis, &body(&[1, 1, 1, 1])), vec![(1, 1), (3, 1)]);
}

#[test]
fn a_pair_with_several_mutants_is_exhausted_first() {
    let analysis = PcgOutput { blocks: vec![analysed(0, 2, &[1, 2])] };
    assert_eq!(
        positions(&analysis, &body(&[2])),
        vec![(0, 1), (0, 1), (0, 2), (0, 2)]
    );
}

#[test]
fn pairs_without_mutants_are_passed_over() {
    let statements = vec![
        location(0, 0, &[]),
        location(0, 1, &[1]),
        location(0, 2, &[1]),
        location(0, 3, &[]),
    ];
    let analysis = PcgOutput { blocks: vec![Ok(Some(PcgBasicBlock { statements }))] };
    assert_eq!(positions(&analysis, &body(&[3])), vec![(0, 2)]);
}

#[test]
fn a_stream_hands_on_its_mutants() {
    let ctx = ctx();
    let body = body(&[2]);
    let (curr, next) = (location(0, 0, &[1, 2]), location(0, 1, &[1, 2]));
    let mut stream = WriteToShared.make_stream(&ctx, &body, &curr, &next);
    let mut places = Vec::new();
    while let Some(mutant) = stream.next() {
        match mutant.info {
            MutantInfo::Shared { place, .. } => places.push(place.local),
            _ => panic!("the place is shared"),
        }
    }
    assert_eq!(places, vec![2, 1]);
    assert!(stream.next().is_none());
}

#[test]
fn all_mutations_in_order() {
    let names: Vec<String> = all_mutations().iter().map(|mutation| mutation.name()).collect();
    assert_eq!(
        names,
        vec![
            "borrow-expiry-order",
            "abstract-expiry-order",
            "mutably-lend-shared",
            "read-from-write-only",
            "write-to-shared",
            "move-from-borrowed",
        ]
    );
}

#[test]
fn a_test_runs_every_mutation_and_counts() {
    let body = body(&[2]);
    let ctx = ctx();
    let analysis = PcgOutput { blocks: vec![analysed(0, 2, &[1])] };
    let mutations = all_mutations();
    let mut run = TestRun::new();
    let mut test = test_body(&mutations, &ctx, &analysis, &body).unwrap();
    assert!(test.mutation_name().is_none());
    let mut made: Vec<(String, usize)> = Vec::new();
    while let Some(mutant) = test.next(&mut run) {
        made.push((test.mutation_name().unwrap(), mutant.range.start.statement_index));
    }
    assert_eq!(
        made,
        vec![
            ("mutably-lend-shared".to_string(), 1),
            ("mutably-lend-shared".to_string(), 2),
            ("write-to-shared".to_string(), 1),
            ("write-to-shared".to_string(), 2),
        ]
    );
    let counts: Vec<u64> = run.entries().iter().map(|entry| entry.1.instances).collect();
    assert_eq!(counts, vec![0, 0, 2, 0, 2, 0]);
    assert!(test.next(&mut run).is_none());
}

#[test]
fn a_second_function_adds_to_the_records() {
    let body = body(&[1]);
    let ctx = ctx();
    let analysis = PcgOutput { blocks: vec![analysed(0, 1, &[1])] };
    let mutations = all_mutations();
    let mut run = TestRun::new();
    for _ in 0..3 {
        let mut test = test_body(&mutations, &ctx, &analysis, &body).unwrap();
        while test.next(&mut run).is_some() {}
    }
    assert_eq!(run.entries().len(), 6);
    assert_eq!(run.data(&"write-to-shared".to_string()).unwrap().instances, 3);
}

#[test]
fn a_test_of_no_mutations_is_over_at_once() {
    let body = body(&[1]);
    let ctx = ctx();
    let analysis = PcgOutput { blocks: vec![analysed(0, 1, &[1])] };
    let mutations: Vec<Box<dyn Mutation>> = vec![];
    let mut run = TestRun::new();
    let mut test = BodyTest::new(&mutations, &ctx, &analysis, &body);
    assert!(test.next(&mut run).is_none());
    assert!(run.entries().is_empty());
}

fn can_test(ctx: &CompilerCtxt, analysis: &PcgOutput, body: &Body) -> bool {
    let mutations = all_mutations();
    let res = test_body(&mutations, ctx, analysis, body).is_some();
    res
}

fn block(statements: Vec<PcgLocation>) -> PcgOutput {
    PcgOutput { blocks: vec![Ok(Some(PcgBasicBlock { statements }))] }
}

#[test]
fn an_analysis_of_the_function_can_be_used() {
    let analysis = PcgOutput { blocks: vec![analysed(0, 2, &[0, 1]), Ok(None), Err(PcgError)] };
    assert!(can_test(&ctx(), &analysis, &body(&[2, 0, 5])));
}

#[test]
fn an_analysis_has_to_cover_the_blocks() {
    let analysis = PcgOutput { blocks: vec![analysed(0, 2, &[1]), analysed(1, 0, &[1])] };
    assert!(!can_test(&ctx(), &analysis, &body(&[2, 0, 0])));
    assert!(can_test(&ctx(), &analysis, &body(&[2, 0])));
    assert!(can_test(&ctx(), &analysis, &body(&[2])));
}

#[test]
fn nothing_can_be_inserted_after_a_terminator() {
    let lent = || vec![location(0, 2, &[1]), location(0, 3, &[1])];
    assert!(can_test(&ctx(), &block(lent()), &body(&[3])));
    assert!(!can_test(&ctx(), &block(lent()), &body(&[2])));
    let unlent = vec![location(0, 2, &[]), location(0, 3, &[])];
    assert!(can_test(&ctx(), &block(unlent), &body(&[2])));
}

#[test]
fn a_block_has_to_be_long_enough_to_be_split() {
    let pair = |index: usize| {
        let mut next = location(0, index + 1, &[]);
        next.post_operands.graph.edges = vec![mut_edge(1, 2)];
        block(vec![location(0, index, &[]), next])
    };
    assert!(can_test(&ctx(), &pair(1), &body(&[2])));
    assert!(!can_test(&ctx(), &pair(2), &body(&[2])));
    let mut elsewhere = pair(0);
    if let Ok(Some(block)) = &mut elsewhere.blocks[0] {
        block.statements[0].location.block = 7;
    }
    assert!(!can_test(&ctx(), &elsewhere, &body(&[2])));
}

#[test]
fn the_types_of_the_places_used_have_to_be_known() {
    let knows = |locals: &[usize]| CompilerCtxt {
        place_tys: locals.iter().map(|l| (Place::from_local(*l), Ty::Other(0))).collect(),
    };
    let shared = block(vec![location(0, 0, &[1]), location(0, 1, &[1])]);
    assert!(can_test(&knows(&[1]), &shared, &body(&[1])));
    assert!(!can_test(&knows(&[2]), &shared, &body(&[1])));
    let mut lent = block(vec![location(0, 0, &[]), location(0, 1, &[])]);
    if let Ok(Some(block)) = &mut lent.blocks[0] {
        block.statements[1].post_operands.graph.edges = vec![mut_edge(1, 2)];
    }
    assert!(can_test(&knows(&[1, 2]), &lent, &body(&[1])));
    assert!(!can_test(&knows(&[1]), &lent, &body(&[1])));
    assert!(!can_test(&knows(&[2]), &lent, &body(&[1])));
    let mut write_only = block(vec![location(0, 0, &[]), location(0, 1, &[])]);
    if let Ok(Some(block)) = &mut write_only.blocks[0] {
        let entry = (Place::from_local(2), CapabilityKind::Write);
        block.statements[0].post_main.capabilities.push(entry);
        block.statements[1].post_operands.capabilities.push(entry);
    }
    assert!(can_test(&knows(&[2]), &write_only, &body(&[1])));
    assert!(!can_test(&knows(&[1]), &write_only, &body(&[1])));
}

#[test]
fn what_no_mutation_reads_does_not_matter() {
    // The state before the first statement's effect and that after the last one's.
    let mut first = location(0, 0, &[]);
    first.post_operands.graph.edges = vec![mut_edge(1, 1)];
    first.post_operands.capabilities.push((Place::from_local(9), CapabilityKind::Write));
    let mut last = location(0, 1, &[]);
    last.post_main.graph.edges = vec![mut_edge(9, 9)];
    assert!(can_test(&ctx(), &block(vec![first, last]), &body(&[1])));
}

#[test]
fn a_block_with_only_its_terminator_opens_empty_records() {
    let mut terminator = location(0, 0, &[]);
    terminator.post_operands.graph.edges = vec![mut_edge(1, 1)];
    let (ctx, analysis, body) = (ctx(), block(vec![terminator]), body(&[0]));
    let mutations = all_mutations();
    let mut run = TestRun::new();
    let mut test = test_body(&mutations, &ctx, &analysis, &body).unwrap();
    assert!(test.next(&mut run).is_none());
    assert_eq!(run.entries().len(), 6);
    assert!(run.entries().iter().all(|entry| entry.1.instances == 0));
}

#[test]
fn any_list_of_mutations_can_be_tested() {
    let (ctx, body) = (ctx(), body(&[1]));
    let analysis = PcgOutput { blocks: vec![analysed(0, 1, &[1])] };
    let mutations: Vec<Box<dyn Mutation>> = vec![write_to_shared(), write_to_shared()];
    let mut run = TestRun::new();
    let mut test = test_body(&mutations, &ctx, &analysis, &body).unwrap();
    assert!(test.next(&mut run).is_some());
    assert!(test.next(&mut run).is_some());
    assert!(test.next(&mut run).is_none());
    assert_eq!(run.entries().len(), 1);
    assert_eq!(run.data(&"write-to-shared".to_string()).unwrap().instances, 2);
}

fn mut_edge(lent: usize, by: usize) -> BorrowPcgEdge {
    borrow_edge(BorrowKind::Mut { kind: MutBorrowKind::Default }, lent, by)
}

fn other_edge(blocked: usize, by: usize) -> BorrowPcgEdge {
    BorrowPcgEdge { kind: BorrowPcgEdgeKind::Other(0), ..mut_edge(blocked, by) }
}

// Whether a function can be tested where these are the edges before its second statement.
fn ends(edges: Vec<BorrowPcgEdge>) -> bool {
    let mut next = location(0, 1, &[]);
    next.post_operands.graph.edges = edges;
    can_test(&ctx(), &block(vec![location(0, 0, &[]), next]), &body(&[1]))
}

#[test]
fn searches_from_lent_places_have_to_end() {
    assert!(ends(vec![]));
    assert!(ends(vec![mut_edge(0, 1)]));
    assert!(ends(vec![mut_edge(1, 2), mut_edge(0, 1), mut_edge(0, 2)]));
    assert!(!ends(vec![mut_edge(1, 1)]));
    assert!(!ends(vec![mut_edge(1, 2), mut_edge(2, 1)]));
    assert!(!ends(vec![mut_edge(0, 1), mut_edge(1, 2), mut_edge(2, 0)]));
    assert!(!ends(vec![mut_edge(0, 1), other_edge(1, 2), other_edge(2, 1)]));
}

#[test]
fn cycles_that_no_search_meets_do_no_harm() {
    // No place is lent.
    assert!(ends(vec![other_edge(1, 1)]));
    // The cycle cannot be reached from the lent place.
    assert!(ends(vec![mut_edge(0, 2), other_edge(1, 1)]));
    // A search does not pass shared borrows.
    assert!(ends(vec![mut_edge(0, 1), borrow_edge(BorrowKind::Shared, 1, 1)]));
}

#[test]
fn cycles_from_temporaries_do_no_harm() {
    let mut body = body(&[1]);
    let mut next = location(0, 1, &[]);
    next.post_operands.graph.edges = vec![mut_edge(1, 1)];
    let analysis = block(vec![location(0, 0, &[]), next]);
    assert!(!can_test(&ctx(), &analysis, &body));
    body.local_decls[1].local_info = LocalInfo::Other(0);
    assert!(can_test(&ctx(), &analysis, &body));
}

#[test]
fn edges_that_block_a_node() {
    let graph = BorrowsGraph { edges: vec![mut_edge(1, 2), mut_edge(2, 3), mut_edge(1, 3)] };
    let node = |local| BlockedNode::from_place(Place::from_local(local));
    assert_eq!(graph.get_edges_blocking(node(1)), vec![0, 2]);
    assert_eq!(graph.get_edges_blocking(node(2)), vec![1]);
    assert!(graph.get_edges_blocking(node(3)).is_empty());
    assert!(graph.get_edges_blocking(BlockedNode::Remote(0)).is_empty());
}

#[test]
fn types_of_places() {
    let ctx = CompilerCtxt {
        place_tys: vec![
            (Place::from_local(1), Ty::Other(4)),
            (Place::from_local(1), Ty::Other(5)),
        ],
    };
    assert!(ctx.knows_ty(Place::from_local(1)));
    assert!(!ctx.knows_ty(Place { local: 1, projection: 3 }));
    assert!(matches!(ctx.ty(Place::from_local(1)), Ty::Other(4)));
}

#[test]
fn places_with_a_capability() {
    let place = Place::from_local;
    let state = PcgState {
        graph: BorrowsGraph { edges: vec![] },
        capabilities: vec![
            (place(3), CapabilityKind::Write),
            (place(1), CapabilityKind::Read),
            (place(2), CapabilityKind::Write),
            (place(0), CapabilityKind::ShallowExclusive),
        ],
    };
    assert_eq!(state.places_with_capability(CapabilityKind::Write), vec![place(3), place(2)]);
    assert!(state.places_with_capability(CapabilityKind::Exclusive).is_empty());
}
