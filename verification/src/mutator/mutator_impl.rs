//! Mutants, the mutations that make them, and the walk over a function that asks a
//! mutation for its mutants.

use crate::mir::{Body, BodyView, Place, Statement};
use crate::pcg::{CompilerCtxt, PcgLocation, PcgOutput};
use std::collections::VecDeque;
use vstd::prelude::*;

verus! {

#[derive(Clone, Copy, Debug, PartialEq, Eq, Structural)]
pub struct MutantLocation {
    pub basic_block: usize,
    pub statement_index: usize,
}

#[derive(Clone, Copy, Debug, PartialEq, Eq, Structural)]
pub struct MutantRange {
    pub start: MutantLocation,
    pub end: MutantLocation,
}

/// What a mutation did: the place that it found and the statements that it put in.
#[derive(Clone, Copy, Debug, PartialEq, Eq, Structural)]
pub enum MutantInfo {
    ExpirySequence { first: Statement, second: Statement },
    Lent { place: Place, inserted: Statement },
    Shared { place: Place, inserted: Statement },
    WriteOnly { place: Place, inserted: Statement },
}

impl MutantInfo {
    pub open spec fn spec_describe(self, place: Seq<char>, inserted: Seq<char>) -> Seq<char> {
        match self {
            MutantInfo::ExpirySequence { .. } => "created mutant expiry sequence "@ + inserted,
            MutantInfo::Lent { .. } => place + " was lent, so inserted "@ + inserted,
            MutantInfo::Shared { .. } => place + " was shared, so inserted "@ + inserted,
            MutantInfo::WriteOnly { .. } => place + " was write-only, so inserted "@ + inserted,
        }
    }

    /// The description of the mutation, given how the compiler writes the place and the
    /// inserted statements.
    pub fn describe(&self, place: &str, inserted: &str) -> (res: String)
        ensures
            res@ == self.spec_describe(place@, inserted@),
    {
        match self {
            MutantInfo::ExpirySequence { .. } => {
                "created mutant expiry sequence ".to_string().concat(inserted)
            },
            MutantInfo::Lent { .. } => {
                place.to_string().concat(" was lent, so inserted ").concat(inserted)
            },
            MutantInfo::Shared { .. } => {
                place.to_string().concat(" was shared, so inserted ").concat(inserted)
            },
            MutantInfo::WriteOnly { .. } => {
                place.to_string().concat(" was write-only, so inserted ").concat(inserted)
            },
        }
    }
}

/// A `Mutant` is a MIR `Body` along with a description of the mutation performed
/// and a source range describing where the mutation appears.
pub struct Mutant {
    pub body: Body,
    pub range: MutantRange,
    pub info: MutantInfo,
}

#[verifier::ext_equal]
pub struct MutantView {
    pub body: BodyView,
    pub range: MutantRange,
    pub info: MutantInfo,
}

impl View for Mutant {
    type V = MutantView;

    open spec fn view(&self) -> MutantView {
        MutantView { body: self.body@, range: self.range, info: self.info }
    }
}

/// `res` is the first of the mutants `before`, and `after` are the others; or there is none.
pub open spec fn takes_first(
    before: Seq<MutantView>,
    res: Option<Mutant>,
    after: Seq<MutantView>,
) -> bool {
    if before.len() == 0 {
        &&& res is None
        &&& after == before
    } else {
        &&& res is Some
        &&& res->0@ == before[0]
        &&& after == before.drop_first()
    }
}

/// A source of mutants.
pub trait MutantIterator {
    /// The source can be asked for a mutant.
    spec fn ready(&self) -> bool;

    /// The mutants that are still to come, in their order.
    spec fn remaining(&self) -> Seq<MutantView>;

    /// The next mutant.
    fn next(&mut self) -> (res: Option<Mutant>)
        requires
            old(self).ready(),
        ensures
            final(self).ready(),
            takes_first(old(self).remaining(), res, final(self).remaining()),
    ;
}

/// The mutants that one mutation makes between two consecutive statements.
pub struct MutantStream<'a> {
    // A tuple, so that storing the box leaves its type as it is.
    iter: (Box<dyn MutantIterator + 'a>,),
}

impl<'a> MutantStream<'a> {
    pub closed spec fn ready(&self) -> bool {
        self.iter.0.ready()
    }

    /// The mutants that are still to come, in their order.
    pub closed spec fn remaining(&self) -> Seq<MutantView> {
        self.iter.0.remaining()
    }

    pub fn new(iter: Box<dyn MutantIterator + 'a>) -> (res: Self)
        ensures
            res.ready() == iter.ready(),
            res.remaining() == iter.remaining(),
    {
        let iter = (iter,);
        Self { iter }
    }

    /// The next mutant.
    pub fn next(&mut self) -> (res: Option<Mutant>)
        requires
            old(self).ready(),
        ensures
            final(self).ready(),
            takes_first(old(self).remaining(), res, final(self).remaining()),
    {
        self.iter.0.next()
    }
}

/// A `Mutation` uses a MIR `Body` and the analyses for two consecutive
/// statements to produce a set of mutant MIR `Body`s.
pub trait Mutation {
    /// The mutation can work on these inputs.
    spec fn applicable(
        &self,
        ctx: CompilerCtxt,
        body: BodyView,
        curr: PcgLocation,
        next: PcgLocation,
    ) -> bool;

    /// The mutation may make the mutants `mutants`, in this order. Where the order is
    /// open, several sequences qualify.
    spec fn produces(
        &self,
        ctx: CompilerCtxt,
        body: BodyView,
        curr: PcgLocation,
        next: PcgLocation,
        mutants: Seq<MutantView>,
    ) -> bool;

    spec fn spec_name(&self) -> Seq<char>;

    fn make_stream<'a>(
        &self,
        ctx: &'a CompilerCtxt,
        body: &'a Body,
        curr: &'a PcgLocation,
        next: &'a PcgLocation,
    ) -> (res: MutantStream<'a>)
        requires
            self.applicable(*ctx, body@, *curr, *next),
        ensures
            res.ready(),
            self.produces(*ctx, body@, *curr, *next, res.remaining()),
    ;

    /// Whether the mutation can work on these inputs.
    fn is_applicable(
        &self,
        ctx: &CompilerCtxt,
        body: &Body,
        curr: &PcgLocation,
        next: &PcgLocation,
    ) -> (res: bool)
        ensures
            res == self.applicable(*ctx, body@, *curr, *next),
    ;

    fn name(&self) -> (res: String)
        ensures
            res@ == self.spec_name(),
    ;
}

/// The pairs of consecutive statements from the statement with index `from` on.
pub open spec fn pairs_in_block(statements: Seq<PcgLocation>, from: int) -> Seq<
    (PcgLocation, PcgLocation),
> {
    if from + 1 < statements.len() {
        Seq::new(
            (statements.len() - 1 - from) as nat,
            |i: int| (statements[from + i], statements[from + i + 1]),
        )
    } else {
        Seq::empty()
    }
}

/// What the analysis says of a block's statements. Of a block that it does not reach or
/// gave up on, it says nothing.
pub open spec fn analysed_statements(analysis: PcgOutput, block: usize) -> Seq<PcgLocation> {
    match analysis.blocks@[block as int] {
        Ok(Some(pcg_bb)) => pcg_bb.statements@,
        _ => Seq::empty(),
    }
}

/// The pairs of consecutive statements of `blocks`, block by block.
pub open spec fn pairs_in_blocks(analysis: PcgOutput, blocks: Seq<usize>) -> Seq<
    (PcgLocation, PcgLocation),
>
    decreases blocks.len(),
{
    if blocks.len() == 0 {
        Seq::empty()
    } else {
        pairs_in_block(analysed_statements(analysis, blocks[0]), 0) + pairs_in_blocks(
            analysis,
            blocks.drop_first(),
        )
    }
}

/// The pairs of consecutive statements of the whole function.
pub open spec fn pairs_in_body(analysis: PcgOutput, body: BodyView) -> Seq<
    (PcgLocation, PcgLocation),
> {
    pairs_in_blocks(analysis, Seq::new(body.blocks.len(), |i: int| i as usize))
}

/// The first `k` pairs of `todo` give no mutants, and the pair after them gives `mutants`,
/// the first of which is `res`.
pub open spec fn found_at(
    mutation: &Box<dyn Mutation>,
    ctx: CompilerCtxt,
    body: BodyView,
    todo: Seq<(PcgLocation, PcgLocation)>,
    k: int,
    mutants: Seq<MutantView>,
    res: Option<Mutant>,
    after_pending: Seq<MutantView>,
    after_todo: Seq<(PcgLocation, PcgLocation)>,
) -> bool {
    &&& 0 <= k < todo.len()
    &&& forall|i: int|
        0 <= i < k ==> mutation.produces(
            ctx,
            body,
            (#[trigger] todo[i]).0,
            todo[i].1,
            Seq::empty(),
        )
    &&& mutation.produces(ctx, body, todo[k].0, todo[k].1, mutants)
    &&& mutants.len() > 0
    &&& takes_first(mutants, res, after_pending)
    &&& after_todo == todo.skip(k + 1)
}

/// One query of a mutator: before it the mutants `pending` of the current pair of
/// statements were still to come, and then those of the pairs `todo`; `after_pending` and
/// `after_todo` are to come after it.
pub open spec fn next_step(
    mutation: &Box<dyn Mutation>,
    ctx: CompilerCtxt,
    body: BodyView,
    pending: Seq<MutantView>,
    todo: Seq<(PcgLocation, PcgLocation)>,
    res: Option<Mutant>,
    after_pending: Seq<MutantView>,
    after_todo: Seq<(PcgLocation, PcgLocation)>,
) -> bool {
    if pending.len() > 0 {
        &&& takes_first(pending, res, after_pending)
        &&& after_todo == todo
    } else {
        match res {
            None => {
                &&& after_pending.len() == 0
                &&& after_todo.len() == 0
                &&& forall|i: int|
                    0 <= i < todo.len() ==> mutation.produces(
                        ctx,
                        body,
                        (#[trigger] todo[i]).0,
                        todo[i].1,
                        Seq::empty(),
                    )
            },
            Some(_) => {
                exists|k: int, mutants: Seq<MutantView>| #[trigger]
                    found_at(
                        mutation,
                        ctx,
                        body,
                        todo,
                        k,
                        mutants,
                        res,
                        after_pending,
                        after_todo,
                    )
            },
        }
    }
}

/// A `Mutator` generates mutants for a MIR `Body` using a `Mutation`.
/// It can be repeatedly queried for new mutants until it has finished traversing
/// the entire `Body`.
pub struct Mutator<'a> {
    mutation: &'a Box<dyn Mutation>,
    analysis: &'a PcgOutput,
    ctx: &'a CompilerCtxt,
    body: &'a Body,
    mutants: Option<MutantStream<'a>>,
    basic_blocks: VecDeque<usize>,
    bb_stmts: Option<&'a Vec<PcgLocation>>,
    stmt_idx: usize,
}

impl<'a> Mutator<'a> {
    pub closed spec fn mutation(&self) -> &Box<dyn Mutation> {
        self.mutation
    }

    pub closed spec fn ctx(&self) -> CompilerCtxt {
        *self.ctx
    }

    pub closed spec fn body(&self) -> BodyView {
        self.body@
    }

    /// The mutants of the current pair of statements that are still to come.
    pub closed spec fn pending(&self) -> Seq<MutantView> {
        match self.mutants {
            Some(mutants) => mutants.remaining(),
            None => Seq::empty(),
        }
    }

    spec fn pairs_left_in_block(&self) -> Seq<(PcgLocation, PcgLocation)> {
        match self.bb_stmts {
            Some(bb_stmts) => pairs_in_block(bb_stmts@, self.stmt_idx as int),
            None => Seq::empty(),
        }
    }

    /// The pairs of consecutive statements whose mutants are still to come after those.
    pub closed spec fn todo(&self) -> Seq<(PcgLocation, PcgLocation)> {
        self.pairs_left_in_block() + pairs_in_blocks(*self.analysis, self.basic_blocks@)
    }

    /// The whole body has been traversed: there is nothing left to ask for a mutant.
    pub closed spec fn is_exhausted(&self) -> bool {
        &&& self.mutants is None
        &&& self.pairs_left_in_block().len() == 0
        &&& self.basic_blocks@.len() == 0
    }

    pub closed spec fn wf(&self) -> bool {
        &&& (self.mutants matches Some(mutants) ==> mutants.ready())
        &&& forall|i: int|
            0 <= i < self.basic_blocks@.len() ==> #[trigger] self.basic_blocks@[i]
                < self.analysis.blocks@.len()
        &&& forall|i: int|
            0 <= i < self.todo().len() ==> self.mutation.applicable(
                *self.ctx,
                self.body@,
                (#[trigger] self.todo()[i]).0,
                self.todo()[i].1,
            )
    }

    pub fn new(
        mutation: &'a Box<dyn Mutation>,
        ctx: &'a CompilerCtxt,
        analysis: &'a PcgOutput,
        body: &'a Body,
    ) -> (res: Self)
        requires
            body@.blocks.len() <= analysis.blocks@.len(),
            forall|i: int|
                0 <= i < pairs_in_body(*analysis, body@).len() ==> mutation.applicable(
                    *ctx,
                    body@,
                    (#[trigger] pairs_in_body(*analysis, body@)[i]).0,
                    pairs_in_body(*analysis, body@)[i].1,
                ),
        ensures
            res.wf(),
            res.mutation() == mutation,
            res.ctx() == *ctx,
            res.body() == body@,
            res.pending().len() == 0,
            res.todo() == pairs_in_body(*analysis, body@),
            body@.blocks.len() == 0 ==> res.is_exhausted(),
    {
        let mut basic_blocks: VecDeque<usize> = VecDeque::new();
        let count: usize = body.basic_blocks.len();
        let mut i: usize = 0;
        while i < count
            invariant
                i <= count,
                basic_blocks@ == Seq::new(i as nat, |j: int| j as usize),
            decreases count - i,
        {
            basic_blocks.push_back(i);
            i = i + 1;
            assert(basic_blocks@ =~= Seq::new(i as nat, |j: int| j as usize));
        }
        let res = Self {
            mutation,
            analysis,
            ctx,
            body,
            mutants: None,
            basic_blocks,
            bb_stmts: None,
            stmt_idx: 0,
        };
        assert(res.todo() =~= pairs_in_body(*analysis, body@));
        res
    }

    pub fn name(&self) -> (res: String)
        ensures
            res@ == self.mutation().spec_name(),
    {
        self.mutation.name()
    }

    fn curr_bb(&self) -> (res: Option<usize>)
        ensures
            res == (if self.basic_blocks@.len() == 0 {
                None
            } else {
                Some(self.basic_blocks@[0])
            }),
    {
        if self.basic_blocks.len() == 0 {
            None
        } else {
            Some(self.basic_blocks[0])
        }
    }

    /// Returns the next `Mutant` that can be generated from this body.
    pub fn next(&mut self) -> (res: Option<Mutant>)
        requires
            old(self).wf(),
        ensures
            final(self).wf(),
            final(self).mutation() == old(self).mutation(),
            final(self).ctx() == old(self).ctx(),
            final(self).body() == old(self).body(),
            next_step(
                old(self).mutation(),
                old(self).ctx(),
                old(self).body(),
                old(self).pending(),
                old(self).todo(),
                res,
                final(self).pending(),
                final(self).todo(),
            ),
            res is None ==> final(self).is_exhausted(),
            old(self).is_exhausted() ==> res is None && *final(self) == *old(self),
    {
        let ghost mutation = self.mutation();
        let ghost ctx = self.ctx();
        let ghost body = self.body();
        let ghost pending = self.pending();
        let ghost todo = self.todo();
        // How many of the pairs of `todo` have been taken up.
        let ghost mut taken: int = 0;
        // Seek until we generate some `Mutant`s or finish traversing the body.
        loop
            invariant
                self.wf(),
                self.mutation() == mutation,
                self.ctx() == ctx,
                self.body() == body,
                mutation == old(self).mutation(),
                ctx == old(self).ctx(),
                body == old(self).body(),
                pending == old(self).pending(),
                todo == old(self).todo(),
                0 <= taken <= todo.len(),
                self.todo() == todo.skip(taken),
                taken == 0 ==> self.pending() == pending,
                old(self).is_exhausted() ==> *self == *old(self),
                taken > 0 ==> {
                    &&& pending.len() == 0
                    &&& mutation.produces(
                        ctx,
                        body,
                        todo[taken - 1].0,
                        todo[taken - 1].1,
                        self.pending(),
                    )
                },
                forall|i: int|
                    0 <= i < taken - 1 ==> mutation.produces(
                        ctx,
                        body,
                        (#[trigger] todo[i]).0,
                        todo[i].1,
                        Seq::empty(),
                    ),
            decreases self.basic_blocks@.len(), self.pairs_left_in_block().len(),
        {
            let ghost before = *self;
            if let Some(mutants) = &mut self.mutants {
                let mutant = mutants.next();
                if mutant.is_some() {
                    proof {
                        assert(self.todo() == before.todo());
                        assert(takes_first(before.pending(), mutant, self.pending()));
                        assert(todo.skip(0) =~= todo);
                        if taken > 0 {
                            let k = taken - 1;
                            assert(found_at(
                                mutation,
                                ctx,
                                body,
                                todo,
                                k,
                                before.pending(),
                                mutant,
                                self.pending(),
                                self.todo(),
                            ));
                        }
                    }
                    return mutant;
                }
            }
            assert(self.todo() == before.todo());
            assert(self.pending() =~= Seq::empty());
            assert(before.pending() =~= Seq::empty());
            // A stream without mutants is not asked again.
            self.mutants = None;
            if let Some(bb_stmts) = self.bb_stmts {
                if self.stmt_idx < bb_stmts.len() && self.stmt_idx + 1 < bb_stmts.len() {
                    let curr: &'a PcgLocation = &bb_stmts[self.stmt_idx];
                    let next: &'a PcgLocation = &bb_stmts[self.stmt_idx + 1];
                    assert(self.todo()[0] == (*curr, *next));
                    assert(todo.skip(taken)[0] == todo[taken]);
                    let stream = self.mutation.make_stream(self.ctx, self.body, curr, next);
                    self.mutants = Some(stream);
                    self.stmt_idx = self.stmt_idx + 1;
                    proof {
                        assert(self.pairs_left_in_block()
                            =~= before.pairs_left_in_block().drop_first());
                        assert(self.todo() =~= before.todo().drop_first());
                        assert(self.todo() =~= todo.skip(taken + 1));
                        assert forall|i: int| 0 <= i < self.todo().len() implies mutation.applicable(
                            ctx,
                            body,
                            (#[trigger] self.todo()[i]).0,
                            self.todo()[i].1,
                        ) by {
                            assert(self.todo()[i] == before.todo()[i + 1]);
                        }
                        taken = taken + 1;
                    }
                    continue;
                }
            }
            assert(self.pairs_left_in_block() =~= Seq::empty());
            // The last block has left the queue by the time its statements are visited, so
            // an empty queue alone does not end the traversal.
            match self.curr_bb() {
                Some(curr_bb) => {
                    self.stmt_idx = 0;
                    self.bb_stmts = match self.analysis.get_all_for_bb(curr_bb) {
                        Ok(Some(pcg_bb)) => Some(&pcg_bb.statements),
                        _ => None,
                    };
                    let popped = self.basic_blocks.pop_front();
                    proof {
                        assert(self.basic_blocks@ =~= before.basic_blocks@.drop_first());
                        assert(self.pairs_left_in_block() =~= pairs_in_block(
                            analysed_statements(*self.analysis, curr_bb),
                            0,
                        ));
                        assert(self.todo() =~= before.todo());
                    }
                },
                None => {
                    assert(self.todo() =~= Seq::empty());
                    assert(taken == todo.len());
                    return None;
                },
            }
        }
    }
}

/// `streams` are mutants that the mutation may make for the pairs of `todo`, one sequence
/// for each pair.
pub open spec fn streams_for(
    mutation: &Box<dyn Mutation>,
    ctx: CompilerCtxt,
    body: BodyView,
    todo: Seq<(PcgLocation, PcgLocation)>,
    streams: Seq<Seq<MutantView>>,
) -> bool {
    &&& streams.len() == todo.len()
    &&& forall|i: int|
        #![trigger streams[i]]
        #![trigger todo[i]]
        0 <= i < todo.len() ==> mutation.produces(
            ctx,
            body,
            todo[i].0,
            todo[i].1,
            streams[i],
        )
}

/// `out` are the mutants `pending`, and then those of each pair of `todo` in turn.
pub open spec fn is_traversal(
    mutation: &Box<dyn Mutation>,
    ctx: CompilerCtxt,
    body: BodyView,
    pending: Seq<MutantView>,
    todo: Seq<(PcgLocation, PcgLocation)>,
    out: Seq<MutantView>,
) -> bool {
    exists|streams: Seq<Seq<MutantView>>|
        #[trigger] streams_for(mutation, ctx, body, todo, streams) && out == pending
            + streams.flatten()
}

pub(crate) proof fn lemma_flatten_empties(streams: Seq<Seq<MutantView>>)
    requires
        forall|i: int| 0 <= i < streams.len() ==> (#[trigger] streams[i]).len() == 0,
    ensures
        streams.flatten() == Seq::<MutantView>::empty(),
    decreases streams.len(),
{
    if streams.len() > 0 {
        assert(streams.first() == streams[0]);
        assert forall|i: int| 0 <= i < streams.drop_first().len() implies (
        #[trigger] streams.drop_first()[i]).len() == 0 by {
            assert(streams.drop_first()[i] == streams[i + 1]);
        }
        lemma_flatten_empties(streams.drop_first());
        assert(streams.flatten() =~= Seq::<MutantView>::empty());
    }
}

/// A query that finds a mutant puts it before all those that the later queries find.
pub proof fn law_next_leads_the_traversal(
    mutation: &Box<dyn Mutation>,
    ctx: CompilerCtxt,
    body: BodyView,
    pending: Seq<MutantView>,
    todo: Seq<(PcgLocation, PcgLocation)>,
    mutant: Mutant,
    after_pending: Seq<MutantView>,
    after_todo: Seq<(PcgLocation, PcgLocation)>,
    later: Seq<MutantView>,
)
    requires
        next_step(mutation, ctx, body, pending, todo, Some(mutant), after_pending, after_todo),
        is_traversal(mutation, ctx, body, after_pending, after_todo, later),
    ensures
        is_traversal(mutation, ctx, body, pending, todo, seq![mutant@] + later),
{
    let after = choose|streams: Seq<Seq<MutantView>>|
        #[trigger] streams_for(mutation, ctx, body, after_todo, streams) && later == after_pending
            + streams.flatten();
    let out = seq![mutant@] + later;
    if pending.len() > 0 {
        assert(pending =~= seq![mutant@] + after_pending);
        assert(out =~= pending + after.flatten());
        assert(streams_for(mutation, ctx, body, todo, after));
    } else {
        let (k, mutants) = choose|k: int, mutants: Seq<MutantView>| #[trigger]
            found_at(
                mutation,
                ctx,
                body,
                todo,
                k,
                mutants,
                Some(mutant),
                after_pending,
                after_todo,
            );
        let none = Seq::new(k as nat, |i: int| Seq::<MutantView>::empty());
        let found = seq![mutants];
        let streams = none + (found + after);
        assert forall|i: int|
            #![trigger streams[i]]
            #![trigger todo[i]]
            0 <= i < todo.len() implies mutation.produces(
            ctx,
            body,
            todo[i].0,
            todo[i].1,
            streams[i],
        ) by {
            if i > k {
                assert(after_todo[i - k - 1] == todo[i]);
                assert(streams[i] == after[i - k - 1]);
            }
        }
        lemma_flatten_empties(none);
        found.lemma_flatten_one_element();
        vstd::seq_lib::lemma_flatten_concat(found, after);
        vstd::seq_lib::lemma_flatten_concat(none, found + after);
        assert(mutants =~= seq![mutant@] + after_pending);
        assert(streams_for(mutation, ctx, body, todo, streams));
        assert(out =~= pending + streams.flatten());
    }
}

/// A query that finds a mutant leaves fewer pairs to come, or the same pairs and fewer
/// mutants before them.
pub proof fn law_next_makes_progress(
    mutation: &Box<dyn Mutation>,
    ctx: CompilerCtxt,
    body: BodyView,
    pending: Seq<MutantView>,
    todo: Seq<(PcgLocation, PcgLocation)>,
    mutant: Mutant,
    after_pending: Seq<MutantView>,
    after_todo: Seq<(PcgLocation, PcgLocation)>,
)
    requires
        next_step(mutation, ctx, body, pending, todo, Some(mutant), after_pending, after_todo),
    ensures
        after_todo.len() < todo.len() || after_todo == todo && after_pending.len() < pending.len(),
{
}

/// Queried until it has no more mutants, a mutator gives those of its current pair of
/// statements, and then those of every pair that was left, each once and in their order.
/// `pending` and `todo` hold the state before each query and after the last one; the
/// query after those that gave `mutants` gave none.
pub proof fn law_queries_traverse_everything(
    mutation: &Box<dyn Mutation>,
    ctx: CompilerCtxt,
    body: BodyView,
    pending: Seq<Seq<MutantView>>,
    todo: Seq<Seq<(PcgLocation, PcgLocation)>>,
    mutants: Seq<Mutant>,
)
    requires
        pending.len() == mutants.len() + 2,
        todo.len() == mutants.len() + 2,
        forall|i: int|
            0 <= i < mutants.len() ==> next_step(
                mutation,
                ctx,
                body,
                pending[i],
                todo[i],
                Some(#[trigger] mutants[i]),
                pending[i + 1],
                todo[i + 1],
            ),
        next_step(
            mutation,
            ctx,
            body,
            pending[mutants.len() as int],
            todo[mutants.len() as int],
            None,
            pending.last(),
            todo.last(),
        ),
    ensures
        is_traversal(
            mutation,
            ctx,
            body,
            pending[0],
            todo[0],
            mutants.map_values(|mutant: Mutant| mutant@),
        ),
    decreases mutants.len(),
{
    let out = mutants.map_values(|mutant: Mutant| mutant@);
    if mutants.len() == 0 {
        let streams = Seq::new(todo[0].len(), |i: int| Seq::<MutantView>::empty());
        lemma_flatten_empties(streams);
        assert(streams_for(mutation, ctx, body, todo[0], streams));
        assert(out =~= pending[0] + streams.flatten());
    } else {
        let later = mutants.drop_first();
        assert forall|i: int| 0 <= i < later.len() implies next_step(
            mutation,
            ctx,
            body,
            pending.drop_first()[i],
            todo.drop_first()[i],
            Some(#[trigger] later[i]),
            pending.drop_first()[i + 1],
            todo.drop_first()[i + 1],
        ) by {
            assert(later[i] == mutants[i + 1]);
        }
        law_queries_traverse_everything(
            mutation,
            ctx,
            body,
            pending.drop_first(),
            todo.drop_first(),
            later,
        );
        let later_out = later.map_values(|mutant: Mutant| mutant@);
        assert(mutants[0] == mutants[0]);
        law_next_leads_the_traversal(
            mutation,
            ctx,
            body,
            pending[0],
            todo[0],
            mutants[0],
            pending[1],
            todo[1],
            later_out,
        );
        assert(out =~= seq![mutants[0]@] + later_out);
    }
}

/// Once a mutator has no more mutants, it stays so.
pub proof fn law_exhausted_stays_exhausted(
    mutation: &Box<dyn Mutation>,
    ctx: CompilerCtxt,
    body: BodyView,
    pending: Seq<Seq<MutantView>>,
    todo: Seq<Seq<(PcgLocation, PcgLocation)>>,
    res: Option<Mutant>,
)
    requires
        pending.len() == 3,
        todo.len() == 3,
        next_step(mutation, ctx, body, pending[0], todo[0], None, pending[1], todo[1]),
        next_step(mutation, ctx, body, pending[1], todo[1], res, pending[2], todo[2]),
    ensures
        res is None,
{
}

proof fn lemma_pairs_of_more_blocks(analysis: PcgOutput, first: Seq<usize>, others: Seq<usize>)
    ensures
        pairs_in_blocks(analysis, first + others) == pairs_in_blocks(analysis, first)
            + pairs_in_blocks(analysis, others),
    decreases first.len(),
{
    if first.len() == 0 {
        assert(first + others =~= others);
        assert(pairs_in_blocks(analysis, others) =~= Seq::empty() + pairs_in_blocks(
            analysis,
            others,
        ));
    } else {
        assert((first + others).drop_first() =~= first.drop_first() + others);
        lemma_pairs_of_more_blocks(analysis, first.drop_first(), others);
        assert(pairs_in_blocks(analysis, first + others) =~= pairs_in_blocks(analysis, first)
            + pairs_in_blocks(analysis, others));
    }
}

/// The pairs of the whole function are those of the first `block` blocks, those of the next
/// one, and then the others.
pub(crate) proof fn lemma_pairs_of_block(analysis: PcgOutput, body: BodyView, block: int)
    requires
        0 <= block < body.blocks.len() <= usize::MAX,
    ensures
        ({
            let blocks = Seq::new(body.blocks.len(), |i: int| i as usize);
            let before = pairs_in_blocks(analysis, blocks.take(block));
            let here = pairs_in_block(analysed_statements(analysis, block as usize), 0);
            &&& pairs_in_blocks(analysis, blocks.take(block + 1)) == before + here
            &&& pairs_in_body(analysis, body) == before + here + pairs_in_blocks(
                analysis,
                blocks.skip(block + 1),
            )
        }),
{
    let blocks = Seq::new(body.blocks.len(), |i: int| i as usize);
    let one = seq![block as usize];
    assert(blocks.take(block + 1) =~= blocks.take(block) + one);
    assert(blocks =~= blocks.take(block + 1) + blocks.skip(block + 1));
    lemma_pairs_of_more_blocks(analysis, blocks.take(block), one);
    lemma_pairs_of_more_blocks(analysis, blocks.take(block + 1), blocks.skip(block + 1));
    assert(pairs_in_blocks(analysis, one.drop_first()).len() == 0);
    assert(pairs_in_blocks(analysis, one) =~= pairs_in_block(
        analysed_statements(analysis, block as usize),
        0,
    ));
}

/// `pair` are statements `j` and `j + 1` of what the analysis says of block `block`.
pub open spec fn is_pair_at(
    analysis: PcgOutput,
    body: BodyView,
    block: int,
    j: int,
    pair: (PcgLocation, PcgLocation),
) -> bool {
    &&& 0 <= block < body.blocks.len()
    &&& analysis.blocks@[block] matches Ok(Some(pcg_bb))
    &&& 0 <= j
    &&& j + 1 < pcg_bb.statements@.len()
    &&& pair == (pcg_bb.statements@[j], pcg_bb.statements@[j + 1])
}

/// `a` is in an earlier block than `b`, or earlier in the same one.
pub open spec fn is_before(a: (int, int), b: (int, int)) -> bool {
    a.0 < b.0 || a.0 == b.0 && a.1 < b.1
}

/// Where the pairs of the first `n` blocks stand.
spec fn pair_positions(analysis: PcgOutput, n: nat) -> Seq<(int, int)>
    decreases n,
{
    if n == 0 {
        Seq::empty()
    } else {
        let statements = analysed_statements(analysis, (n - 1) as usize);
        pair_positions(analysis, (n - 1) as nat) + Seq::new(
            pairs_in_block(statements, 0).len(),
            |j: int| (n - 1, j),
        )
    }
}

proof fn lemma_pair_positions(analysis: PcgOutput, body: BodyView, n: nat)
    requires
        n <= body.blocks.len() <= usize::MAX,
    ensures
        ({
            let blocks = Seq::new(body.blocks.len(), |i: int| i as usize);
            let pairs = pairs_in_blocks(analysis, blocks.take(n as int));
            let at = pair_positions(analysis, n);
            &&& at.len() == pairs.len()
            &&& forall|i: int|
                0 <= i < at.len() ==> {
                    &&& (#[trigger] at[i]).0 < n
                    &&& is_pair_at(analysis, body, at[i].0, at[i].1, pairs[i])
                }
            &&& forall|i: int, k: int| 0 <= i < k < at.len() ==> is_before(at[i], at[k])
            &&& forall|b: int, j: int, pair: (PcgLocation, PcgLocation)|
                b < n && #[trigger] is_pair_at(analysis, body, b, j, pair) ==> at.contains((b, j))
        }),
    decreases n,
{
    let blocks = Seq::new(body.blocks.len(), |i: int| i as usize);
    let at = pair_positions(analysis, n);
    if n == 0 {
        assert(blocks.take(0) =~= Seq::empty());
    } else {
        let b = n - 1;
        lemma_pair_positions(analysis, body, b as nat);
        lemma_pairs_of_block(analysis, body, b);
        let before = pairs_in_blocks(analysis, blocks.take(b));
        let here = pairs_in_block(analysed_statements(analysis, b as usize), 0);
        let pairs = pairs_in_blocks(analysis, blocks.take(n as int));
        let at_before = pair_positions(analysis, b as nat);
        assert forall|i: int| 0 <= i < at.len() implies {
            &&& (#[trigger] at[i]).0 < n
            &&& is_pair_at(analysis, body, at[i].0, at[i].1, pairs[i])
        } by {
            if i < at_before.len() {
                assert(at[i] == at_before[i]);
                assert(pairs[i] == before[i]);
            } else {
                assert(pairs[i] == here[i - before.len()]);
            }
        }
        assert forall|i: int, k: int| 0 <= i < k < at.len() implies is_before(at[i], at[k]) by {
            if k < at_before.len() {
                assert(at[i] == at_before[i] && at[k] == at_before[k]);
            } else if i < at_before.len() {
                assert(at[i] == at_before[i]);
                assert(at_before[i].0 < b);
            }
        }
        assert forall|c: int, j: int, pair: (PcgLocation, PcgLocation)|
            c < n && #[trigger] is_pair_at(analysis, body, c, j, pair) implies at.contains(
            (c, j),
        ) by {
            if c < b {
                assert(at_before.contains((c, j)));
                let i = choose|i: int| 0 <= i < at_before.len() && at_before[i] == (c, j);
                assert(at[i] == (c, j));
            } else {
                assert(at[at_before.len() + j] == (c, j));
            }
        }
    }
}

/// The walk visits every pair of consecutive statements that the analysis knows of, in every
/// block of the body, the last one too: each pair once, block by block, and from the beginning
/// of each block to its end.
pub proof fn law_every_pair_is_visited_in_order(analysis: PcgOutput, body: BodyView)
    requires
        body.blocks.len() <= usize::MAX,
    ensures
        exists|at: Seq<(int, int)>|
            #![trigger at.no_duplicates()]
            {
                &&& at.no_duplicates()
                &&& at.len() == pairs_in_body(analysis, body).len()
                &&& forall|i: int|
                    0 <= i < at.len() ==> is_pair_at(
                        analysis,
                        body,
                        (#[trigger] at[i]).0,
                        at[i].1,
                        pairs_in_body(analysis, body)[i],
                    )
                &&& forall|i: int, k: int| 0 <= i < k < at.len() ==> is_before(at[i], at[k])
                &&& forall|b: int, j: int, pair: (PcgLocation, PcgLocation)| #[trigger]
                    is_pair_at(analysis, body, b, j, pair) ==> at.contains((b, j))
            },
{
    let blocks = Seq::new(body.blocks.len(), |i: int| i as usize);
    let at = pair_positions(analysis, body.blocks.len());
    lemma_pair_positions(analysis, body, body.blocks.len());
    assert(blocks.take(body.blocks.len() as int) =~= blocks);
    assert(at.no_duplicates()) by {
        assert forall|i: int, k: int|
            0 <= i < at.len() && 0 <= k < at.len() && i != k implies at[i] != at[k] by {
            if i < k {
                assert(is_before(at[i], at[k]));
            } else {
                assert(is_before(at[k], at[i]));
            }
        }
    }
}

/// The description of a mutant says which place was found to be what, and ends with what was
/// put in.
pub proof fn law_descriptions(info: MutantInfo, place: Seq<char>, inserted: Seq<char>)
    ensures
        info.spec_describe(place, inserted) == (match info {
            MutantInfo::ExpirySequence { .. } => "created mutant expiry sequence "@,
            MutantInfo::Lent { .. } => place + " was lent, so inserted "@,
            MutantInfo::Shared { .. } => place + " was shared, so inserted "@,
            MutantInfo::WriteOnly { .. } => place + " was write-only, so inserted "@,
        }) + inserted,
{
}

/// The view of a mutant is the mutant.
pub proof fn law_mutants_are_what_they_look_like(mutant: Mutant)
    ensures
        mutant@.range == mutant.range,
        mutant@.info == mutant.info,
        mutant@.body.locals == mutant.body.local_decls@,
        mutant@.body.blocks.len() == mutant.body.basic_blocks@.len(),
        forall|b: int|
            0 <= b < mutant.body.basic_blocks@.len() ==> {
                &&& (#[trigger] mutant@.body.blocks[b]).statements
                    == mutant.body.basic_blocks@[b].statements@
                &&& mutant@.body.blocks[b].terminator == mutant.body.basic_blocks@[b].terminator
            },
{
}

} // verus!
