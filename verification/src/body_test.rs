//! Testing one function: every mutation gets its turn, and every mutant is counted.

use crate::mir::{Body, BodyView};
use crate::mutator::mutator_impl::{
    analysed_statements, is_pair_at, is_traversal, law_every_pair_is_visited_in_order,
    law_next_leads_the_traversal, law_queries_traverse_everything, lemma_flatten_empties,
    lemma_pairs_of_block, next_step, pairs_in_block, pairs_in_blocks, pairs_in_body, Mutant,
    MutantView, Mutation, Mutator,
};
use crate::pcg::{CompilerCtxt, PcgLocation, PcgOutput};
use crate::results::{no_data, MutatorDataView, TestRun};
use vstd::prelude::*;

verus! {

/// How far a test has come: `started` mutations have had their turn or have it now, and of
/// the last of them the mutants `pending` and then those of the pairs of statements `todo`
/// are still to come.
pub struct Position {
    pub started: nat,
    pub pending: Seq<MutantView>,
    pub todo: Seq<(PcgLocation, PcgLocation)>,
}

/// The results once the mutations from `from` up to `to` have a record.
pub open spec fn opened(
    results: Map<Seq<char>, MutatorDataView>,
    mutations: Seq<Box<dyn Mutation>>,
    from: int,
    to: int,
) -> Map<Seq<char>, MutatorDataView>
    decreases to - from,
{
    if to <= from {
        results
    } else {
        let before = opened(results, mutations, from, to - 1);
        let name = mutations[to - 1].spec_name();
        if before.contains_key(name) {
            before
        } else {
            before.insert(name, no_data())
        }
    }
}

/// The results once a mutant of the mutation `name` is counted.
pub open spec fn counted(
    results: Map<Seq<char>, MutatorDataView>,
    name: Seq<char>,
) -> Map<Seq<char>, MutatorDataView> {
    results.insert(
        name,
        MutatorDataView { instances: results[name].instances + 1, ..results[name] },
    )
}

/// Every mutant can be counted.
pub open spec fn countable(results: Map<Seq<char>, MutatorDataView>) -> bool {
    forall|name: Seq<char>| #[trigger]
        results.contains_key(name) ==> results[name].instances < u64::MAX
}

/// The mutation may have no mutants left.
pub open spec fn may_be_done(
    mutation: &Box<dyn Mutation>,
    ctx: CompilerCtxt,
    body: BodyView,
    pending: Seq<MutantView>,
    todo: Seq<(PcgLocation, PcgLocation)>,
) -> bool {
    next_step(mutation, ctx, body, pending, todo, None, Seq::empty(), Seq::empty())
}

/// The mutation under way has no mutants left.
pub open spec fn current_done(
    mutations: Seq<Box<dyn Mutation>>,
    ctx: CompilerCtxt,
    body: BodyView,
    before: Position,
) -> bool {
    before.started > 0 ==> may_be_done(
        &mutations[before.started - 1],
        ctx,
        body,
        before.pending,
        before.todo,
    )
}

/// The mutations from `from` up to `to` have no mutants at all.
pub open spec fn done_from_start(
    mutations: Seq<Box<dyn Mutation>>,
    ctx: CompilerCtxt,
    analysis: PcgOutput,
    body: BodyView,
    from: int,
    to: int,
) -> bool {
    forall|i: int|
        from <= i < to ==> may_be_done(
            &#[trigger] mutations[i],
            ctx,
            body,
            Seq::empty(),
            pairs_in_body(analysis, body),
        )
}

/// `mutant` is the next one of the mutation under way.
pub open spec fn step_in_current(
    mutations: Seq<Box<dyn Mutation>>,
    ctx: CompilerCtxt,
    body: BodyView,
    before: Position,
    results: Map<Seq<char>, MutatorDataView>,
    mutant: Mutant,
    after: Position,
    after_results: Map<Seq<char>, MutatorDataView>,
) -> bool {
    &&& before.started > 0
    &&& after.started == before.started
    &&& next_step(
        &mutations[before.started - 1],
        ctx,
        body,
        before.pending,
        before.todo,
        Some(mutant),
        after.pending,
        after.todo,
    )
    &&& after_results == counted(results, mutations[before.started - 1].spec_name())
}

/// `mutant` is the first one of mutation `k`, and those before it have none left.
pub open spec fn step_to_mutation(
    mutations: Seq<Box<dyn Mutation>>,
    ctx: CompilerCtxt,
    analysis: PcgOutput,
    body: BodyView,
    before: Position,
    results: Map<Seq<char>, MutatorDataView>,
    mutant: Mutant,
    k: int,
    after: Position,
    after_results: Map<Seq<char>, MutatorDataView>,
) -> bool {
    &&& before.started <= k < mutations.len()
    &&& current_done(mutations, ctx, body, before)
    &&& done_from_start(mutations, ctx, analysis, body, before.started as int, k)
    &&& next_step(
        &mutations[k],
        ctx,
        body,
        Seq::empty(),
        pairs_in_body(analysis, body),
        Some(mutant),
        after.pending,
        after.todo,
    )
    &&& after.started == k + 1
    &&& after_results == counted(
        opened(results, mutations, before.started as int, k + 1),
        mutations[k].spec_name(),
    )
}

/// One query of a test.
pub open spec fn test_step(
    mutations: Seq<Box<dyn Mutation>>,
    ctx: CompilerCtxt,
    analysis: PcgOutput,
    body: BodyView,
    before: Position,
    results: Map<Seq<char>, MutatorDataView>,
    res: Option<Mutant>,
    after: Position,
    after_results: Map<Seq<char>, MutatorDataView>,
) -> bool {
    match res {
        Some(mutant) => {
            ||| step_in_current(
                mutations,
                ctx,
                body,
                before,
                results,
                mutant,
                after,
                after_results,
            )
            ||| exists|k: int| #[trigger]
                step_to_mutation(
                    mutations,
                    ctx,
                    analysis,
                    body,
                    before,
                    results,
                    mutant,
                    k,
                    after,
                    after_results,
                )
        },
        None => {
            &&& current_done(mutations, ctx, body, before)
            &&& done_from_start(
                mutations,
                ctx,
                analysis,
                body,
                before.started as int,
                mutations.len() as int,
            )
            &&& after.started == mutations.len()
            &&& after_results == opened(
                results,
                mutations,
                before.started as int,
                mutations.len() as int,
            )
        },
    }
}

/// Every mutation can work on every pair of consecutive statements of the function.
pub open spec fn all_applicable(
    mutations: Seq<Box<dyn Mutation>>,
    ctx: CompilerCtxt,
    analysis: PcgOutput,
    body: BodyView,
) -> bool {
    forall|m: int, i: int|
        #![trigger mutations[m], pairs_in_body(analysis, body)[i]]
        0 <= m < mutations.len() && 0 <= i < pairs_in_body(analysis, body).len()
            ==> mutations[m].applicable(
            ctx,
            body,
            pairs_in_body(analysis, body)[i].0,
            pairs_in_body(analysis, body)[i].1,
        )
}

proof fn lemma_opened(
    results: Map<Seq<char>, MutatorDataView>,
    mutations: Seq<Box<dyn Mutation>>,
    from: int,
    to: int,
)
    requires
        countable(results),
    ensures
        countable(opened(results, mutations, from, to)),
        forall|name: Seq<char>| #[trigger]
            results.contains_key(name) ==> opened(results, mutations, from, to).contains_key(name),
        from < to ==> opened(results, mutations, from, to).contains_key(
            mutations[to - 1].spec_name(),
        ),
    decreases to - from,
{
    if from < to {
        lemma_opened(results, mutations, from, to - 1);
    }
}

/// Runs every `Mutation` on a given MIR body.
pub struct BodyTest<'a> {
    mutations: &'a Vec<Box<dyn Mutation>>,
    ctx: &'a CompilerCtxt,
    analysis: &'a PcgOutput,
    body: &'a Body,
    started: usize,
    mutator: Option<Mutator<'a>>,
}

impl<'a> BodyTest<'a> {
    pub closed spec fn mutations(&self) -> Seq<Box<dyn Mutation>> {
        self.mutations@
    }

    pub closed spec fn ctx(&self) -> CompilerCtxt {
        *self.ctx
    }

    pub closed spec fn analysis(&self) -> PcgOutput {
        *self.analysis
    }

    pub closed spec fn body(&self) -> BodyView {
        self.body@
    }

    pub closed spec fn position(&self) -> Position {
        Position {
            started: self.started as nat,
            pending: match self.mutator {
                Some(mutator) => mutator.pending(),
                None => Seq::empty(),
            },
            todo: match self.mutator {
                Some(mutator) => mutator.todo(),
                None => Seq::empty(),
            },
        }
    }

    pub closed spec fn wf(&self) -> bool {
        &&& self.body@.blocks.len() <= self.analysis.blocks@.len()
        &&& all_applicable(self.mutations@, *self.ctx, *self.analysis, self.body@)
        &&& self.started <= self.mutations@.len()
        &&& self.started > 0 <==> self.mutator is Some
        &&& self.mutator matches Some(mutator) ==> {
            &&& mutator.wf()
            &&& mutator.mutation() == &self.mutations@[self.started - 1]
            &&& mutator.ctx() == *self.ctx
            &&& mutator.body() == self.body@
        }
    }

    pub fn new(
        mutations: &'a Vec<Box<dyn Mutation>>,
        ctx: &'a CompilerCtxt,
        analysis: &'a PcgOutput,
        body: &'a Body,
    ) -> (res: Self)
        requires
            body@.blocks.len() <= analysis.blocks@.len(),
            all_applicable(mutations@, *ctx, *analysis, body@),
        ensures
            res.wf(),
            res.mutations() == mutations@,
            res.ctx() == *ctx,
            res.analysis() == *analysis,
            res.body() == body@,
            res.position().started == 0,
    {
        BodyTest { mutations, ctx, analysis, body, started: 0, mutator: None }
    }

    /// The name of the mutation under way.
    pub fn mutation_name(&self) -> (res: Option<String>)
        requires
            self.wf(),
        ensures
            res is Some <==> self.position().started > 0,
            res matches Some(name) ==> name@ == self.mutations()[self.position().started
                - 1].spec_name(),
    {
        match &self.mutator {
            Some(mutator) => Some(mutator.name()),
            None => None,
        }
    }

    /// The next mutant to check, once the mutants before it have been checked. The mutation
    /// that made it gets a record in `run`, and the mutant is counted there.
    pub fn next(&mut self, run: &mut TestRun) -> (res: Option<Mutant>)
        requires
            old(self).wf(),
            old(run).wf(),
            countable(old(run).results()),
            old(self).position().started > 0 ==> old(run).results().contains_key(
                old(self).mutations()[old(self).position().started - 1].spec_name(),
            ),
        ensures
            final(self).wf(),
            final(run).wf(),
            final(self).mutations() == old(self).mutations(),
            final(self).ctx() == old(self).ctx(),
            final(self).analysis() == old(self).analysis(),
            final(self).body() == old(self).body(),
            final(run).log() == old(run).log(),
            test_step(
                old(self).mutations(),
                old(self).ctx(),
                old(self).analysis(),
                old(self).body(),
                old(self).position(),
                old(run).results(),
                res,
                final(self).position(),
                final(run).results(),
            ),
    {
        let ghost mutations = self.mutations();
        let ghost ctx = self.ctx();
        let ghost analysis = self.analysis();
        let ghost body = self.body();
        let ghost before = self.position();
        let ghost results = run.results();
        let ghost pairs = pairs_in_body(analysis, body);
        loop
            invariant
                self.wf(),
                run.wf(),
                countable(results),
                run.log() == old(run).log(),
                mutations == old(self).mutations(),
                ctx == old(self).ctx(),
                analysis == old(self).analysis(),
                body == old(self).body(),
                before == old(self).position(),
                results == old(run).results(),
                self.mutations() == mutations,
                self.ctx() == ctx,
                self.analysis() == analysis,
                self.body() == body,
                pairs == pairs_in_body(analysis, body),
                before.started <= self.started <= mutations.len(),
                run.results() == opened(
                    results,
                    mutations,
                    before.started as int,
                    self.started as int,
                ),
                self.started > 0 ==> run.results().contains_key(
                    mutations[self.started - 1].spec_name(),
                ),
                self.started == before.started ==> self.position() == before,
                self.started > before.started ==> {
                    &&& current_done(mutations, ctx, body, before)
                    &&& done_from_start(
                        mutations,
                        ctx,
                        analysis,
                        body,
                        before.started as int,
                        self.started - 1,
                    )
                    &&& self.position().pending == Seq::<MutantView>::empty()
                    &&& self.position().todo == pairs
                },
            decreases mutations.len() - self.started,
        {
            let ghost here = self.position();
            if let Some(mutator) = &mut self.mutator {
                let mutant = mutator.next();
                if mutant.is_some() {
                    let name = mutator.name();
                    proof {
                        lemma_opened(
                            results,
                            mutations,
                            before.started as int,
                            self.started as int,
                        );
                    }
                    run.count_instance(&name);
                    proof {
                        let k = self.started - 1;
                        if self.started == before.started {
                            assert(step_in_current(
                                mutations,
                                ctx,
                                body,
                                before,
                                results,
                                mutant->0,
                                self.position(),
                                run.results(),
                            ));
                        } else {
                            assert(step_to_mutation(
                                mutations,
                                ctx,
                                analysis,
                                body,
                                before,
                                results,
                                mutant->0,
                                k,
                                self.position(),
                                run.results(),
                            ));
                        }
                    }
                    return mutant;
                }
                proof {
                    assert(mutator.pending() =~= Seq::empty());
                    assert(mutator.todo() =~= Seq::empty());
                    assert(may_be_done(
                        &mutations[self.started - 1],
                        ctx,
                        body,
                        here.pending,
                        here.todo,
                    ));
                }
            }
            proof {
                assert(current_done(mutations, ctx, body, before));
                assert(done_from_start(
                    mutations,
                    ctx,
                    analysis,
                    body,
                    before.started as int,
                    self.started as int,
                ));
            }
            if self.started < self.mutations.len() {
                let mutation: &'a Box<dyn Mutation> = &self.mutations[self.started];
                assert(mutation == &mutations[self.started as int]);
                run.start_mutation(mutation.name());
                let mutator = Mutator::new(mutation, self.ctx, self.analysis, self.body);
                self.mutator = Some(mutator);
                self.started = self.started + 1;
                assert(self.position().pending =~= Seq::empty());
            } else {
                return None;
            }
        }
    }
}

/// Every mutation can work on the pair of statements `pair`.
spec fn pair_applicable(
    mutations: Seq<Box<dyn Mutation>>,
    ctx: CompilerCtxt,
    body: BodyView,
    pair: (PcgLocation, PcgLocation),
) -> bool {
    forall|m: int|
        0 <= m < mutations.len() ==> (#[trigger] mutations[m]).applicable(
            ctx,
            body,
            pair.0,
            pair.1,
        )
}

fn check_pair(
    mutations: &Vec<Box<dyn Mutation>>,
    ctx: &CompilerCtxt,
    body: &Body,
    curr: &PcgLocation,
    next: &PcgLocation,
) -> (res: bool)
    ensures
        res == pair_applicable(mutations@, *ctx, body@, (*curr, *next)),
{
    let mut m: usize = 0;
    while m < mutations.len()
        invariant
            m <= mutations.len(),
            forall|k: int|
                0 <= k < m ==> (#[trigger] mutations@[k]).applicable(*ctx, body@, *curr, *next),
        decreases mutations.len() - m,
    {
        let mutation = &mutations[m];
        assert(mutation == &mutations@[m as int]);
        if !mutation.is_applicable(ctx, body, curr, next) {
            return false;
        }
        m = m + 1;
    }
    true
}

/// Whether every mutation can work on every pair of consecutive statements of the function.
fn check_pairs(
    mutations: &Vec<Box<dyn Mutation>>,
    ctx: &CompilerCtxt,
    analysis: &PcgOutput,
    body: &Body,
) -> (res: bool)
    requires
        body@.blocks.len() <= analysis.blocks@.len(),
    ensures
        res == all_applicable(mutations@, *ctx, *analysis, body@),
{
    let count: usize = body.basic_blocks.len();
    assert(count == body@.blocks.len());
    let ghost blocks = Seq::new(body@.blocks.len(), |i: int| i as usize);
    let ghost pairs = pairs_in_body(*analysis, body@);
    let mut block: usize = 0;
    assert(blocks.take(0) =~= Seq::empty());
    while block < count
        invariant
            count == body@.blocks.len(),
            count <= analysis.blocks@.len(),
            blocks == Seq::new(body@.blocks.len(), |i: int| i as usize),
            pairs == pairs_in_body(*analysis, body@),
            block <= count,
            forall|i: int|
                0 <= i < pairs_in_blocks(*analysis, blocks.take(block as int)).len()
                    ==> pair_applicable(
                    mutations@,
                    *ctx,
                    body@,
                    #[trigger] pairs_in_blocks(*analysis, blocks.take(block as int))[i],
                ),
        decreases count - block,
    {
        let ghost before = pairs_in_blocks(*analysis, blocks.take(block as int));
        let ghost here = pairs_in_block(analysed_statements(*analysis, block), 0);
        proof {
            lemma_pairs_of_block(*analysis, body@, block as int);
        }
        if let Ok(Some(pcg_bb)) = analysis.get_all_for_bb(block) {
            let statements = &pcg_bb.statements;
            assert(statements@ == analysed_statements(*analysis, block));
            let mut i: usize = 0;
            while i < statements.len() && i + 1 < statements.len()
                invariant
                    statements@ == analysed_statements(*analysis, block),
                    here == pairs_in_block(statements@, 0),
                    pairs == pairs_in_body(*analysis, body@),
                    before.len() + here.len() <= pairs.len(),
                    forall|j: int|
                        0 <= j < here.len() ==> #[trigger] here[j] == pairs[before.len() + j],
                    i <= statements.len(),
                    forall|j: int|
                        0 <= j < i && j < here.len() ==> pair_applicable(
                            mutations@,
                            *ctx,
                            body@,
                            #[trigger] here[j],
                        ),
                decreases statements.len() - i,
            {
                assert(here[i as int] == (statements@[i as int], statements@[i + 1]));
                if !check_pair(mutations, ctx, body, &statements[i], &statements[i + 1]) {
                    proof {
                        let m = choose|m: int|
                            0 <= m < mutations@.len() && !(#[trigger] mutations@[m]).applicable(
                                *ctx,
                                body@,
                                here[i as int].0,
                                here[i as int].1,
                            );
                        assert(pairs[before.len() + i] == here[i as int]);
                        assert(!mutations@[m].applicable(
                            *ctx,
                            body@,
                            pairs_in_body(*analysis, body@)[before.len() + i].0,
                            pairs_in_body(*analysis, body@)[before.len() + i].1,
                        ));
                    }
                    return false;
                }
                i = i + 1;
            }
        }
        proof {
            let after = pairs_in_blocks(*analysis, blocks.take(block + 1));
            assert forall|i: int| 0 <= i < after.len() implies pair_applicable(
                mutations@,
                *ctx,
                body@,
                #[trigger] after[i],
            ) by {
                if i < before.len() {
                    assert(after[i] == before[i]);
                } else {
                    assert(after[i] == here[i - before.len()]);
                }
            }
        }
        block = block + 1;
    }
    proof {
        assert(blocks.take(count as int) =~= blocks);
        assert forall|m: int, i: int|
            #![trigger mutations@[m], pairs_in_body(*analysis, body@)[i]]
            0 <= m < mutations@.len() && 0 <= i < pairs.len() implies mutations@[m].applicable(
            *ctx,
            body@,
            pairs[i].0,
            pairs[i].1,
        ) by {
            assert(pair_applicable(
                mutations@,
                *ctx,
                body@,
                pairs_in_blocks(*analysis, blocks.take(count as int))[i],
            ));
        }
    }
    true
}

/// A test of `mutations` on a function, provided that the analysis covers its blocks and that
/// every mutation can work with it.
pub fn test_body<'a>(
    mutations: &'a Vec<Box<dyn Mutation>>,
    ctx: &'a CompilerCtxt,
    analysis: &'a PcgOutput,
    body: &'a Body,
) -> (res: Option<BodyTest<'a>>)
    ensures
        res is Some <==> body@.blocks.len() <= analysis.blocks@.len() && all_applicable(
            mutations@,
            *ctx,
            *analysis,
            body@,
        ),
        res matches Some(test) ==> {
            &&& test.wf()
            &&& test.mutations() == mutations@
            &&& test.ctx() == *ctx
            &&& test.analysis() == *analysis
            &&& test.body() == body@
            &&& test.position().started == 0
        },
{
    assert(body@.blocks.len() == body.basic_blocks@.len());
    if body.basic_blocks.len() > analysis.blocks.len() {
        return None;
    }
    if !check_pairs(mutations, ctx, analysis, body) {
        return None;
    }
    Some(BodyTest::new(mutations, ctx, analysis, body))
}

/// Each mutation that has been started has a record.
pub open spec fn records_opened(
    mutations: Seq<Box<dyn Mutation>>,
    started: nat,
    results: Map<Seq<char>, MutatorDataView>,
) -> bool {
    forall|i: int|
        0 <= i < started ==> results.contains_key((#[trigger] mutations[i]).spec_name())
}

proof fn lemma_opened_records(
    results: Map<Seq<char>, MutatorDataView>,
    mutations: Seq<Box<dyn Mutation>>,
    from: int,
    to: int,
)
    requires
        0 <= from <= to,
        records_opened(mutations, from as nat, results),
    ensures
        records_opened(mutations, to as nat, opened(results, mutations, from, to)),
        forall|name: Seq<char>| #[trigger]
            results.contains_key(name) ==> opened(results, mutations, from, to).contains_key(name)
                && opened(results, mutations, from, to)[name] == results[name],
        forall|name: Seq<char>| #[trigger]
            opened(results, mutations, from, to).contains_key(name) && !results.contains_key(name)
                ==> opened(results, mutations, from, to)[name] == no_data() && exists|i: int|
                from <= i < to && (#[trigger] mutations[i]).spec_name() == name,
    decreases to - from,
{
    if from < to {
        lemma_opened_records(results, mutations, from, to - 1);
        let before = opened(results, mutations, from, to - 1);
        let after = opened(results, mutations, from, to);
        assert forall|i: int| 0 <= i < to implies after.contains_key(
            (#[trigger] mutations[i]).spec_name(),
        ) by {
            if i < to - 1 {
                assert(before.contains_key(mutations[i].spec_name()));
            }
        }
        assert(mutations[to - 1].spec_name() == mutations[to - 1].spec_name());
    }
}

/// Every mutation that has been started keeps a record, also one without mutants. A query
/// that finds a mutant counts it for the mutation under way, and for no other; the records
/// that were there before it are otherwise as they were.
pub proof fn law_queries_keep_the_records(
    mutations: Seq<Box<dyn Mutation>>,
    ctx: CompilerCtxt,
    analysis: PcgOutput,
    body: BodyView,
    before: Position,
    results: Map<Seq<char>, MutatorDataView>,
    res: Option<Mutant>,
    after: Position,
    after_results: Map<Seq<char>, MutatorDataView>,
)
    requires
        before.started <= mutations.len(),
        records_opened(mutations, before.started, results),
        test_step(
            mutations,
            ctx,
            analysis,
            body,
            before,
            results,
            res,
            after,
            after_results,
        ),
    ensures
        before.started <= after.started <= mutations.len(),
        res is None ==> after.started == mutations.len(),
        res is Some ==> after.started > 0,
        records_opened(mutations, after.started, after_results),
        forall|name: Seq<char>| #[trigger]
            results.contains_key(name) ==> after_results.contains_key(name)
                && after_results[name] == (if res is Some && name
                == mutations[after.started - 1].spec_name() {
                MutatorDataView { instances: results[name].instances + 1, ..results[name] }
            } else {
                results[name]
            }),
        forall|name: Seq<char>| #[trigger]
            after_results.contains_key(name) && !results.contains_key(name)
                ==> {
                &&& exists|i: int|
                    before.started <= i < after.started && (#[trigger] mutations[i]).spec_name()
                        == name
                &&& after_results[name].instances == (if res is Some && name
                    == mutations[after.started - 1].spec_name() {
                    1nat
                } else {
                    0nat
                })
                &&& after_results[name].passed == 0
                &&& after_results[name].failed == 0
                &&& after_results[name].panicked == 0
                &&& after_results[name].error_codes == Set::<Seq<char>>::empty()
            },
{
    let from = before.started as int;
    match res {
        Some(mutant) => {
            if !step_in_current(
                mutations,
                ctx,
                body,
                before,
                results,
                mutant,
                after,
                after_results,
            ) {
                let k = choose|k: int| #[trigger]
                    step_to_mutation(
                        mutations,
                        ctx,
                        analysis,
                        body,
                        before,
                        results,
                        mutant,
                        k,
                        after,
                        after_results,
                    );
                lemma_opened_records(results, mutations, from, k + 1);
                let here = opened(results, mutations, from, k + 1);
                assert(here.contains_key(mutations[k].spec_name()));
                assert(here[mutations[k].spec_name()] == here[mutations[k].spec_name()]);
            } else {
                assert(results.contains_key(mutations[from - 1].spec_name()));
            }
        },
        None => {
            lemma_opened_records(results, mutations, from, mutations.len() as int);
        },
    }
}

/// `current` are the mutants that are still to come of the mutation under way, and
/// `others` those of each mutation after it.
pub open spec fn splits(
    mutations: Seq<Box<dyn Mutation>>,
    ctx: CompilerCtxt,
    analysis: PcgOutput,
    body: BodyView,
    position: Position,
    current: Seq<MutantView>,
    others: Seq<Seq<MutantView>>,
) -> bool {
    &&& position.started == 0 ==> current.len() == 0
    &&& position.started > 0 ==> is_traversal(
        &mutations[position.started - 1],
        ctx,
        body,
        position.pending,
        position.todo,
        current,
    )
    &&& position.started + others.len() == mutations.len()
    &&& forall|i: int|
        0 <= i < others.len() ==> is_traversal(
            &mutations[position.started + i],
            ctx,
            body,
            Seq::empty(),
            pairs_in_body(analysis, body),
            #[trigger] others[i],
        )
}

/// `out` are mutants that may be still to come: the rest of those of the mutation under
/// way, and then those of each mutation after it, over the whole body.
pub open spec fn is_rest_of_test(
    mutations: Seq<Box<dyn Mutation>>,
    ctx: CompilerCtxt,
    analysis: PcgOutput,
    body: BodyView,
    position: Position,
    out: Seq<MutantView>,
) -> bool {
    exists|current: Seq<MutantView>, others: Seq<Seq<MutantView>>|
        #[trigger] splits(mutations, ctx, analysis, body, position, current, others) && out
            == current + others.flatten()
}

proof fn lemma_done_is_traversed(
    mutation: &Box<dyn Mutation>,
    ctx: CompilerCtxt,
    body: BodyView,
    pending: Seq<MutantView>,
    todo: Seq<(PcgLocation, PcgLocation)>,
)
    requires
        may_be_done(mutation, ctx, body, pending, todo),
    ensures
        is_traversal(mutation, ctx, body, pending, todo, Seq::empty()),
{
    law_queries_traverse_everything(
        mutation,
        ctx,
        body,
        seq![pending, Seq::empty()],
        seq![todo, Seq::empty()],
        Seq::empty(),
    );
    assert(Seq::<Mutant>::empty().map_values(|mutant: Mutant| mutant@) =~= Seq::empty());
}

/// A query that finds a mutant puts it before all those that the later queries find.
proof fn lemma_step_leads_the_test(
    mutations: Seq<Box<dyn Mutation>>,
    ctx: CompilerCtxt,
    analysis: PcgOutput,
    body: BodyView,
    before: Position,
    results: Map<Seq<char>, MutatorDataView>,
    mutant: Mutant,
    after: Position,
    after_results: Map<Seq<char>, MutatorDataView>,
    later: Seq<MutantView>,
)
    requires
        test_step(
            mutations,
            ctx,
            analysis,
            body,
            before,
            results,
            Some(mutant),
            after,
            after_results,
        ),
        is_rest_of_test(mutations, ctx, analysis, body, after, later),
    ensures
        is_rest_of_test(mutations, ctx, analysis, body, before, seq![mutant@] + later),
{
    let pairs = pairs_in_body(analysis, body);
    let (current, others) = choose|current: Seq<MutantView>, others: Seq<Seq<MutantView>>|
        #[trigger] splits(mutations, ctx, analysis, body, after, current, others) && later
            == current + others.flatten();
    let found = seq![mutant@] + current;
    let out = seq![mutant@] + later;
    if step_in_current(mutations, ctx, body, before, results, mutant, after, after_results) {
        law_next_leads_the_traversal(
            &mutations[before.started - 1],
            ctx,
            body,
            before.pending,
            before.todo,
            mutant,
            after.pending,
            after.todo,
            current,
        );
        assert(splits(mutations, ctx, analysis, body, before, found, others));
        assert(out =~= found + others.flatten());
    } else {
        let k = choose|k: int| #[trigger]
            step_to_mutation(
                mutations,
                ctx,
                analysis,
                body,
                before,
                results,
                mutant,
                k,
                after,
                after_results,
            );
        law_next_leads_the_traversal(
            &mutations[k],
            ctx,
            body,
            Seq::empty(),
            pairs,
            mutant,
            after.pending,
            after.todo,
            current,
        );
        if before.started > 0 {
            lemma_done_is_traversed(
                &mutations[before.started - 1],
                ctx,
                body,
                before.pending,
                before.todo,
            );
        }
        let none = Seq::new((k - before.started) as nat, |i: int| Seq::<MutantView>::empty());
        let all = none + (seq![found] + others);
        assert forall|i: int| 0 <= i < all.len() implies is_traversal(
            &mutations[before.started + i],
            ctx,
            body,
            Seq::empty(),
            pairs,
            #[trigger] all[i],
        ) by {
            if i < none.len() {
                assert(mutations[before.started + i] == mutations[before.started + i]);
                lemma_done_is_traversed(
                    &mutations[before.started + i],
                    ctx,
                    body,
                    Seq::empty(),
                    pairs,
                );
            } else if i > none.len() {
                assert(all[i] == others[i - none.len() - 1]);
            }
        }
        lemma_flatten_empties(none);
        seq![found].lemma_flatten_one_element();
        vstd::seq_lib::lemma_flatten_concat(seq![found], others);
        vstd::seq_lib::lemma_flatten_concat(none, seq![found] + others);
        assert(splits(mutations, ctx, analysis, body, before, Seq::empty(), all));
        assert(out =~= Seq::<MutantView>::empty() + all.flatten());
    }
}

/// Queried until it has no more mutants, a test gives the rest of those of the mutation
/// under way, and then those of every mutation after it, over the whole body. `positions`
/// and `results` hold the state before each query and after the last one; the query after
/// those that gave `mutants` gave none.
pub proof fn law_test_runs_every_mutation(
    mutations: Seq<Box<dyn Mutation>>,
    ctx: CompilerCtxt,
    analysis: PcgOutput,
    body: BodyView,
    positions: Seq<Position>,
    results: Seq<Map<Seq<char>, MutatorDataView>>,
    mutants: Seq<Mutant>,
)
    requires
        positions.len() == mutants.len() + 2,
        results.len() == mutants.len() + 2,
        positions[0].started <= mutations.len(),
        forall|i: int|
            0 <= i < mutants.len() ==> test_step(
                mutations,
                ctx,
                analysis,
                body,
                positions[i],
                results[i],
                Some(#[trigger] mutants[i]),
                positions[i + 1],
                results[i + 1],
            ),
        test_step(
            mutations,
            ctx,
            analysis,
            body,
            positions[mutants.len() as int],
            results[mutants.len() as int],
            None,
            positions.last(),
            results.last(),
        ),
    ensures
        is_rest_of_test(
            mutations,
            ctx,
            analysis,
            body,
            positions[0],
            mutants.map_values(|mutant: Mutant| mutant@),
        ),
    decreases mutants.len(),
{
    let out = mutants.map_values(|mutant: Mutant| mutant@);
    let first = positions[0];
    if mutants.len() == 0 {
        let pairs = pairs_in_body(analysis, body);
        let none = Seq::new(
            (mutations.len() - first.started) as nat,
            |i: int| Seq::<MutantView>::empty(),
        );
        if first.started > 0 {
            lemma_done_is_traversed(
                &mutations[first.started - 1],
                ctx,
                body,
                first.pending,
                first.todo,
            );
        }
        assert forall|i: int| 0 <= i < none.len() implies is_traversal(
            &mutations[first.started + i],
            ctx,
            body,
            Seq::empty(),
            pairs,
            #[trigger] none[i],
        ) by {
            assert(mutations[first.started + i] == mutations[first.started + i]);
            lemma_done_is_traversed(&mutations[first.started + i], ctx, body, Seq::empty(), pairs);
        }
        lemma_flatten_empties(none);
        assert(splits(mutations, ctx, analysis, body, first, Seq::empty(), none));
        assert(out =~= Seq::<MutantView>::empty() + none.flatten());
    } else {
        let later = mutants.drop_first();
        assert(mutants[0] == mutants[0]);
        assert(positions[1].started <= mutations.len());
        assert forall|i: int| 0 <= i < later.len() implies test_step(
            mutations,
            ctx,
            analysis,
            body,
            positions.drop_first()[i],
            results.drop_first()[i],
            Some(#[trigger] later[i]),
            positions.drop_first()[i + 1],
            results.drop_first()[i + 1],
        ) by {
            assert(later[i] == mutants[i + 1]);
        }
        law_test_runs_every_mutation(
            mutations,
            ctx,
            analysis,
            body,
            positions.drop_first(),
            results.drop_first(),
            later,
        );
        let later_out = later.map_values(|mutant: Mutant| mutant@);
        lemma_step_leads_the_test(
            mutations,
            ctx,
            analysis,
            body,
            first,
            results[0],
            mutants[0],
            positions[1],
            results[1],
            later_out,
        );
        assert(out =~= seq![mutants[0]@] + later_out);
    }
}

/// Every mutation can work on the function exactly if it can work on every pair of consecutive
/// statements that the analysis knows of, in every block.
pub proof fn law_applicable_to_every_pair(
    mutations: Seq<Box<dyn Mutation>>,
    ctx: CompilerCtxt,
    analysis: PcgOutput,
    body: BodyView,
)
    requires
        body.blocks.len() <= usize::MAX,
    ensures
        all_applicable(mutations, ctx, analysis, body) <==> forall|
            m: int,
            b: int,
            j: int,
            pair: (PcgLocation, PcgLocation),
        |
            #![trigger mutations[m], is_pair_at(analysis, body, b, j, pair)]
            0 <= m < mutations.len() && is_pair_at(analysis, body, b, j, pair)
                ==> mutations[m].applicable(ctx, body, pair.0, pair.1),
{
    let pairs = pairs_in_body(analysis, body);
    law_every_pair_is_visited_in_order(analysis, body);
    let at = choose|at: Seq<(int, int)>|
        #![trigger at.no_duplicates()]
        {
            &&& at.no_duplicates()
            &&& at.len() == pairs.len()
            &&& forall|i: int|
                0 <= i < at.len() ==> is_pair_at(
                    analysis,
                    body,
                    (#[trigger] at[i]).0,
                    at[i].1,
                    pairs[i],
                )
            &&& forall|b: int, j: int, pair: (PcgLocation, PcgLocation)| #[trigger]
                is_pair_at(analysis, body, b, j, pair) ==> at.contains((b, j))
        };
    if all_applicable(mutations, ctx, analysis, body) {
        assert forall|m: int, b: int, j: int, pair: (PcgLocation, PcgLocation)|
            #![trigger mutations[m], is_pair_at(analysis, body, b, j, pair)]
            0 <= m < mutations.len() && is_pair_at(
                analysis,
                body,
                b,
                j,
                pair,
            ) implies mutations[m].applicable(ctx, body, pair.0, pair.1) by {
            assert(at.contains((b, j)));
            let i = choose|i: int| 0 <= i < at.len() && at[i] == (b, j);
            assert(is_pair_at(analysis, body, at[i].0, at[i].1, pairs[i]));
            assert(pairs_in_body(analysis, body)[i] == pair);
        }
    }
    if forall|m: int, b: int, j: int, pair: (PcgLocation, PcgLocation)|
        #![trigger mutations[m], is_pair_at(analysis, body, b, j, pair)]
        0 <= m < mutations.len() && is_pair_at(analysis, body, b, j, pair)
            ==> mutations[m].applicable(ctx, body, pair.0, pair.1) {
        assert forall|m: int, i: int|
            #![trigger mutations[m], pairs_in_body(analysis, body)[i]]
            0 <= m < mutations.len() && 0 <= i < pairs.len() implies mutations[m].applicable(
            ctx,
            body,
            pairs[i].0,
            pairs[i].1,
        ) by {
            assert(is_pair_at(analysis, body, at[i].0, at[i].1, pairs[i]));
        }
    }
}

} // verus!
