//! What a run of the tool records: how each mutation's mutants fared, and a log of the
//! mutants.

use crate::driver::Feature;
use crate::mutator::mutator_impl::MutantRange;
use crate::text::{
    contains_text, decimal, decimal_text, law_decimal_is_injective, law_decimal_reads_back, number,
    texts,
};
use indexmap::IndexMap;
use vstd::prelude::*;

verus! {

/// Indicates the result of running the borrow checker on a mutant.
#[derive(Debug)]
pub enum BorrowCheckInfo {
    NoRun,
    Passed,
    Failed { error_codes: Vec<String> },
}

pub enum BorrowCheckView {
    NoRun,
    Passed,
    Failed { error_codes: Set<Seq<char>> },
}

impl View for BorrowCheckInfo {
    type V = BorrowCheckView;

    open spec fn view(&self) -> BorrowCheckView {
        match self {
            BorrowCheckInfo::NoRun => BorrowCheckView::NoRun,
            BorrowCheckInfo::Passed => BorrowCheckView::Passed,
            BorrowCheckInfo::Failed { error_codes } => BorrowCheckView::Failed {
                error_codes: texts(error_codes@).to_set(),
            },
        }
    }
}

/// Information we record about each mutant if logging is on. `definition` identifies the
/// MIR definition that the mutant was created from.
#[derive(Debug)]
pub struct LogEntry {
    pub mutation_type: String,
    pub borrow_check_info: BorrowCheckInfo,
    pub definition: String,
    pub range: MutantRange,
    pub info: String,
}

pub struct LogEntryView {
    pub mutation_type: Seq<char>,
    pub borrow_check_info: BorrowCheckView,
    pub definition: Seq<char>,
    pub range: MutantRange,
    pub info: Seq<char>,
}

impl View for LogEntry {
    type V = LogEntryView;

    open spec fn view(&self) -> LogEntryView {
        LogEntryView {
            mutation_type: self.mutation_type@,
            borrow_check_info: self.borrow_check_info@,
            definition: self.definition@,
            range: self.range,
            info: self.info@,
        }
    }
}

/// `indexmap::IndexMap`, a map that keeps the order of insertion.
#[verifier::external_type_specification]
#[verifier::external_body]
#[verifier::reject_recursive_types(K)]
#[verifier::reject_recursive_types(V)]
#[verifier::reject_recursive_types(S)]
pub struct ExIndexMap<K, V, S>(IndexMap<K, V, S>);

/// The entries of an `IndexMap`, in its order.
pub uninterp spec fn log_entries(log: IndexMap<String, LogEntry>) -> Seq<
    (Seq<char>, LogEntryView),
>;

/// `IndexMap::new`: the map has no entries.
#[verifier::external_body]
fn log_new() -> (res: IndexMap<String, LogEntry>)
    ensures
        log_entries(res) == Seq::<(Seq<char>, LogEntryView)>::empty(),
{
    IndexMap::new()
}

/// `IndexMap::len`: the number of entries.
#[verifier::external_body]
fn log_len(log: &IndexMap<String, LogEntry>) -> (res: usize)
    ensures
        res == log_entries(*log).len(),
{
    log.len()
}

/// `IndexMap::insert`: a key that the map has keeps its place, with the new entry, and the
/// old entry is returned; a new key goes to the end, and nothing is returned.
#[verifier::external_body]
fn log_insert(log: &mut IndexMap<String, LogEntry>, key: String, entry: LogEntry) -> (res: Option<
    LogEntry,
>)
    ensures
        match res {
            Some(replaced) => exists|i: int|
                #![trigger log_entries(*old(log))[i]]
                {
                    &&& 0 <= i < log_entries(*old(log)).len()
                    &&& log_entries(*old(log))[i] == (key@, replaced@)
                    &&& log_entries(*final(log)) == log_entries(*old(log)).update(
                        i,
                        (key@, entry@),
                    )
                },
            None => {
                &&& forall|i: int|
                    0 <= i < log_entries(*old(log)).len() ==> (#[trigger] log_entries(
                        *old(log),
                    )[i]).0 != key@
                &&& log_entries(*final(log)) == log_entries(*old(log)).push((key@, entry@))
            },
        },
{
    log.insert(key, entry)
}

/// How the mutants of one mutation fared.
#[derive(Debug)]
pub struct MutatorData {
    pub instances: u64,
    pub passed: u64,
    pub failed: u64,
    pub panicked: u64,
    pub error_codes: Vec<String>,
}

#[verifier::ext_equal]
pub struct MutatorDataView {
    pub instances: nat,
    pub passed: nat,
    pub failed: nat,
    pub panicked: nat,
    pub error_codes: Set<Seq<char>>,
}

impl View for MutatorData {
    type V = MutatorDataView;

    open spec fn view(&self) -> MutatorDataView {
        MutatorDataView {
            instances: self.instances as nat,
            passed: self.passed as nat,
            failed: self.failed as nat,
            panicked: self.panicked as nat,
            error_codes: texts(self.error_codes@).to_set(),
        }
    }
}

/// The record of a mutation that has made no mutant yet.
pub open spec fn no_data() -> MutatorDataView {
    MutatorDataView {
        instances: 0,
        passed: 0,
        failed: 0,
        panicked: 0,
        error_codes: Set::empty(),
    }
}

/// Adds `code` to a list without duplicates, unless it is already there.
fn insert_code(codes: &mut Vec<String>, code: &String)
    requires
        texts(old(codes)@).no_duplicates(),
    ensures
        texts(final(codes)@).no_duplicates(),
        texts(final(codes)@).to_set() == texts(old(codes)@).to_set().insert(code@),
{
    let ghost before = texts(codes@);
    if !contains_text(codes, code) {
        codes.push(code.clone());
        assert(texts(codes@) =~= before.push(code@));
        proof {
            before.lemma_push_to_set_commute(code@);
        }
    } else {
        assert(before.to_set() =~= before.to_set().insert(code@));
    }
}

/// Adds each of `codes` to a list without duplicates.
fn insert_codes(into: &mut Vec<String>, codes: &Vec<String>)
    requires
        texts(old(into)@).no_duplicates(),
    ensures
        texts(final(into)@).no_duplicates(),
        texts(final(into)@).to_set() == texts(old(into)@).to_set().union(texts(codes@).to_set()),
{
    let ghost before = texts(into@).to_set();
    let mut i: usize = 0;
    assert(before =~= before.union(texts(codes@).take(0).to_set()));
    while i < codes.len()
        invariant
            i <= codes.len(),
            texts(into@).no_duplicates(),
            texts(into@).to_set() == before.union(texts(codes@).take(i as int).to_set()),
        decreases codes.len() - i,
    {
        insert_code(into, &codes[i]);
        proof {
            let done = texts(codes@).take(i as int);
            assert(texts(codes@).take(i + 1) =~= done.push(texts(codes@)[i as int]));
            done.lemma_push_to_set_commute(texts(codes@)[i as int]);
            assert(texts(into@).to_set() =~= before.union(texts(codes@).take(i + 1).to_set()));
        }
        i = i + 1;
    }
    assert(texts(codes@).take(i as int) =~= texts(codes@));
}

/// What came of checking a mutant. The codes of the errors that the borrow checker
/// reported are in no order, and one may occur more than once.
#[derive(Debug)]
pub enum Verdict {
    NotChecked,
    Accepted,
    Rejected { error_codes: Vec<String> },
}

impl Verdict {
    pub open spec fn info(self) -> BorrowCheckView {
        match self {
            Verdict::NotChecked => BorrowCheckView::NoRun,
            Verdict::Accepted => BorrowCheckView::Passed,
            Verdict::Rejected { error_codes } => BorrowCheckView::Failed {
                error_codes: texts(error_codes@).to_set(),
            },
        }
    }

    /// The record of the mutation after one of its mutants got this verdict.
    pub open spec fn counted(self, data: MutatorDataView) -> MutatorDataView {
        match self {
            Verdict::NotChecked => data,
            Verdict::Accepted => MutatorDataView { passed: data.passed + 1, ..data },
            Verdict::Rejected { error_codes } => MutatorDataView {
                failed: data.failed + 1,
                error_codes: data.error_codes.union(texts(error_codes@).to_set()),
                ..data
            },
        }
    }

    /// The counter for this verdict is not at its limit.
    pub open spec fn countable(self, data: MutatorDataView) -> bool {
        match self {
            Verdict::NotChecked => true,
            Verdict::Accepted => data.passed < u64::MAX,
            Verdict::Rejected { .. } => data.failed < u64::MAX,
        }
    }
}

/// The record of a mutation after it made one more mutant.
pub open spec fn with_instance(data: MutatorDataView) -> MutatorDataView {
    MutatorDataView { instances: data.instances + 1, ..data }
}

/// The record of a mutation after the check of one of its mutants broke off.
pub open spec fn with_panic(data: MutatorDataView) -> MutatorDataView {
    MutatorDataView { panicked: data.panicked + 1, ..data }
}

/// The log after a mutant was checked: `entry` is added, under the next number, if the log is
/// asked for.
pub open spec fn logged(
    log: Seq<(Seq<char>, LogEntryView)>,
    mutants_log: Option<bool>,
    entry: LogEntryView,
) -> Seq<(Seq<char>, LogEntryView)> {
    if mutants_log == Some(true) {
        log.push((decimal(log.len()), entry))
    } else {
        log
    }
}

/// What the log says of a checked mutant.
pub open spec fn entry_of(
    name: Seq<char>,
    verdict: Verdict,
    definition: Seq<char>,
    range: MutantRange,
    info: Seq<char>,
) -> LogEntryView {
    LogEntryView {
        mutation_type: name,
        borrow_check_info: verdict.info(),
        definition,
        range,
        info,
    }
}

/// The results and the log of a run.
pub struct TestRun {
    results: Vec<(String, MutatorData)>,
    mutants_log: IndexMap<String, LogEntry>,
}

/// Entry `i` of `results` is that of the mutation `name`.
spec fn is_entry(results: Seq<(String, MutatorData)>, i: int, name: Seq<char>) -> bool {
    0 <= i < results.len() && results[i].0@ == name
}

/// The results as a map from the names of the mutations.
spec fn results_map(results: Seq<(String, MutatorData)>) -> Map<Seq<char>, MutatorDataView> {
    Map::new(
        |name: Seq<char>| exists|i: int| #[trigger] is_entry(results, i, name),
        |name: Seq<char>| results[choose|i: int| #[trigger] is_entry(results, i, name)].1@,
    )
}

/// No mutation has two entries, and no entry names an error code twice.
spec fn results_wf(results: Seq<(String, MutatorData)>) -> bool {
    &&& forall|i: int, j: int, name: Seq<char>|
        #![trigger is_entry(results, i, name), is_entry(results, j, name)]
        is_entry(results, i, name) && is_entry(results, j, name) ==> i == j
    &&& forall|i: int|
        0 <= i < results.len() ==> texts((#[trigger] results[i]).1.error_codes@).no_duplicates()
}

/// Changing the record of one entry changes the map at its name only.
proof fn lemma_results_update(
    before: Seq<(String, MutatorData)>,
    after: Seq<(String, MutatorData)>,
    i: int,
)
    requires
        results_wf(before),
        0 <= i < before.len(),
        after == before.update(i, after[i]),
        after[i].0 == before[i].0,
        texts(after[i].1.error_codes@).no_duplicates(),
    ensures
        results_wf(after),
        results_map(after) == results_map(before).insert(before[i].0@, after[i].1@),
{
    let name = before[i].0@;
    assert forall|j: int, n: Seq<char>| #[trigger] is_entry(after, j, n) == is_entry(
        before,
        j,
        n,
    ) by {}
    assert(is_entry(before, i, name) && is_entry(after, i, name));
    assert forall|j: int, k: int, n: Seq<char>|
        #![trigger is_entry(after, j, n), is_entry(after, k, n)]
        is_entry(after, j, n) && is_entry(after, k, n) implies j == k by {
        assert(is_entry(before, j, n) && is_entry(before, k, n));
    }
    assert forall|n: Seq<char>| #[trigger] results_map(after).contains_key(n) implies results_map(
        after,
    )[n] == results_map(before).insert(name, after[i].1@)[n] by {
        let j = choose|j: int| #[trigger] is_entry(after, j, n);
        let k = choose|k: int| #[trigger] is_entry(before, k, n);
        assert(is_entry(before, j, n));
        assert(is_entry(before, k, n) && is_entry(after, k, n));
        assert(j == k);
        assert(n == name <==> j == i);
    }
    assert(results_map(after).dom() =~= results_map(before).insert(name, after[i].1@).dom()) by {
        assert forall|n: Seq<char>|
            #[trigger] results_map(after).contains_key(n) == results_map(before).insert(
                name,
                after[i].1@,
            ).contains_key(n) by {
            if results_map(after).contains_key(n) {
                let j = choose|j: int| #[trigger] is_entry(after, j, n);
                assert(is_entry(before, j, n));
            }
            if results_map(before).contains_key(n) {
                let j = choose|j: int| #[trigger] is_entry(before, j, n);
                assert(is_entry(after, j, n));
            }
        }
    }
    assert(results_map(after) =~= results_map(before).insert(name, after[i].1@));
}

/// A new entry adds its name to the map.
proof fn lemma_results_push(before: Seq<(String, MutatorData)>, entry: (String, MutatorData))
    requires
        results_wf(before),
        !results_map(before).contains_key(entry.0@),
        texts(entry.1.error_codes@).no_duplicates(),
    ensures
        results_wf(before.push(entry)),
        results_map(before.push(entry)) == results_map(before).insert(entry.0@, entry.1@),
{
    let after = before.push(entry);
    let name = entry.0@;
    assert forall|j: int, n: Seq<char>|
        #[trigger] is_entry(after, j, n) == (is_entry(before, j, n) || (j == before.len() && n
            == name)) by {}
    assert forall|j: int, k: int, n: Seq<char>|
        #![trigger is_entry(after, j, n), is_entry(after, k, n)]
        is_entry(after, j, n) && is_entry(after, k, n) implies j == k by {
        if is_entry(before, j, n) && is_entry(before, k, n) {
        }
    }
    assert(is_entry(after, before.len() as int, name));
    assert forall|n: Seq<char>| #[trigger] results_map(after).contains_key(n) implies results_map(
        after,
    )[n] == results_map(before).insert(name, entry.1@)[n] by {
        let j = choose|j: int| #[trigger] is_entry(after, j, n);
        if n == name {
            assert(j == before.len());
        } else {
            assert(is_entry(before, j, n));
            let k = choose|k: int| #[trigger] is_entry(before, k, n);
            assert(is_entry(before, k, n));
            assert(j == k);
        }
    }
    assert forall|n: Seq<char>|
        #[trigger] results_map(after).contains_key(n) == results_map(before).insert(
            name,
            entry.1@,
        ).contains_key(n) by {
        if results_map(after).contains_key(n) {
            let j = choose|j: int| #[trigger] is_entry(after, j, n);
            assert(is_entry(before, j, n) || n == name);
        }
        if results_map(before).contains_key(n) {
            let j = choose|j: int| #[trigger] is_entry(before, j, n);
            assert(is_entry(after, j, n));
        }
    }
    assert(results_map(after) =~= results_map(before).insert(name, entry.1@));
}

/// The keys of the log are `0`, `1`, `2` and so on.
pub open spec fn is_numbered(log: Seq<(Seq<char>, LogEntryView)>) -> bool {
    forall|i: int| 0 <= i < log.len() ==> (#[trigger] log[i]).0 == decimal(i as nat)
}

impl TestRun {
    /// The record of each mutation that has been started, by name.
    pub closed spec fn results(&self) -> Map<Seq<char>, MutatorDataView> {
        results_map(self.results@)
    }

    /// The log, in its order.
    pub closed spec fn log(&self) -> Seq<(Seq<char>, LogEntryView)> {
        log_entries(self.mutants_log)
    }

    /// Each mutation has at most one record, and the entries of the log are numbered.
    pub closed spec fn wf(&self) -> bool {
        &&& results_wf(self.results@)
        &&& is_numbered(self.log())
    }

    pub fn new() -> (res: TestRun)
        ensures
            res.wf(),
            res.results() == Map::<Seq<char>, MutatorDataView>::empty(),
            res.log() == Seq::<(Seq<char>, LogEntryView)>::empty(),
    {
        let res = TestRun { results: Vec::new(), mutants_log: log_new() };
        assert(is_numbered(res.log()));
        assert(results_map(res.results@) =~= Map::<Seq<char>, MutatorDataView>::empty());
        res
    }

    fn find(&self, name: &String) -> (res: Option<usize>)
        ensures
            match res {
                Some(i) => is_entry(self.results@, i as int, name@),
                None => !self.results().contains_key(name@),
            },
    {
        let mut i: usize = 0;
        while i < self.results.len()
            invariant
                i <= self.results.len(),
                forall|j: int| 0 <= j < i ==> !#[trigger] is_entry(self.results@, j, name@),
            decreases self.results.len() - i,
        {
            if self.results[i].0 == *name {
                return Some(i);
            }
            i = i + 1;
        }
        None
    }

    /// The record of a mutation.
    pub fn data(&self, name: &String) -> (res: Option<&MutatorData>)
        requires
            self.wf(),
        ensures
            match res {
                Some(data) => self.results().contains_key(name@) && data@ == self.results()[name@],
                None => !self.results().contains_key(name@),
            },
    {
        match self.find(name) {
            Some(i) => {
                assert(is_entry(self.results@, i as int, name@));
                Some(&self.results[i].1)
            },
            None => None,
        }
    }

    /// The mutations that have been started, in the order of their start, with their
    /// records.
    pub fn entries(&self) -> (res: &Vec<(String, MutatorData)>)
        requires
            self.wf(),
        ensures
            forall|i: int|
                0 <= i < res@.len() ==> {
                    &&& self.results().contains_key((#[trigger] res@[i]).0@)
                    &&& self.results()[res@[i].0@] == res@[i].1@
                },
            forall|name: Seq<char>| #[trigger]
                self.results().contains_key(name) ==> exists|i: int|
                    0 <= i < res@.len() && (#[trigger] res@[i]).0@ == name,
            forall|i: int, j: int|
                #![trigger res@[i], res@[j]]
                0 <= i < j < res@.len() ==> res@[i].0@ != res@[j].0@,
    {
        proof {
            assert forall|i: int| 0 <= i < self.results@.len() implies {
                &&& self.results().contains_key((#[trigger] self.results@[i]).0@)
                &&& self.results()[self.results@[i].0@] == self.results@[i].1@
            } by {
                assert(is_entry(self.results@, i, self.results@[i].0@));
            }
            assert forall|i: int, j: int|
                #![trigger self.results@[i], self.results@[j]]
                0 <= i < j < self.results@.len() implies self.results@[i].0@
                != self.results@[j].0@ by {
                assert(is_entry(self.results@, i, self.results@[i].0@));
                if self.results@[i].0@ == self.results@[j].0@ {
                    assert(is_entry(self.results@, j, self.results@[i].0@));
                }
            }
            assert forall|name: Seq<char>| #[trigger]
                self.results().contains_key(name) implies exists|i: int|
                0 <= i < self.results@.len() && (#[trigger] self.results@[i]).0@ == name by {
                let i = choose|i: int| #[trigger] is_entry(self.results@, i, name);
                assert(self.results@[i].0@ == name);
            }
        }
        &self.results
    }

    /// The log of the mutants.
    pub fn mutants_log(&self) -> (res: &IndexMap<String, LogEntry>)
        ensures
            log_entries(*res) == self.log(),
    {
        &self.mutants_log
    }

    /// Opens the record of a mutation, unless it has one.
    pub fn start_mutation(&mut self, name: String)
        requires
            old(self).wf(),
        ensures
            final(self).wf(),
            final(self).log() == old(self).log(),
            final(self).results() == (if old(self).results().contains_key(name@) {
                old(self).results()
            } else {
                old(self).results().insert(name@, no_data())
            }),
    {
        if self.find(&name).is_none() {
            let data = MutatorData {
                instances: 0,
                passed: 0,
                failed: 0,
                panicked: 0,
                error_codes: Vec::new(),
            };
            assert(data@ =~= no_data());
            proof {
                lemma_results_push(self.results@, (name, data));
            }
            self.results.push((name, data));
        } else {
            assert(self.results().contains_key(name@));
        }
    }

    /// Counts a mutant.
    pub fn count_instance(&mut self, name: &String)
        requires
            old(self).wf(),
            old(self).results().contains_key(name@),
            old(self).results()[name@].instances < u64::MAX,
        ensures
            final(self).wf(),
            final(self).log() == old(self).log(),
            final(self).results() == old(self).results().insert(
                name@,
                MutatorDataView {
                    instances: old(self).results()[name@].instances + 1,
                    ..old(self).results()[name@]
                },
            ),
            final(self).results()[name@] == with_instance(old(self).results()[name@]),
    {
        let ghost before = self.results@;
        if let Some(i) = self.find(name) {
            assert(is_entry(before, i as int, name@));
            self.results[i].1.instances = self.results[i].1.instances + 1;
            proof {
                assert(self.results@ =~= before.update(i as int, self.results@[i as int]));
                lemma_results_update(before, self.results@, i as int);
            }
        }
    }

    /// Counts the verdict on a mutant, and returns what the log says of it.
    pub fn record_verdict(&mut self, name: &String, verdict: Verdict) -> (res: BorrowCheckInfo)
        requires
            old(self).wf(),
            old(self).results().contains_key(name@),
            verdict.countable(old(self).results()[name@]),
        ensures
            final(self).wf(),
            final(self).log() == old(self).log(),
            final(self).results() == old(self).results().insert(
                name@,
                verdict.counted(old(self).results()[name@]),
            ),
            res@ == verdict.info(),
            res matches BorrowCheckInfo::Failed { error_codes } ==> texts(
                error_codes@,
            ).no_duplicates(),
    {
        let ghost before = self.results@;
        let ghost results = self.results();
        match self.find(name) {
            Some(i) => {
                assert(is_entry(before, i as int, name@));
                let info: BorrowCheckInfo;
                match verdict {
                    Verdict::NotChecked => {
                        info = BorrowCheckInfo::NoRun;
                    },
                    Verdict::Accepted => {
                        self.results[i].1.passed = self.results[i].1.passed + 1;
                        info = BorrowCheckInfo::Passed;
                    },
                    Verdict::Rejected { error_codes } => {
                        self.results[i].1.failed = self.results[i].1.failed + 1;
                        insert_codes(&mut self.results[i].1.error_codes, &error_codes);
                        let mut distinct_codes: Vec<String> = Vec::new();
                        insert_codes(&mut distinct_codes, &error_codes);
                        assert(texts(distinct_codes@).to_set() =~= texts(error_codes@).to_set());
                        info = BorrowCheckInfo::Failed { error_codes: distinct_codes };
                    },
                }
                proof {
                    assert(self.results@ =~= before.update(i as int, self.results@[i as int]));
                    lemma_results_update(before, self.results@, i as int);
                    assert(self.results@[i as int].1@ =~= verdict.counted(results[name@]));
                }
                info
            },
            None => BorrowCheckInfo::NoRun,
        }
    }

    /// Counts the verdict on a mutant and, if the log is asked for, logs the mutant.
    /// `definition` names the function that it was made from.
    pub fn record_checked(
        &mut self,
        name: &String,
        verdict: Verdict,
        definition: String,
        range: MutantRange,
        info: String,
        mutants_log: Option<bool>,
    )
        requires
            old(self).wf(),
            old(self).results().contains_key(name@),
            verdict.countable(old(self).results()[name@]),
        ensures
            final(self).wf(),
            final(self).results() == old(self).results().insert(
                name@,
                verdict.counted(old(self).results()[name@]),
            ),
            final(self).log() == (if mutants_log == Some(true) {
                old(self).log().push(
                    (
                        decimal(old(self).log().len()),
                        LogEntryView {
                            mutation_type: name@,
                            borrow_check_info: verdict.info(),
                            definition: definition@,
                            range,
                            info: info@,
                        },
                    ),
                )
            } else {
                old(self).log()
            }),
            final(self).log() == logged(
                old(self).log(),
                mutants_log,
                entry_of(name@, verdict, definition@, range, info@),
            ),
    {
        let borrow_check_info = self.record_verdict(name, verdict);
        let log_entry = LogEntry {
            mutation_type: name.clone(),
            borrow_check_info,
            definition,
            range,
            info,
        };
        if Feature::MutantsLog.enabled(mutants_log) {
            self.log_mutant(log_entry);
        }
    }

    /// Counts a mutant whose check broke off.
    pub fn record_panic(&mut self, name: &String)
        requires
            old(self).wf(),
            old(self).results().contains_key(name@),
            old(self).results()[name@].panicked < u64::MAX,
        ensures
            final(self).wf(),
            final(self).log() == old(self).log(),
            final(self).results() == old(self).results().insert(
                name@,
                MutatorDataView {
                    panicked: old(self).results()[name@].panicked + 1,
                    ..old(self).results()[name@]
                },
            ),
            final(self).results()[name@] == with_panic(old(self).results()[name@]),
    {
        let ghost before = self.results@;
        if let Some(i) = self.find(name) {
            assert(is_entry(before, i as int, name@));
            self.results[i].1.panicked = self.results[i].1.panicked + 1;
            proof {
                assert(self.results@ =~= before.update(i as int, self.results@[i as int]));
                lemma_results_update(before, self.results@, i as int);
            }
        }
    }

    /// Adds an entry to the log, under the next number.
    pub fn log_mutant(&mut self, entry: LogEntry)
        requires
            old(self).wf(),
        ensures
            final(self).wf(),
            final(self).results() == old(self).results(),
            final(self).log() == old(self).log().push(
                (decimal(old(self).log().len()), entry@),
            ),
            final(self).log() == logged(old(self).log(), Some(true), entry@),
    {
        let ghost before = self.log();
        let number: usize = log_len(&self.mutants_log);
        let key = decimal_text(number);
        let replaced = log_insert(&mut self.mutants_log, key, entry);
        proof {
            if replaced is Some {
                let i = choose|i: int|
                    #![trigger before[i]]
                    0 <= i < before.len() && before[i] == (key@, replaced->0@);
                law_decimal_is_injective(i as nat, before.len());
            }
            assert(is_numbered(self.log()));
        }
    }
}

/// The log is numbered from 0 without gaps: an entry's key is its position.
pub proof fn law_log_is_numbered(run: &TestRun)
    requires
        run.wf(),
    ensures
        forall|i: int| 0 <= i < run.log().len() ==> (#[trigger] run.log()[i]).0 == decimal(i as nat),
{
}

/// No more mutants were judged, or broke off, than were made.
pub open spec fn counts_agree(data: MutatorDataView) -> bool {
    &&& data.passed + data.failed <= data.instances
    &&& data.panicked <= data.instances
}

/// The record after one more mutant: it is counted, then its verdict is, unless the check
/// broke off before, and then that the check broke off, if it did.
pub open spec fn after_mutant(
    data: MutatorDataView,
    verdict: Option<Verdict>,
    panicked: bool,
) -> MutatorDataView {
    let made = with_instance(data);
    let judged = match verdict {
        Some(verdict) => verdict.counted(made),
        None => made,
    };
    if panicked {
        with_panic(judged)
    } else {
        judged
    }
}

/// However a mutant fares, the counts of its mutation keep agreeing.
pub proof fn law_counts_agree(data: MutatorDataView, verdict: Option<Verdict>, panicked: bool)
    requires
        counts_agree(data),
    ensures
        counts_agree(after_mutant(data, verdict, panicked)),
        counts_agree(no_data()),
{
}

/// Every mutant that was made was judged or broke off.
pub open spec fn counts_add_up(data: MutatorDataView) -> bool {
    data.instances == data.passed + data.failed + data.panicked
}

/// The borrow checker judged the mutant.
pub open spec fn is_judged(verdict: Option<Verdict>) -> bool {
    verdict matches Some(verdict) && verdict !is NotChecked
}

/// Where each mutant is either judged or breaks off, the counts of its mutation add up.
pub proof fn law_counts_add_up(data: MutatorDataView, verdict: Option<Verdict>, panicked: bool)
    requires
        counts_add_up(data),
        is_judged(verdict) != panicked,
    ensures
        counts_add_up(after_mutant(data, verdict, panicked)),
        counts_add_up(no_data()),
{
}

/// What a verdict counts for, whatever was counted before: an accepted mutant is one more that
/// passed, a rejected one is one more that failed and adds the codes of its errors, and one
/// that was not checked counts for nothing. No other count changes.
pub proof fn law_each_verdict_has_its_own_count(verdict: Verdict, data: MutatorDataView)
    ensures
        verdict.counted(data).instances == data.instances,
        verdict.counted(data).panicked == data.panicked,
        verdict.counted(data).passed == data.passed + (if verdict is Accepted {
            1nat
        } else {
            0nat
        }),
        verdict.counted(data).failed == data.failed + (if verdict is Rejected {
            1nat
        } else {
            0nat
        }),
        forall|code: Seq<char>| #[trigger]
            verdict.counted(data).error_codes.contains(code) <==> data.error_codes.contains(code)
                || has_code(verdict, code),
{
    lemma_codes(verdict);
}

/// `verdict` is a rejection with the error code `code`.
pub open spec fn has_code(verdict: Verdict, code: Seq<char>) -> bool {
    verdict matches Verdict::Rejected { error_codes } && exists|i: int|
        0 <= i < error_codes@.len() && (#[trigger] error_codes@[i])@ == code
}

proof fn lemma_codes(verdict: Verdict)
    ensures
        verdict matches Verdict::Rejected { error_codes } ==> forall|code: Seq<char>| #[trigger]
            texts(error_codes@).to_set().contains(code) <==> has_code(verdict, code),
{
    if let Verdict::Rejected { error_codes } = verdict {
        let codes = texts(error_codes@);
        assert forall|code: Seq<char>| #[trigger] codes.to_set().contains(code) <==> has_code(
            verdict,
            code,
        ) by {
            if codes.contains(code) {
                let i = choose|i: int| 0 <= i < codes.len() && codes[i] == code;
                assert(error_codes@[i]@ == code);
            }
            if has_code(verdict, code) {
                let i = choose|i: int|
                    0 <= i < error_codes@.len() && (#[trigger] error_codes@[i])@ == code;
                assert(codes[i] == code);
            }
        }
    }
}

/// What the log says of a mutant is its verdict, with all the codes of its errors.
pub proof fn law_the_log_says_the_verdict(verdict: Verdict)
    ensures
        verdict is NotChecked <==> verdict.info() is NoRun,
        verdict is Accepted <==> verdict.info() is Passed,
        verdict is Rejected <==> verdict.info() is Failed,
        verdict.info() matches BorrowCheckView::Failed { error_codes } ==> forall|code: Seq<char>|
            #[trigger] error_codes.contains(code) <==> has_code(verdict, code),
{
    lemma_codes(verdict);
}

/// A mutation begins without mutants, and so without any that fared one way or another.
pub proof fn law_a_record_begins_empty()
    ensures
        no_data().instances == 0,
        no_data().passed == 0,
        no_data().failed == 0,
        no_data().panicked == 0,
        forall|code: Seq<char>| !#[trigger] no_data().error_codes.contains(code),
{
}

/// The outcome of a mutant is this verdict.
pub open spec fn was_accepted() -> spec_fn((Option<Verdict>, bool)) -> bool {
    |outcome: (Option<Verdict>, bool)| outcome.0 matches Some(verdict) && verdict is Accepted
}

/// The outcome of a mutant is a rejection.
pub open spec fn was_rejected() -> spec_fn((Option<Verdict>, bool)) -> bool {
    |outcome: (Option<Verdict>, bool)| outcome.0 matches Some(verdict) && verdict is Rejected
}

/// The check of a mutant broke off.
pub open spec fn broke_off() -> spec_fn((Option<Verdict>, bool)) -> bool {
    |outcome: (Option<Verdict>, bool)| outcome.1
}

/// Over a run, the record of a mutation says how many mutants were made, how many of them
/// were accepted, how many rejected, of how many the check broke off, and which errors the
/// rejected ones had. `outcomes` are the verdict on each mutant, if there is one, and whether
/// its check broke off; `data` is the record before each of them and after the last one.
pub proof fn law_a_run_counts_every_outcome(
    outcomes: Seq<(Option<Verdict>, bool)>,
    data: Seq<MutatorDataView>,
)
    requires
        data.len() == outcomes.len() + 1,
        data[0] == no_data(),
        forall|i: int|
            0 <= i < outcomes.len() ==> data[i + 1] == after_mutant(
                data[i],
                (#[trigger] outcomes[i]).0,
                outcomes[i].1,
            ),
    ensures
        data.last().instances == outcomes.len(),
        data.last().passed == outcomes.filter(was_accepted()).len(),
        data.last().failed == outcomes.filter(was_rejected()).len(),
        data.last().panicked == outcomes.filter(broke_off()).len(),
        forall|code: Seq<char>| #[trigger]
            data.last().error_codes.contains(code) <==> exists|i: int|
                0 <= i < outcomes.len() && ((#[trigger] outcomes[i]).0 matches Some(verdict)
                    && has_code(verdict, code)),
    decreases outcomes.len(),
{
    reveal(Seq::filter);
    if outcomes.len() > 0 {
        let rest = outcomes.drop_last();
        let last = outcomes.last();
        assert forall|i: int| 0 <= i < rest.len() implies data.drop_last()[i + 1] == after_mutant(
            data.drop_last()[i],
            (#[trigger] rest[i]).0,
            rest[i].1,
        ) by {
            assert(rest[i] == outcomes[i]);
        }
        law_a_run_counts_every_outcome(rest, data.drop_last());
        let before = data[outcomes.len() - 1];
        assert(data.drop_last().last() == before);
        assert(outcomes[outcomes.len() - 1] == last);
        assert(data.last() == after_mutant(before, last.0, last.1));
        if let Some(verdict) = last.0 {
            let made = with_instance(before);
            law_each_verdict_has_its_own_count(verdict, made);
        }
        assert forall|code: Seq<char>| #[trigger]
            data.last().error_codes.contains(code) <==> exists|i: int|
                0 <= i < outcomes.len() && ((#[trigger] outcomes[i]).0 matches Some(verdict)
                    && has_code(verdict, code)) by {
            if before.error_codes.contains(code) {
                let i = choose|i: int|
                    0 <= i < rest.len() && ((#[trigger] rest[i]).0 matches Some(verdict)
                        && has_code(verdict, code));
                assert(outcomes[i] == rest[i]);
            }
            if exists|i: int|
                0 <= i < outcomes.len() && ((#[trigger] outcomes[i]).0 matches Some(verdict)
                    && has_code(verdict, code)) {
                let i = choose|i: int|
                    0 <= i < outcomes.len() && ((#[trigger] outcomes[i]).0 matches Some(verdict)
                        && has_code(verdict, code));
                if i < rest.len() {
                    assert(rest[i] == outcomes[i]);
                }
            }
        }
    }
}

/// The view of a record is the record.
pub proof fn law_records_are_what_they_look_like(data: MutatorData)
    ensures
        data@.instances == data.instances,
        data@.passed == data.passed,
        data@.failed == data.failed,
        data@.panicked == data.panicked,
        forall|code: Seq<char>| #[trigger]
            data@.error_codes.contains(code) <==> exists|i: int|
                0 <= i < data.error_codes@.len() && (#[trigger] data.error_codes@[i])@ == code,
{
    lemma_texts_set(data.error_codes@);
}

proof fn lemma_texts_set(strings: Seq<String>)
    ensures
        forall|text: Seq<char>| #[trigger]
            texts(strings).to_set().contains(text) <==> exists|i: int|
                0 <= i < strings.len() && (#[trigger] strings[i])@ == text,
{
    assert forall|text: Seq<char>| #[trigger]
        texts(strings).to_set().contains(text) <==> exists|i: int|
            0 <= i < strings.len() && (#[trigger] strings[i])@ == text by {
        if texts(strings).contains(text) {
            let i = choose|i: int| 0 <= i < texts(strings).len() && texts(strings)[i] == text;
            assert(strings[i]@ == text);
        }
        if exists|i: int| 0 <= i < strings.len() && (#[trigger] strings[i])@ == text {
            let i = choose|i: int| 0 <= i < strings.len() && (#[trigger] strings[i])@ == text;
            assert(texts(strings)[i] == text);
        }
    }
}

/// The view of a log entry is the entry.
pub proof fn law_log_entries_are_what_they_look_like(entry: LogEntry)
    ensures
        entry@.mutation_type == entry.mutation_type@,
        entry@.definition == entry.definition@,
        entry@.range == entry.range,
        entry@.info == entry.info@,
        entry.borrow_check_info is NoRun <==> entry@.borrow_check_info is NoRun,
        entry.borrow_check_info is Passed <==> entry@.borrow_check_info is Passed,
        entry.borrow_check_info is Failed <==> entry@.borrow_check_info is Failed,
        entry.borrow_check_info matches BorrowCheckInfo::Failed { error_codes } ==> forall|
            code: Seq<char>,
        | #[trigger]
            entry@.borrow_check_info->Failed_error_codes.contains(code) <==> exists|i: int|
                0 <= i < error_codes@.len() && (#[trigger] error_codes@[i])@ == code,
{
    if let BorrowCheckInfo::Failed { error_codes } = entry.borrow_check_info {
        lemma_texts_set(error_codes@);
    }
}

/// Making a mutant and breaking off its check have a count of their own each, and change no
/// other.
pub proof fn law_instances_and_panics_have_their_own_counts(data: MutatorDataView)
    ensures
        with_instance(data).instances == data.instances + 1,
        with_instance(data).passed == data.passed,
        with_instance(data).failed == data.failed,
        with_instance(data).panicked == data.panicked,
        with_instance(data).error_codes == data.error_codes,
        with_panic(data).instances == data.instances,
        with_panic(data).passed == data.passed,
        with_panic(data).failed == data.failed,
        with_panic(data).panicked == data.panicked + 1,
        with_panic(data).error_codes == data.error_codes,
{
}

/// The log only grows, and only if it is asked for: a checked mutant comes last, with its
/// position as its key, and the entries before it are as they were.
pub proof fn law_the_log_only_grows(
    log: Seq<(Seq<char>, LogEntryView)>,
    mutants_log: Option<bool>,
    entry: LogEntryView,
)
    ensures
        logged(log, None, entry) == log,
        logged(log, Some(false), entry) == log,
        logged(log, Some(true), entry).len() == log.len() + 1,
        logged(log, Some(true), entry).drop_last() == log,
        number(logged(log, Some(true), entry).last().0) == log.len(),
        logged(log, Some(true), entry).last().1 == entry,
{
    law_decimal_reads_back(log.len());
    assert(logged(log, Some(true), entry).drop_last() =~= log);
}

/// An entry of the log names the mutation, the definition and the range, and says what the
/// verdict was.
pub proof fn law_what_a_log_entry_says(
    name: Seq<char>,
    verdict: Verdict,
    definition: Seq<char>,
    range: MutantRange,
    info: Seq<char>,
)
    ensures
        entry_of(name, verdict, definition, range, info).mutation_type == name,
        entry_of(name, verdict, definition, range, info).borrow_check_info == verdict.info(),
        entry_of(name, verdict, definition, range, info).definition == definition,
        entry_of(name, verdict, definition, range, info).range == range,
        entry_of(name, verdict, definition, range, info).info == info,
{
}

} // verus!
