//! The decisions of a run: which arguments the compiler gets, which functions are tested,
//! and what the result files are called.

use crate::results::Verdict;
use crate::text::{
    decimal, decimal_text, has_prefix, law_decimal_is_injective, law_decimal_reads_back,
    law_prefix_and_rest, number, starts_with, texts,
};
use vstd::prelude::*;

verus! {

/// A switch that the environment can set.
#[derive(Clone, Copy, Debug, PartialEq, Eq, Structural)]
pub enum Feature {
    /// Run the borrow checker on the mutants.
    DoBorrowck,
    /// Keep the mutants that pass, in order to visualize them.
    PcgVisualization,
    /// Write a log of the mutants.
    MutantsLog,
    /// Use the Polonius borrow checker.
    PcgPolonius,
}

impl Feature {
    pub open spec fn spec_variable(self) -> Seq<char> {
        match self {
            Feature::DoBorrowck => "DO_BORROWCK"@,
            Feature::PcgVisualization => "PCG_VISUALIZATION"@,
            Feature::MutantsLog => "MUTANTS_LOG"@,
            Feature::PcgPolonius => "PCG_POLONIUS"@,
        }
    }

    /// The environment variable that sets the switch.
    pub fn variable(&self) -> (res: &'static str)
        ensures
            res@ == self.spec_variable(),
    {
        match self {
            Feature::DoBorrowck => "DO_BORROWCK",
            Feature::PcgVisualization => "PCG_VISUALIZATION",
            Feature::MutantsLog => "MUTANTS_LOG",
            Feature::PcgPolonius => "PCG_POLONIUS",
        }
    }

    pub open spec fn spec_enabled(self, value: Option<bool>) -> bool {
        match value {
            Some(value) => value,
            None => self == Feature::DoBorrowck,
        }
    }

    /// Whether the switch is on, given what the environment says: where it says nothing,
    /// mutants are checked, and everything else is off.
    pub fn enabled(&self, value: Option<bool>) -> (res: bool)
        ensures
            res == (match value {
                Some(value) => value,
                None => *self == Feature::DoBorrowck,
            }),
            res == self.spec_enabled(value),
    {
        match value {
            Some(value) => value,
            None => match self {
                Feature::DoBorrowck => true,
                _ => false,
            },
        }
    }
}

/// One of the arguments sets the edition.
pub open spec fn sets_edition(args: Seq<Seq<char>>) -> bool {
    exists|i: int| 0 <= i < args.len() && has_prefix(#[trigger] args[i], "--edition="@)
}

/// `arg` if `condition` holds, and otherwise nothing.
pub open spec fn optional_arg(condition: bool, arg: Seq<char>) -> Seq<Seq<char>> {
    if condition {
        seq![arg]
    } else {
        Seq::empty()
    }
}

/// The compiler's arguments, where the tool was called with `args`, its own name first.
pub open spec fn spec_compiler_args(
    args: Seq<Seq<char>>,
    polonius: bool,
    in_cargo_crate: bool,
) -> Seq<Seq<char>> {
    let own_args = if args.len() == 0 {
        args
    } else {
        args.drop_first()
    };
    seq!["rustc"@] + optional_arg(!sets_edition(args), "--edition=2018"@) + optional_arg(
        polonius,
        "-Zpolonius"@,
    ) + optional_arg(!in_cargo_crate, "-Zno-codegen"@) + own_args
}

/// The compiler's arguments: those of the tool, after the edition, unless it is given, the
/// choice of the borrow checker, and, unless Cargo runs the tool, the order to produce no
/// code.
pub fn compiler_args(args: &Vec<String>, polonius: Option<bool>, in_cargo_crate: bool) -> (res: Vec<
    String,
>)
    ensures
        texts(res@) == spec_compiler_args(
            texts(args@),
            polonius == Some(true),
            in_cargo_crate,
        ),
{
    let mut rustc_args: Vec<String> = Vec::new();
    rustc_args.push("rustc".to_string());
    assert(texts(rustc_args@) =~= seq!["rustc"@]);
    let mut has_edition: bool = false;
    let mut i: usize = 0;
    while i < args.len()
        invariant
            i <= args.len(),
            has_edition == exists|j: int|
                0 <= j < i && has_prefix(#[trigger] texts(args@)[j], "--edition="@),
        decreases args.len() - i,
    {
        assert(texts(args@)[i as int] == args@[i as int]@);
        if starts_with(args[i].as_str(), "--edition=") {
            has_edition = true;
        }
        i = i + 1;
    }
    let ghost first = seq!["rustc"@] + optional_arg(!has_edition, "--edition=2018"@);
    if !has_edition {
        rustc_args.push("--edition=2018".to_string());
    }
    assert(texts(rustc_args@) =~= first);
    let polonius = Feature::PcgPolonius.enabled(polonius);
    let ghost second = first + optional_arg(polonius, "-Zpolonius"@);
    if polonius {
        rustc_args.push("-Zpolonius".to_string());
    }
    assert(texts(rustc_args@) =~= second);
    let ghost third = second + optional_arg(!in_cargo_crate, "-Zno-codegen"@);
    if !in_cargo_crate {
        rustc_args.push("-Zno-codegen".to_string());
    }
    assert(texts(rustc_args@) =~= third);
    let mut k: usize = 1;
    while k < args.len()
        invariant
            1 <= k,
            args.len() > 0 ==> k <= args.len(),
            args.len() == 0 ==> k == 1,
            texts(rustc_args@) == third + (if args.len() == 0 {
                Seq::empty()
            } else {
                texts(args@).subrange(1, k as int)
            }),
        decreases args.len() - k,
    {
        let ghost before = texts(rustc_args@);
        rustc_args.push(args[k].clone());
        proof {
            let arg = texts(args@)[k as int];
            assert(texts(rustc_args@) =~= before.push(arg));
            assert(texts(args@).subrange(1, k + 1) =~= texts(args@).subrange(1, k as int).push(
                arg,
            ));
            assert(before.push(arg) =~= third + texts(args@).subrange(1, k + 1));
        }
        k = k + 1;
    }
    assert(args.len() > 0 ==> texts(args@).subrange(1, k as int) =~= texts(args@).drop_first());
    assert(texts(rustc_args@) =~= spec_compiler_args(texts(args@), polonius, in_cargo_crate));
    rustc_args
}

/// What the compiler does once the tool is done with a crate.
#[derive(Clone, Copy, Debug, PartialEq, Eq, Structural)]
pub enum Compilation {
    Stop,
    Continue,
}

pub open spec fn spec_after_analysis(in_cargo_crate: bool) -> Compilation {
    if in_cargo_crate {
        Compilation::Continue
    } else {
        Compilation::Stop
    }
}

/// Where Cargo runs the tool, compilation goes on: other crates may need this one.
pub fn after_analysis(in_cargo_crate: bool) -> (res: Compilation)
    ensures
        res == (if in_cargo_crate {
            Compilation::Continue
        } else {
            Compilation::Stop
        }),
        res == spec_after_analysis(in_cargo_crate),
{
    if in_cargo_crate {
        Compilation::Continue
    } else {
        Compilation::Stop
    }
}

pub open spec fn spec_skips_crate(in_cargo_crate: bool, is_primary_package: bool) -> bool {
    in_cargo_crate && !is_primary_package
}

/// Whether to leave the crate alone: we are running in Cargo, but not compiling the primary
/// package, and do not want to check dependencies.
pub fn skips_crate(in_cargo_crate: bool, is_primary_package: bool) -> (res: bool)
    ensures
        res == (in_cargo_crate && !is_primary_package),
        res == spec_skips_crate(in_cargo_crate, is_primary_package),
{
    in_cargo_crate && !is_primary_package
}

#[derive(Clone, Copy, Debug, PartialEq, Eq, Structural)]
pub enum DefKind {
    Fn,
    AssocFn,
    Other,
}

#[derive(Clone, Copy, Debug, PartialEq, Eq, Structural)]
pub enum Safety {
    Safe,
    Unsafe,
}

/// What to do with a definition that has a body.
#[derive(Clone, Copy, Debug, PartialEq, Eq, Structural)]
pub enum BodyAction {
    /// The environment names it as one to skip.
    SkipNamed,
    /// It is no function.
    SkipKind,
    /// The compiler did not borrow-check it.
    SkipMissing,
    /// It is unsafe.
    SkipUnsafe,
    /// Mutate it.
    Test,
}

pub open spec fn spec_body_action(
    skip_function: Option<Seq<char>>,
    item_name: Seq<char>,
    kind: DefKind,
    has_body: bool,
    safety: Safety,
) -> BodyAction {
    if skip_function == Some(item_name) {
        BodyAction::SkipNamed
    } else if kind == DefKind::Other {
        BodyAction::SkipKind
    } else if !has_body {
        BodyAction::SkipMissing
    } else if safety == Safety::Unsafe {
        BodyAction::SkipUnsafe
    } else {
        BodyAction::Test
    }
}

/// Whether and why not to test a definition.
pub fn body_action(
    skip_function: &Option<String>,
    item_name: &String,
    kind: DefKind,
    has_body: bool,
    safety: Safety,
) -> (res: BodyAction)
    ensures
        res == (if skip_function is Some && skip_function->0@ == item_name@ {
            BodyAction::SkipNamed
        } else if kind == DefKind::Other {
            BodyAction::SkipKind
        } else if !has_body {
            BodyAction::SkipMissing
        } else if safety == Safety::Unsafe {
            BodyAction::SkipUnsafe
        } else {
            BodyAction::Test
        }),
        res == spec_body_action(
            match skip_function {
                Some(function) => Some(function@),
                None => None,
            },
            item_name@,
            kind,
            has_body,
            safety,
        ),
{
    if let Some(function) = skip_function {
        if *function == *item_name {
            return BodyAction::SkipNamed;
        }
    }
    match kind {
        DefKind::Fn | DefKind::AssocFn => {
            if !has_body {
                BodyAction::SkipMissing
            } else {
                match safety {
                    Safety::Unsafe => BodyAction::SkipUnsafe,
                    Safety::Safe => BodyAction::Test,
                }
            }
        },
        DefKind::Other => BodyAction::SkipKind,
    }
}

pub open spec fn spec_keeps_body(verdict: Verdict, visualization: Option<bool>) -> bool {
    verdict is Accepted && visualization == Some(true)
}

/// Whether to keep a checked mutant for visualization: it passed, and that is asked for.
pub fn keeps_body(verdict: &Verdict, visualization: Option<bool>) -> (res: bool)
    ensures
        res == (verdict is Accepted && visualization == Some(true)),
        res == spec_keeps_body(*verdict, visualization),
{
    match verdict {
        Verdict::Accepted => Feature::PcgVisualization.enabled(visualization),
        _ => false,
    }
}

/// The stem of the result files' names at the `attempt`-th attempt to find one that is free.
pub open spec fn spec_stem(crate_name: Seq<char>, attempt: nat) -> Seq<char> {
    if attempt == 0 {
        crate_name
    } else {
        crate_name + "-"@ + decimal((attempt - 1) as nat)
    }
}

/// The stem of the log file's name that goes with `stem`.
pub open spec fn spec_log_stem(stem: Seq<char>) -> Seq<char> {
    stem + "-mutants"@
}

/// A search for names of result files that are not taken.
pub struct ResultNames {
    crate_name: String,
    attempt: usize,
}

impl ResultNames {
    pub closed spec fn crate_name(&self) -> Seq<char> {
        self.crate_name@
    }

    /// How many names were taken so far.
    pub closed spec fn attempt(&self) -> nat {
        self.attempt as nat
    }

    /// Begins a search, for the crate that Cargo compiles. Outside Cargo nothing is written,
    /// and there is no search.
    pub fn new(cargo_crate_name: Option<String>) -> (res: Option<ResultNames>)
        ensures
            res is Some <==> cargo_crate_name is Some,
            res matches Some(names) ==> names.crate_name() == cargo_crate_name->0@
                && names.attempt() == 0,
    {
        match cargo_crate_name {
            Some(crate_name) => Some(ResultNames { crate_name, attempt: 0 }),
            None => None,
        }
    }

    /// The stem of the name of the file with the results.
    pub fn results_stem(&self) -> (res: String)
        ensures
            res@ == spec_stem(self.crate_name(), self.attempt()),
    {
        if self.attempt == 0 {
            self.crate_name.clone()
        } else {
            self.crate_name.clone().concat("-").concat(decimal_text(self.attempt - 1).as_str())
        }
    }

    /// The stem of the name of the file with the log.
    pub fn mutants_log_stem(&self) -> (res: String)
        ensures
            res@ == spec_stem(self.crate_name(), self.attempt()) + "-mutants"@,
            res@ == spec_log_stem(spec_stem(self.crate_name(), self.attempt())),
    {
        self.results_stem().concat("-mutants")
    }

    /// The stem of the name of the file with the results, once it is known whether there is
    /// a log file with this stem; if there is, the next one is to be tried.
    pub fn try_name(&mut self, taken: bool) -> (res: Option<String>)
        requires
            taken ==> old(self).attempt() < usize::MAX,
        ensures
            final(self).crate_name() == old(self).crate_name(),
            try_step(
                old(self).crate_name(),
                old(self).attempt(),
                taken,
                match res {
                    Some(stem) => Some(stem@),
                    None => None,
                },
                final(self).attempt(),
            ),
    {
        if taken {
            self.attempt = self.attempt + 1;
            None
        } else {
            Some(self.results_stem())
        }
    }
}

/// One step of the search: where the name of this attempt is taken, the next one is to be
/// tried, and otherwise the search ends with it.
pub open spec fn try_step(
    crate_name: Seq<char>,
    attempt: nat,
    taken: bool,
    found: Option<Seq<char>>,
    next_attempt: nat,
) -> bool {
    if taken {
        &&& found is None
        &&& next_attempt == attempt + 1
    } else {
        &&& found == Some(spec_stem(crate_name, attempt))
        &&& next_attempt == attempt
    }
}

/// The search ends with the first name that is not taken. `attempts` are the attempts before
/// each step and after the last one, and `taken` says of each step whether its name was taken.
pub proof fn law_first_free_name_is_found(
    crate_name: Seq<char>,
    attempts: Seq<nat>,
    taken: Seq<bool>,
    found: Seq<Option<Seq<char>>>,
)
    requires
        taken.len() > 0,
        found.len() == taken.len(),
        attempts.len() == taken.len() + 1,
        attempts[0] == 0,
        forall|i: int|
            0 <= i < taken.len() ==> try_step(
                crate_name,
                attempts[i],
                #[trigger] taken[i],
                found[i],
                attempts[i + 1],
            ),
        forall|i: int| 0 <= i < taken.len() - 1 ==> (#[trigger] found[i]) is None,
        found.last() is Some,
    ensures
        found.last() == Some(spec_stem(crate_name, (taken.len() - 1) as nat)),
        !taken.last(),
        forall|i: int| 0 <= i < taken.len() - 1 ==> #[trigger] taken[i],
{
    assert forall|i: int| 0 <= i < taken.len() - 1 implies #[trigger] taken[i] by {
        assert(found[i] is None);
    }
    lemma_attempts_count(crate_name, attempts, taken, found, taken.len() - 1);
    assert(taken[taken.len() - 1] == taken.last());
}

proof fn lemma_attempts_count(
    crate_name: Seq<char>,
    attempts: Seq<nat>,
    taken: Seq<bool>,
    found: Seq<Option<Seq<char>>>,
    n: int,
)
    requires
        0 <= n < attempts.len(),
        attempts.len() == taken.len() + 1,
        attempts[0] == 0,
        forall|i: int|
            0 <= i < taken.len() ==> try_step(
                crate_name,
                attempts[i],
                #[trigger] taken[i],
                found[i],
                attempts[i + 1],
            ),
        forall|i: int| 0 <= i < n ==> #[trigger] taken[i],
    ensures
        attempts[n] == n,
    decreases n,
{
    if n > 0 {
        lemma_attempts_count(crate_name, attempts, taken, found, n - 1);
        assert(taken[n - 1]);
    }
}

/// No two attempts try the same name.
pub proof fn law_attempts_differ(crate_name: Seq<char>, i: nat, j: nat)
    requires
        i != j,
    ensures
        spec_stem(crate_name, i) != spec_stem(crate_name, j),
        spec_stem(crate_name, i) + "-mutants"@ != spec_stem(crate_name, j) + "-mutants"@,
{
    reveal_strlit("-");
    let a = spec_stem(crate_name, i);
    let b = spec_stem(crate_name, j);
    let suffix = "-mutants"@;
    if a == b {
        if i > 0 && j > 0 {
            let n = crate_name.len() as int + 1;
            assert(a.skip(n) =~= decimal((i - 1) as nat));
            assert(b.skip(n) =~= decimal((j - 1) as nat));
            law_decimal_is_injective((i - 1) as nat, (j - 1) as nat);
        } else {
            assert(a.len() == b.len());
        }
    }
    if a + suffix == b + suffix {
        assert((a + suffix).take((a + suffix).len() - suffix.len()) =~= a);
        assert((b + suffix).take((b + suffix).len() - suffix.len()) =~= b);
    }
}

/// What the environment says of a switch counts. Where it says nothing, only the switch for
/// the borrow check is on.
pub proof fn law_the_environment_decides(feature: Feature, value: bool)
    ensures
        feature.spec_enabled(Some(value)) == value,
        feature.spec_enabled(None) <==> feature is DoBorrowck,
{
}

/// A definition is tested exactly if it is a safe function with a body that is not named as
/// one to skip, whatever its name is otherwise.
pub proof fn law_which_definitions_are_tested(
    skip_function: Option<Seq<char>>,
    item_name: Seq<char>,
    kind: DefKind,
    has_body: bool,
    safety: Safety,
)
    ensures
        spec_body_action(skip_function, item_name, kind, has_body, safety) is Test <==> {
            &&& kind is Fn || kind is AssocFn
            &&& has_body
            &&& safety is Safe
            &&& skip_function matches Some(function) ==> function != item_name
        },
        spec_body_action(skip_function, item_name, kind, has_body, safety) is SkipNamed <==> (
        skip_function matches Some(function) && function == item_name),
        spec_body_action(skip_function, item_name, kind, has_body, safety) is SkipUnsafe
            ==> safety is Unsafe,
        spec_body_action(skip_function, item_name, kind, has_body, safety) is SkipMissing
            ==> !has_body,
        spec_body_action(skip_function, item_name, kind, has_body, safety) is SkipKind
            ==> kind is Other,
{
}

/// Only dependencies that Cargo compiles are left alone, compilation goes on exactly where
/// Cargo runs the tool, and exactly the mutants that passed are kept, if that is asked for.
pub proof fn law_crates_and_bodies(
    in_cargo_crate: bool,
    is_primary_package: bool,
    verdict: Verdict,
    visualization: Option<bool>,
)
    ensures
        spec_skips_crate(in_cargo_crate, is_primary_package) <==> !(is_primary_package
            || !in_cargo_crate),
        spec_after_analysis(in_cargo_crate) is Continue <==> in_cargo_crate,
        spec_after_analysis(in_cargo_crate) is Stop <==> !in_cargo_crate,
        spec_keeps_body(verdict, visualization) <==> {
            &&& verdict is Accepted
            &&& visualization matches Some(on) && on
        },
{
}

/// The compiler is called by its name; it gets the tool's own arguments last, all of them and
/// in their order. Between them it is told the edition, unless an argument begins with that
/// option, then to use Polonius, if that is asked for, and then to produce no code, unless
/// Cargo runs the tool.
pub proof fn law_compiler_arguments(
    args: Seq<Seq<char>>,
    polonius: bool,
    in_cargo_crate: bool,
)
    ensures
        ({
            let res = spec_compiler_args(args, polonius, in_cargo_crate);
            let edition_given = exists|i: int, rest: Seq<char>|
                #![trigger args[i], "--edition="@ + rest]
                0 <= i < args.len() && args[i] == "--edition="@ + rest;
            let edition = if edition_given {
                0int
            } else {
                1
            };
            let checker = if polonius {
                1int
            } else {
                0
            };
            let code = if in_cargo_crate {
                0int
            } else {
                1
            };
            let own_len = if args.len() == 0 {
                0int
            } else {
                args.len() - 1
            };
            &&& res.len() == 1 + edition + checker + code + own_len
            &&& res[0] == "rustc"@
            &&& !edition_given ==> res[1] == "--edition=2018"@
            &&& polonius ==> res[1 + edition] == "-Zpolonius"@
            &&& !in_cargo_crate ==> res[1 + edition + checker] == "-Zno-codegen"@
            &&& forall|i: int|
                0 <= i < own_len ==> res[1 + edition + checker + code + i] == #[trigger] args[i + 1]
        }),
{
    let edition_given = exists|i: int, rest: Seq<char>|
        #![trigger args[i], "--edition="@ + rest]
        0 <= i < args.len() && args[i] == "--edition="@ + rest;
    if edition_given {
        let (i, rest) = choose|i: int, rest: Seq<char>|
            #![trigger args[i], "--edition="@ + rest]
            0 <= i < args.len() && args[i] == "--edition="@ + rest;
        law_prefix_and_rest(args[i], "--edition="@);
        assert(has_prefix(args[i], "--edition="@));
    }
    if sets_edition(args) {
        let i = choose|i: int|
            0 <= i < args.len() && has_prefix(#[trigger] args[i], "--edition="@);
        law_prefix_and_rest(args[i], "--edition="@);
        let rest = choose|rest: Seq<char>| args[i] == #[trigger] ("--edition="@ + rest);
        assert(args[i] == "--edition="@ + rest);
    }
    assert(sets_edition(args) == edition_given);
}

/// The first name that is tried is that of the crate. The later ones add a dash and a number to
/// it, which counts up from 0.
pub proof fn law_names_are_numbered(crate_name: Seq<char>, attempt: nat)
    ensures
        spec_stem(crate_name, 0) == crate_name,
        ({
            let stem = spec_stem(crate_name, attempt + 1);
            let n = crate_name.len() as int;
            &&& stem.take(n) == crate_name
            &&& stem[n] == '-'
            &&& number(stem.skip(n + 1)) == attempt
            &&& forall|i: int| n < i < stem.len() ==> '0' as int <= (#[trigger] stem[i]) as int
                <= '9' as int
            &&& stem[n + 1] == '0' ==> attempt == 0
        }),
{
    reveal_strlit("-");
    let stem = spec_stem(crate_name, attempt + 1);
    let n = crate_name.len() as int;
    law_decimal_reads_back(attempt);
    assert(stem.take(n) =~= crate_name);
    assert(stem.skip(n + 1) =~= decimal(attempt));
    assert forall|i: int| n < i < stem.len() implies '0' as int <= (#[trigger] stem[i]) as int
        <= '9' as int by {
        assert(stem[i] == decimal(attempt)[i - n - 1]);
    }
    assert(stem[n + 1] == decimal(attempt)[0]);
}

/// The name of the log file is that of the results with an ending.
pub proof fn law_the_log_goes_with_the_results(stem: Seq<char>)
    ensures
        spec_log_stem(stem).take(stem.len() as int) == stem,
        spec_log_stem(stem).skip(stem.len() as int) == "-mutants"@,
{
    assert(spec_log_stem(stem).take(stem.len() as int) =~= stem);
    assert(spec_log_stem(stem).skip(stem.len() as int) =~= "-mutants"@);
}

} // verus!
