use pcg_mutation::mutator::mutator_impl::{MutantLocation, MutantRange};
use pcg_mutation::results::{BorrowCheckInfo, LogEntry, TestRun, Verdict};
use pcg_mutation::text::{contains_text, decimal_text, starts_with};

fn range(basic_block: usize, statement_index: usize) -> MutantRange {
    let location = MutantLocation { basic_block, statement_index };
    MutantRange { start: location, end: location }
}

fn rejected(codes: &[&str]) -> Verdict {
    Verdict::Rejected { error_codes: codes.iter().map(|code| code.to_string()).collect() }
}

fn entry(info: &str) -> LogEntry {
    LogEntry {
        mutation_type: "m".to_string(),
        borrow_check_info: BorrowCheckInfo::NoRun,
        definition: "d".to_string(),
        range: range(0, 1),
        info: info.to_string(),
    }
}

#[test]
fn a_new_run_is_empty() {
    let run = TestRun::new();
    assert!(run.entries().is_empty());
    assert_eq!(run.mutants_log().len(), 0);
    assert!(run.data(&"m".to_string()).is_none());
}

#[test]
fn starting_a_mutation_twice_keeps_its_record() {
    let name = "m".to_string();
    let mut run = TestRun::new();
    run.start_mutation(name.clone());
    run.count_instance(&name);
    run.start_mutation(name.clone());
    assert_eq!(run.entries().len(), 1);
    let data = run.data(&name).unwrap();
    assert_eq!(
        (data.instances, data.passed, data.failed, data.panicked),
        (1, 0, 0, 0)
    );
    assert!(data.error_codes.is_empty());
}

#[test]
fn records_keep_apart() {
    let (a, b) = ("a".to_string(), "b".to_string());
    let mut run = TestRun::new();
    run.start_mutation(a.clone());
    run.start_mutation(b.clone());
    run.count_instance(&b);
    run.record_verdict(&b, Verdict::Accepted);
    run.count_instance(&b);
    run.record_panic(&b);
    let data = run.data(&b).unwrap();
    assert_eq!(
        (data.instances, data.passed, data.failed, data.panicked),
        (2, 1, 0, 1)
    );
    assert_eq!(run.data(&a).unwrap().instances, 0);
    assert_eq!(run.entries()[0].0, "a");
    assert_eq!(run.entries()[1].0, "b");
}

#[test]
fn error_codes_are_collected_once() {
    let name = "m".to_string();
    let mut run = TestRun::new();
    run.start_mutation(name.clone());
    run.count_instance(&name);
    let info = run.record_verdict(&name, rejected(&["E0499", "E0502", "E0499"]));
    match info {
        BorrowCheckInfo::Failed { error_codes } => {
            assert_eq!(error_codes, vec!["E0499".to_string(), "E0502".to_string()])
        }
        _ => panic!("the mutant was rejected"),
    }
    run.count_instance(&name);
    run.record_verdict(&name, rejected(&["E0505", "E0502"]));
    let data = run.data(&name).unwrap();
    assert_eq!((data.instances, data.passed, data.failed), (2, 0, 2));
    assert_eq!(
        data.error_codes,
        vec!["E0499".to_string(), "E0502".to_string(), "E0505".to_string()]
    );
}

#[test]
fn verdicts_and_what_the_log_says_of_them() {
    let name = "m".to_string();
    let mut run = TestRun::new();
    run.start_mutation(name.clone());
    let info = run.record_verdict(&name, Verdict::NotChecked);
    assert!(matches!(info, BorrowCheckInfo::NoRun));
    let info = run.record_verdict(&name, Verdict::Accepted);
    assert!(matches!(info, BorrowCheckInfo::Passed));
    let data = run.data(&name).unwrap();
    assert_eq!((data.passed, data.failed), (1, 0));
}

#[test]
fn the_log_is_numbered_in_order() {
    let mut run = TestRun::new();
    for i in 0..12 {
        run.log_mutant(entry(&format!("mutant {i}")));
    }
    let keys: Vec<&String> = run.mutants_log().keys().collect();
    assert_eq!(
        keys,
        vec!["0", "1", "2", "3", "4", "5", "6", "7", "8", "9", "10", "11"]
    );
    assert_eq!(run.mutants_log()["10"].info, "mutant 10");
    assert_eq!(run.mutants_log().get_index(3).unwrap().1.info, "mutant 3");
}

#[test]
fn a_checked_mutant_is_logged_if_asked() {
    let name = "m".to_string();
    let mut run = TestRun::new();
    run.start_mutation(name.clone());
    run.count_instance(&name);
    run.record_checked(
        &name,
        Verdict::Accepted,
        "krate::f".to_string(),
        range(2, 5),
        "info".to_string(),
        None,
    );
    assert_eq!(run.mutants_log().len(), 0);
    run.count_instance(&name);
    run.record_checked(
        &name,
        rejected(&["E0382"]),
        "krate::f".to_string(),
        range(2, 6),
        "other".to_string(),
        Some(true),
    );
    assert_eq!(run.mutants_log().len(), 1);
    let logged = &run.mutants_log()["0"];
    assert_eq!(logged.mutation_type, "m");
    assert_eq!(logged.definition, "krate::f");
    assert_eq!(logged.range, range(2, 6));
    assert_eq!(logged.info, "other");
    assert!(matches!(&logged.borrow_check_info,
        BorrowCheckInfo::Failed { error_codes } if *error_codes == vec!["E0382".to_string()]));
    let data = run.data(&name).unwrap();
    assert_eq!((data.instances, data.passed, data.failed), (2, 1, 1));
}

#[test]
fn counts_agree_however_mutants_fare() {
    let name = "m".to_string();
    let mut run = TestRun::new();
    run.start_mutation(name.clone());
    for i in 0..9 {
        run.count_instance(&name);
        if i % 3 == 0 {
            run.record_verdict(&name, Verdict::Accepted);
        } else if i % 3 == 1 {
            run.record_verdict(&name, rejected(&["E0499"]));
        }
        if i % 4 == 0 {
            run.record_panic(&name);
        }
        let data = run.data(&name).unwrap();
        assert!(data.passed + data.failed <= data.instances);
        assert!(data.panicked <= data.instances);
    }
}

#[test]
fn counts_add_up_where_each_mutant_is_judged_or_breaks_off() {
    let name = "m".to_string();
    let mut run = TestRun::new();
    run.start_mutation(name.clone());
    for i in 0..9 {
        run.count_instance(&name);
        if i % 3 == 0 {
            run.record_verdict(&name, Verdict::Accepted);
        } else if i % 3 == 1 {
            run.record_verdict(&name, rejected(&["E0499"]));
        } else {
            run.record_panic(&name);
        }
        let data = run.data(&name).unwrap();
        assert_eq!(data.instances, data.passed + data.failed + data.panicked);
    }
}

#[test]
fn decimal_notation() {
    assert_eq!(decimal_text(0), "0");
    assert_eq!(decimal_text(9), "9");
    assert_eq!(decimal_text(10), "10");
    assert_eq!(decimal_text(1234567890), "1234567890");
    assert_eq!(decimal_text(usize::MAX), format!("{}", usize::MAX));
}

#[test]
fn prefixes() {
    assert!(starts_with("--edition=2021", "--edition="));
    assert!(starts_with("abc", ""));
    assert!(starts_with("", ""));
    assert!(!starts_with("", "a"));
    assert!(!starts_with("ab", "abc"));
    assert!(!starts_with("axc", "ab"));
    assert!(starts_with("é1", "é"));
}

#[test]
fn membership_of_texts() {
    let list = vec!["a".to_string(), "b".to_string()];
    assert!(contains_text(&list, &"b".to_string()));
    assert!(!contains_text(&list, &"c".to_string()));
    assert!(!contains_text(&Vec::new(), &"a".to_string()));
}
