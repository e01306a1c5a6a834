use pcg_mutation::driver::{
    after_analysis, body_action, compiler_args, keeps_body, skips_crate, BodyAction, Compilation,
    DefKind, Feature, ResultNames, Safety,
};
use pcg_mutation::results::Verdict;
use pcg_mutation::visualization::{functions_file, functions_json, item_dir};

fn strings(texts: &[&str]) -> Vec<String> {
    texts.iter().map(|text| text.to_string()).collect()
}

#[test]
fn features_are_read_from_their_variables() {
    assert_eq!(Feature::DoBorrowck.variable(), "DO_BORROWCK");
    assert_eq!(Feature::PcgVisualization.variable(), "PCG_VISUALIZATION");
    assert_eq!(Feature::MutantsLog.variable(), "MUTANTS_LOG");
    assert_eq!(Feature::PcgPolonius.variable(), "PCG_POLONIUS");
}

#[test]
fn only_the_borrow_check_is_on_by_default() {
    assert!(Feature::DoBorrowck.enabled(None));
    assert!(!Feature::PcgVisualization.enabled(None));
    assert!(!Feature::MutantsLog.enabled(None));
    assert!(!Feature::PcgPolonius.enabled(None));
    assert!(!Feature::DoBorrowck.enabled(Some(false)));
    assert!(Feature::MutantsLog.enabled(Some(true)));
}

#[test]
fn arguments_outside_cargo() {
    let args = strings(&["tool", "main.rs", "-O"]);
    assert_eq!(
        compiler_args(&args, None, false),
        strings(&["rustc", "--edition=2018", "-Zno-codegen", "main.rs", "-O"])
    );
}

#[test]
fn arguments_with_an_edition_in_cargo() {
    let args = strings(&["tool", "--crate-name", "x", "--edition=2021"]);
    assert_eq!(
        compiler_args(&args, Some(true), true),
        strings(&["rustc", "-Zpolonius", "--crate-name", "x", "--edition=2021"])
    );
}

#[test]
fn an_edition_has_to_begin_the_argument() {
    let args = strings(&["tool", "x--edition=2021", "--edition", "--editio"]);
    assert_eq!(
        compiler_args(&args, Some(false), true),
        strings(&["rustc", "--edition=2018", "x--edition=2021", "--edition", "--editio"])
    );
}

#[test]
fn the_name_of_the_tool_counts_as_an_argument_for_the_edition() {
    assert_eq!(
        compiler_args(&strings(&["--edition=2021"]), None, true),
        strings(&["rustc"])
    );
}

#[test]
fn no_arguments_at_all() {
    assert_eq!(
        compiler_args(&strings(&[]), None, false),
        strings(&["rustc", "--edition=2018", "-Zno-codegen"])
    );
}

#[test]
fn compilation_goes_on_in_cargo_only() {
    assert_eq!(after_analysis(true), Compilation::Continue);
    assert_eq!(after_analysis(false), Compilation::Stop);
}

#[test]
fn dependencies_are_left_alone() {
    assert!(skips_crate(true, false));
    assert!(!skips_crate(true, true));
    assert!(!skips_crate(false, false));
    assert!(!skips_crate(false, true));
}

#[test]
fn which_bodies_are_tested() {
    let name = "krate::f".to_string();
    let none: Option<String> = None;
    let other = Some("krate::g".to_string());
    let same = Some("krate::f".to_string());
    assert_eq!(
        body_action(&none, &name, DefKind::Fn, true, Safety::Safe),
        BodyAction::Test
    );
    assert_eq!(
        body_action(&other, &name, DefKind::AssocFn, true, Safety::Safe),
        BodyAction::Test
    );
    assert_eq!(
        body_action(&same, &name, DefKind::Other, true, Safety::Safe),
        BodyAction::SkipNamed
    );
    assert_eq!(
        body_action(&none, &name, DefKind::Other, true, Safety::Safe),
        BodyAction::SkipKind
    );
    assert_eq!(
        body_action(&none, &name, DefKind::Fn, false, Safety::Unsafe),
        BodyAction::SkipMissing
    );
    assert_eq!(
        body_action(&none, &name, DefKind::AssocFn, true, Safety::Unsafe),
        BodyAction::SkipUnsafe
    );
}

#[test]
fn only_accepted_mutants_are_kept() {
    let rejected = Verdict::Rejected { error_codes: strings(&["E0499"]) };
    assert!(keeps_body(&Verdict::Accepted, Some(true)));
    assert!(!keeps_body(&Verdict::Accepted, Some(false)));
    assert!(!keeps_body(&Verdict::Accepted, None));
    assert!(!keeps_body(&rejected, Some(true)));
    assert!(!keeps_body(&Verdict::NotChecked, Some(true)));
}

#[test]
fn outside_cargo_there_are_no_results() {
    assert!(ResultNames::new(None).is_none());
}

#[test]
fn result_names_are_numbered_from_the_second_attempt() {
    let mut names = ResultNames::new(Some("krate".to_string())).unwrap();
    assert_eq!(names.results_stem(), "krate");
    assert_eq!(names.mutants_log_stem(), "krate-mutants");
    assert!(names.try_name(true).is_none());
    assert_eq!(names.results_stem(), "krate-0");
    assert_eq!(names.mutants_log_stem(), "krate-0-mutants");
    for _ in 0..11 {
        assert!(names.try_name(true).is_none());
    }
    assert_eq!(names.try_name(false), Some("krate-11".to_string()));
    assert_eq!(names.mutants_log_stem(), "krate-11-mutants");
}

#[test]
fn the_first_free_name_is_found() {
    let taken = strings(&["krate-mutants", "krate-0-mutants", "krate-2-mutants"]);
    let mut names = ResultNames::new(Some("krate".to_string())).unwrap();
    let found = loop {
        let is_taken = taken.contains(&names.mutants_log_stem());
        if let Some(stem) = names.try_name(is_taken) {
            break stem;
        }
    };
    assert_eq!(found, "krate-1");
    assert_eq!(names.mutants_log_stem(), "krate-1-mutants");
}

#[test]
fn attempts_differ() {
    let mut names = ResultNames::new(Some("krate".to_string())).unwrap();
    let mut seen: Vec<String> = Vec::new();
    for _ in 0..25 {
        assert!(!seen.contains(&names.results_stem()));
        seen.push(names.results_stem());
        names.try_name(true);
    }
}

#[test]
fn visualization_paths() {
    assert_eq!(item_dir("vis", "krate::f"), "vis/krate::f");
    assert_eq!(functions_file("vis"), "vis/functions.json");
}

#[test]
fn functions_file_without_functions() {
    assert_eq!(functions_json(&strings(&[])), "{}");
}

#[test]
fn functions_file_names_each_function_once() {
    assert_eq!(functions_json(&strings(&["f", "f", "f"])), r#"{"f":"f"}"#);
}

#[test]
fn functions_file_in_any_order() {
    let json = functions_json(&strings(&["f", "g", "f"]));
    assert!(json == r#"{"f":"f","g":"g"}"# || json == r#"{"g":"g","f":"f"}"#);
}

#[test]
fn functions_file_escapes_names() {
    assert_eq!(
        functions_json(&strings(&["<impl \"a\\b\">/\u{8}\t\n\u{c}\r\u{1}\u{1f}\u{7f}é"])),
        "{\"<impl \\\"a\\\\b\\\">/\\b\\t\\n\\f\\r\\u0001\\u001f\u{7f}é\":\
         \"<impl \\\"a\\\\b\\\">/\\b\\t\\n\\f\\r\\u0001\\u001f\u{7f}é\"}"
    );
}

#[test]
fn functions_file_is_json() {
    let json = functions_json(&strings(&["a", "b\"", "c"]));
    let value: serde_json::Value = serde_json::from_str(&json).unwrap();
    let object = value.as_object().unwrap();
    assert_eq!(object.len(), 3);
    assert_eq!(object["b\""].as_str(), Some("b\""));
}
