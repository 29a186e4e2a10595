use trybuild::run::{
    bin_name, check_compile_fail, check_pass, expand_globs, filter_tests, harness_failed,
    parse_filters, prepend_output, run_outcome, CargoStrategy, Decision, Expansion, Project,
    Test, TestOutcome, TestSpec, WriteDest,
};
use trybuild::normalize::diagnostics;
use trybuild::{Error, Expected, UpdatePolicy};

fn some_variations() -> trybuild::normalize::Variations {
    let context = trybuild::normalize::Context {
        krate: "trybuild000".to_string(),
        source_dir: "/p".to_string(),
        workspace: "/".to_string(),
    };
    diagnostics(b"error[E0308]: mismatched types\n --> /p/src/main.rs:2:2\n", &context)
}

#[test]
fn compile_fail_that_compiles_is_always_should_not_have_compiled() {
    let v = some_variations();
    let stored = "anything".to_string();
    for policy in [UpdatePolicy::RecordPending, UpdatePolicy::Overwrite] {
        let (outcome, write) = check_compile_fail(true, Some(&stored), &v, policy);
        assert_eq!(outcome, TestOutcome::ShouldNotHaveCompiled);
        assert!(write.is_none());
        let (outcome2, write2) = check_compile_fail(true, None, &v, policy);
        assert_eq!(outcome2, TestOutcome::ShouldNotHaveCompiled);
        assert!(write2.is_none());
    }
}

#[test]
fn first_baseline_goes_to_scratch_under_record_pending() {
    let v = some_variations();
    let (outcome, write) = check_compile_fail(false, None, &v, UpdatePolicy::RecordPending);
    assert_eq!(outcome, TestOutcome::Matched);
    let write = write.expect("a new expectation must be persisted");
    assert_eq!(write.dest, WriteDest::Scratch);
    assert_eq!(&write.content, v.preferred());
}

#[test]
fn first_baseline_goes_in_place_under_overwrite() {
    let v = some_variations();
    let (outcome, write) = check_compile_fail(false, None, &v, UpdatePolicy::Overwrite);
    assert_eq!(outcome, TestOutcome::Matched);
    let write = write.expect("a new expectation must be persisted");
    assert_eq!(write.dest, WriteDest::Authoritative);
    assert_eq!(&write.content, v.preferred());
}

#[test]
fn matching_expectation_passes_without_writing() {
    let v = some_variations();
    let stored = v.preferred().clone();
    for policy in [UpdatePolicy::RecordPending, UpdatePolicy::Overwrite] {
        let (outcome, write) = check_compile_fail(false, Some(&stored), &v, policy);
        assert_eq!(outcome, TestOutcome::Matched);
        assert!(write.is_none());
    }
}

#[test]
fn mismatch_fails_under_record_pending_and_overwrites_under_overwrite() {
    let v = some_variations();
    let stored = "not the diagnostic\n".to_string();
    let (outcome, write) = check_compile_fail(false, Some(&stored), &v, UpdatePolicy::RecordPending);
    assert_eq!(outcome, TestOutcome::Mismatched);
    assert!(write.is_none());
    let (outcome2, write2) = check_compile_fail(false, Some(&stored), &v, UpdatePolicy::Overwrite);
    assert_eq!(outcome2, TestOutcome::Matched);
    let write2 = write2.expect("the mismatched expectation must be replaced");
    assert_eq!(write2.dest, WriteDest::Authoritative);
    assert_eq!(&write2.content, v.preferred());
}

#[test]
fn round_trip_of_a_recorded_baseline_matches() {
    let v = some_variations();
    let (_, write) = check_compile_fail(false, None, &v, UpdatePolicy::RecordPending);
    let stored = write.unwrap().content;
    let (outcome, write2) = check_compile_fail(false, Some(&stored), &v, UpdatePolicy::RecordPending);
    assert_eq!(outcome, TestOutcome::Matched);
    assert!(write2.is_none());
    let (outcome3, write3) = check_compile_fail(false, Some(&stored), &v, UpdatePolicy::Overwrite);
    assert_eq!(outcome3, TestOutcome::Matched);
    assert!(write3.is_none());
}

#[test]
fn pass_test_that_fails_to_build_is_mismatched() {
    match check_pass(false) {
        Decision::Done { outcome, write } => {
            assert_eq!(outcome, TestOutcome::Mismatched);
            assert!(write.is_none());
        }
        Decision::NeedsRun => panic!("a failed build must not be run"),
    }
}

#[test]
fn pass_test_that_builds_runs_and_exit_status_decides() {
    assert!(matches!(check_pass(true), Decision::NeedsRun));
    assert_eq!(run_outcome(true), TestOutcome::RunSucceeded);
    assert_eq!(run_outcome(false), TestOutcome::RunFailed);
}

#[test]
fn build_stdout_is_prefixed_to_run_stdout() {
    let merged = prepend_output(&b"warning: w\n".to_vec(), &b"program output\n".to_vec());
    assert_eq!(merged, b"warning: w\nprogram output\n".to_vec());
}

#[test]
fn failure_outcomes() {
    assert!(TestOutcome::Mismatched.is_failure());
    assert!(TestOutcome::ShouldNotHaveCompiled.is_failure());
    assert!(TestOutcome::RunFailed.is_failure());
    assert!(!TestOutcome::Matched.is_failure());
    assert!(!TestOutcome::RunSucceeded.is_failure());
}

#[test]
fn harness_fails_unless_self_testing() {
    assert!(harness_failed(1, false));
    assert!(!harness_failed(0, false));
    assert!(!harness_failed(3, true));
}

#[test]
fn bin_names_are_zero_padded_positions() {
    assert_eq!(bin_name(0), "trybuild000");
    assert_eq!(bin_name(7), "trybuild007");
    assert_eq!(bin_name(42), "trybuild042");
    assert_eq!(bin_name(123), "trybuild123");
    assert_eq!(bin_name(1234), "trybuild1234");
}

#[test]
fn expansion_numbers_tests_in_order() {
    let specs = vec![
        TestSpec { path: "tests/ui/a.rs".to_string(), expected: Expected::CompileFail },
        TestSpec { path: "tests/ui/*.rs".to_string(), expected: Expected::Pass },
        TestSpec { path: "tests/bad[*.rs".to_string(), expected: Expected::CompileFail },
    ];
    let expansions = vec![
        Expansion::NotGlob,
        Expansion::Expanded(vec!["tests/ui/x.rs".to_string(), "tests/ui/y.rs".to_string()]),
        Expansion::Failed("invalid pattern".to_string()),
    ];
    let tests = expand_globs(&specs, &expansions);
    assert_eq!(tests.len(), 4);
    assert_eq!(tests[0].name, "trybuild000");
    assert_eq!(tests[1].name, "trybuild001");
    assert_eq!(tests[2].name, "trybuild002");
    assert_eq!(tests[3].name, "trybuild003");
    assert_eq!(tests[0].spec.path, "tests/ui/a.rs");
    assert_eq!(tests[1].spec.path, "tests/ui/x.rs");
    assert_eq!(tests[2].spec.path, "tests/ui/y.rs");
    assert_eq!(tests[1].spec.expected, Expected::Pass);
    assert!(tests[0].error.is_none());
    match &tests[3].error {
        Some(Error::Expansion(msg)) => assert_eq!(msg, "invalid pattern"),
        _ => panic!("a failed expansion must carry its error"),
    }
}

#[test]
fn filters_come_from_prefixed_arguments() {
    let args = vec![
        "ui".to_string(),
        "trybuild=tuple_structs.rs".to_string(),
        "trybuild=".to_string(),
        "other".to_string(),
    ];
    let filters = parse_filters(&args);
    assert_eq!(filters, vec!["tuple_structs.rs".to_string()]);
}

#[test]
fn empty_filter_list_keeps_every_test() {
    let tests = expand_globs(
        &vec![TestSpec { path: "tests/ui/a.rs".to_string(), expected: Expected::Pass }],
        &vec![Expansion::NotGlob],
    );
    let kept = filter_tests(tests, &Vec::new());
    assert_eq!(kept.len(), 1);
}

#[test]
fn filters_select_by_substring_of_the_path() {
    let specs = vec![
        TestSpec { path: "tests/ui/tuple_structs.rs".to_string(), expected: Expected::Pass },
        TestSpec { path: "tests/ui/other.rs".to_string(), expected: Expected::Pass },
    ];
    let tests = expand_globs(&specs, &vec![Expansion::NotGlob, Expansion::NotGlob]);
    let kept = filter_tests(tests, &vec!["tuple".to_string()]);
    assert_eq!(kept.len(), 1);
    assert_eq!(kept[0].spec.path, "tests/ui/tuple_structs.rs");
}

#[test]
fn test_accessors() {
    let t = Test {
        name: "trybuild009".to_string(),
        spec: TestSpec { path: "tests/ui/a.rs".to_string(), expected: Expected::Pass },
        error: None,
    };
    assert_eq!(t.crate_name(), "trybuild009");
    assert_eq!(t.path(), "tests/ui/a.rs");
    assert!(t.requires_run());
    let t2 = Test {
        name: "trybuild010".to_string(),
        spec: TestSpec { path: "b.rs".to_string(), expected: Expected::CompileFail },
        error: None,
    };
    assert!(!t2.requires_run());
}

#[test]
fn project_new_threads_the_policy() {
    let p = Project::new(UpdatePolicy::Overwrite);
    assert_eq!(p.update, UpdatePolicy::Overwrite);
    assert_eq!(p.source_dir, "");
    assert_eq!(p.workspace, "");
    assert!(!p.has_pass && !p.has_compile_fail && !p.self_test);
}

#[test]
fn strategy_starts_unprepared() {
    let s = CargoStrategy::new();
    assert!(s.0.is_none());
}
