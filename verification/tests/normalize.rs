use trybuild::normalize::{diagnostics, trim, Context, Normalization, Variations};

fn ctx(krate: &str, source_dir: &str, workspace: &str) -> Context {
    Context {
        krate: krate.to_string(),
        source_dir: source_dir.to_string(),
        workspace: workspace.to_string(),
    }
}

fn empty_ctx() -> Context {
    ctx("", "", "")
}

fn all_variations(v: &Variations) -> Vec<String> {
    let mut out = Vec::new();
    let mut i = 0;
    while i < v.count() {
        out.push(v.variation(i).clone());
        i += 1;
    }
    out
}

#[test]
fn location_arrow_collapses_to_dir_token() {
    let raw = b"--> /home/u/proj/src/lib.rs:3:5";
    let v = diagnostics(raw, &ctx("trybuild000", "/home/u/proj", "/home/u"));
    for s in all_variations(&v) {
        assert_eq!(s, "--> $DIR/lib.rs:3:5\n");
    }
}

#[test]
fn location_arrow_keeps_indentation() {
    let raw = b"  --> src\\main.rs:1:1\nerror: x\n";
    let v = diagnostics(raw, &empty_ctx());
    assert_eq!(v.variation(0), "  --> $DIR/main.rs:1:1\nerror: x\n");
}

#[test]
fn aborting_summary_is_always_dropped() {
    let raw = b"error: aborting due to 2 previous errors\n";
    let v = diagnostics(raw, &ctx("a", "b", "c"));
    for s in all_variations(&v) {
        assert_eq!(s, "");
    }
}

#[test]
fn verbose_hint_is_always_dropped() {
    let raw = b"To learn more, run the command again with --verbose.\n";
    let v = diagnostics(raw, &empty_ctx());
    for s in all_variations(&v) {
        assert_eq!(s, "");
    }
}

#[test]
fn could_not_compile_dropped_only_at_higher_levels() {
    let raw = b"error: could not compile `demo`.\n";
    let v = diagnostics(raw, &empty_ctx());
    assert_eq!(v.variation(0), "error: could not compile `demo`.\n");
    assert_eq!(v.variation(1), "error: could not compile `demo`.\n");
    for i in 2..8 {
        assert_eq!(v.variation(i), "");
    }
}

#[test]
fn old_could_not_compile_wording_has_its_own_level() {
    let raw = b"error: Could not compile `demo`.\n";
    let v = diagnostics(raw, &empty_ctx());
    assert_eq!(v.variation(0), "error: Could not compile `demo`.\n");
    for i in 1..8 {
        assert_eq!(v.variation(i), "");
    }
}

#[test]
fn explain_trailers_dropped_at_their_levels() {
    let raw = b"For more information about this error, try `rustc --explain E0308`.\n";
    let v = diagnostics(raw, &empty_ctx());
    assert_eq!(v.variation(2), "For more information about this error, try `rustc --explain E0308`.\n");
    assert_eq!(v.variation(3), "");
    let raw2 = b"Some errors have detailed explanations: E0277, E0308.\n";
    let v2 = diagnostics(raw2, &empty_ctx());
    assert_eq!(v2.variation(3), "Some errors have detailed explanations: E0277, E0308.\n");
    assert_eq!(v2.variation(4), "");
}

#[test]
fn crate_dir_workspace_substitutions() {
    let raw = b"note: demo used in /home/u/proj/src inside /home/u\n";
    let v = diagnostics(raw, &ctx("demo", "/home/u/proj", "/home/u"));
    assert_eq!(
        v.variation(0),
        "note: $CRATE used in $DIR/src inside $WORKSPACE\n"
    );
}

#[test]
fn empty_substitution_targets_change_nothing() {
    let raw = b"hello world\n";
    let v = diagnostics(raw, &empty_ctx());
    for s in all_variations(&v) {
        assert_eq!(s, "hello world\n");
    }
}

#[test]
fn backslash_suffixed_dir_replaced_at_dir_backslash_level() {
    let raw = b"the file C:\\proj\\main.rs was rejected\n";
    let v = diagnostics(raw, &ctx("", "C:\\proj", ""));
    assert_eq!(v.variation(0), "the file $DIR\\main.rs was rejected\n");
    assert_eq!(v.variation(5), "the file $DIR/main.rs was rejected\n");
}

#[test]
fn trailing_line_whitespace_dropped_at_trim_end_level() {
    let raw = b"error: one   \nnote: two\n";
    let v = diagnostics(raw, &empty_ctx());
    assert_eq!(v.variation(5), "error: one   \nnote: two\n");
    assert_eq!(v.variation(6), "error: one\nnote: two\n");
}

#[test]
fn secondary_location_workspace_and_slashes() {
    let raw = b"  ::: /ws/member\\src\\lib.rs:4:1\n";
    let v = diagnostics(raw, &ctx("", "", "/ws"));
    assert_eq!(v.variation(0), "  ::: $WORKSPACE/member/src/lib.rs:4:1\n");
}

#[test]
fn secondary_location_rustlib_collapsed_only_at_last_level() {
    let raw = b"::: /tc/rustlib/src/rust/src/libstd/net/ip.rs:83:1\n";
    let v = diagnostics(raw, &empty_ctx());
    assert_eq!(v.variation(6), "::: /tc/rustlib/src/rust/src/libstd/net/ip.rs:83:1\n");
    assert_eq!(v.variation(7), "::: $RUST/src/libstd/net/ip.rs:83:1\n");
}

#[test]
fn blank_runs_collapse_and_trailing_blanks_go() {
    let raw = b"error: one\n\n\n\nnote: two\n\n\n";
    let v = diagnostics(raw, &empty_ctx());
    assert_eq!(v.variation(7), "error: one\n\nnote: two\n");
}

#[test]
fn empty_input_gives_empty_variations() {
    let v = diagnostics(b"", &ctx("a", "b", "c"));
    for s in all_variations(&v) {
        assert_eq!(s, "");
    }
}

#[test]
fn nonempty_variations_end_with_exactly_one_newline() {
    let raw = b"warning: something  \n\nnote: more\n\n";
    let v = diagnostics(raw, &ctx("w", "/s", "/w"));
    for s in all_variations(&v) {
        assert!(!s.is_empty());
        assert!(s.ends_with('\n'));
        assert!(!s.ends_with("\n\n"));
    }
}

#[test]
fn renormalizing_preferred_output_is_identity() {
    let raw = b"error: one   \n\n\nerror: aborting due to 3 previous errors\nSome errors have detailed explanations: E0308.\nnote: fine\n";
    let first = diagnostics(raw, &empty_ctx());
    let preferred = first.preferred().clone();
    let second = diagnostics(preferred.as_bytes(), &empty_ctx());
    assert_eq!(second.preferred(), &preferred);
}

#[test]
fn variations_are_monotone_in_dropping() {
    let raw = b"error: could not compile `x`\nFor more information about this error, try `rustc --explain E1`\nkept line\n";
    let v = diagnostics(raw, &empty_ctx());
    let texts = all_variations(&v);
    for i in 1..8 {
        for line in texts[i].lines() {
            assert!(
                texts[i - 1].lines().any(|l| l == line),
                "line {:?} appeared only at level {}",
                line,
                i
            );
        }
    }
}

#[test]
fn round_trip_preferred_matches() {
    let raw = b"error[E0308]: mismatched types\n --> /p/src/main.rs:2:2\nerror: aborting due to 1 previous error\n";
    let v = diagnostics(raw, &ctx("trybuild001", "/p", "/"));
    let preferred = v.preferred().clone();
    assert!(trybuild::normalize::matches(&v, preferred.as_str()));
}

#[test]
fn matching_accepts_any_level_and_crlf_expectations() {
    let raw = b"error: could not compile `x`\nkept\n";
    let v = diagnostics(raw, &empty_ctx());
    assert!(trybuild::normalize::matches(&v, "error: could not compile `x`\nkept\n"));
    assert!(trybuild::normalize::matches(&v, "kept\n"));
    assert!(trybuild::normalize::matches(&v, "error: could not compile `x`\r\nkept\r\n"));
    assert!(!trybuild::normalize::matches(&v, "something else\n"));
}

#[test]
fn trim_decodes_and_terminates() {
    assert_eq!(trim(b"hi  \n\n"), "hi\n");
    assert_eq!(trim(b"hi"), "hi\n");
    assert_eq!(trim(b""), "");
    assert_eq!(trim(b"   \t\n"), "");
}

#[test]
fn trim_replaces_invalid_utf8() {
    let out = trim(&[0xff, 0xfe]);
    assert_eq!(out, "\u{fffd}\u{fffd}\n");
}

#[test]
fn context_new_takes_the_tests_name() {
    let project = trybuild::run::Project::new(trybuild::UpdatePolicy::RecordPending);
    let test = trybuild::run::Test {
        name: "trybuild005".to_string(),
        spec: trybuild::run::TestSpec {
            path: "tests/ui/x.rs".to_string(),
            expected: trybuild::Expected::CompileFail,
        },
        error: None,
    };
    let c = Context::new(&project, &test);
    assert_eq!(c.krate, "trybuild005");
    assert_eq!(c.source_dir, "");
    assert_eq!(c.workspace, "");
}

#[test]
fn empty_expectation_matches_fully_stripped_output() {
    let raw = b"error: aborting due to 5 previous errors\n";
    let v = diagnostics(raw, &empty_ctx());
    assert!(trybuild::normalize::matches(&v, ""));
}

#[test]
fn levels_are_ordered_and_index_the_variations() {
    let order = [
        Normalization::Basic,
        Normalization::StripCouldNotCompile,
        Normalization::StripCouldNotCompile2,
        Normalization::StripForMoreInformation,
        Normalization::StripForMoreInformation2,
        Normalization::DirBackslash,
        Normalization::TrimEnd,
        Normalization::RustLib,
    ];
    for (i, n) in order.iter().enumerate() {
        assert_eq!(n.level() as usize, i);
    }
    let raw = b"error: could not compile `x`\n";
    let v = diagnostics(raw, &empty_ctx());
    assert_eq!(v.count(), order.len());
    assert_eq!(
        v.variation(Normalization::Basic.level() as usize),
        "error: could not compile `x`\n"
    );
    assert_eq!(v.variation(Normalization::RustLib.level() as usize), "");
    assert_eq!(v.preferred(), v.variation(7));
}
