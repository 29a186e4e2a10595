//! The per-test execution state machine: each test case moves from
//! `Pending` through `Built` to a terminal outcome, deciding from the build
//! result, the stored expectation and the update policy what to report and
//! what, if anything, to persist. The external build and run steps are
//! performed by the caller; everything decided here is pure.

use vstd::prelude::*;

use crate::Error;
use crate::Expected;
use crate::UpdatePolicy;
use crate::cargo::CargoProject;
use crate::manifest::Bin;
use crate::manifest::Build;
use crate::manifest::Config;
use crate::manifest::Dependency;
use crate::manifest::Manifest;
use crate::manifest::Name;
use crate::manifest::Package;
use crate::manifest::SourceManifest;
use crate::manifest::bins_views;
use crate::manifest::dep_view;
use crate::normalize::Variations;
use crate::normalize::spec_matches;
use crate::text::str_to_chars;

verus! {

/// Terminal states of the per-test state machine.
#[derive(Clone, Copy, Debug, PartialEq, Eq, Structural)]
pub enum TestOutcome {
    /// The diagnostic matched the expectation (or established a baseline).
    Matched,
    /// The build result or diagnostic was not the expected one.
    Mismatched,
    /// A `CompileFail` test compiled.
    ShouldNotHaveCompiled,
    /// A `Pass` test built but its binary exited unsuccessfully.
    RunFailed,
    /// A `Pass` test built and its binary exited successfully.
    RunSucceeded,
}

impl TestOutcome {
    /// Whether this outcome counts as a failure in the run's tally.
    pub open spec fn spec_is_failure(self) -> bool {
        self == TestOutcome::Mismatched || self == TestOutcome::ShouldNotHaveCompiled || self
            == TestOutcome::RunFailed
    }

    /// Executable failure test.
    pub fn is_failure(self) -> (r: bool)
        ensures
            r == self.spec_is_failure(),
    {
        match self {
            TestOutcome::Mismatched => true,
            TestOutcome::ShouldNotHaveCompiled => true,
            TestOutcome::RunFailed => true,
            TestOutcome::Matched => false,
            TestOutcome::RunSucceeded => false,
        }
    }
}

/// Where a newly observed diagnostic is to be persisted.
#[derive(Clone, Copy, Debug, PartialEq, Eq, Structural)]
pub enum WriteDest {
    /// The scratch/staging area, never treated as accepted state.
    Scratch,
    /// The authoritative expectation file beside the test source.
    Authoritative,
}

/// An instruction to the caller to persist `content` at `dest`. The content
/// is always the preferred variation.
pub struct WriteAction {
    pub dest: WriteDest,
    pub content: String,
}

/// What the orchestrator must do once the build step of a test finished.
pub enum Decision {
    /// The test is decided; persist the write, if any, and report.
    Done { outcome: TestOutcome, write: Option<WriteAction> },
    /// A `Pass` test built; the binary must now be run.
    NeedsRun,
}

/// Where a first-time expectation goes under each policy.
pub open spec fn spec_new_dest(policy: UpdatePolicy) -> WriteDest {
    if policy == UpdatePolicy::RecordPending {
        WriteDest::Scratch
    } else {
        WriteDest::Authoritative
    }
}

/// The transition table for a `CompileFail` test once built: outcome, and
/// what to write (destination and content), if anything.
pub open spec fn spec_check_compile_fail(
    build_success: bool,
    expectation: Option<Seq<char>>,
    vars: Seq<Seq<char>>,
    policy: UpdatePolicy,
) -> (TestOutcome, Option<(WriteDest, Seq<char>)>) {
    if build_success {
        (TestOutcome::ShouldNotHaveCompiled, None)
    } else {
        match expectation {
            None => (TestOutcome::Matched, Some((spec_new_dest(policy), vars.last()))),
            Some(e) => if spec_matches(vars, e) {
                (TestOutcome::Matched, None)
            } else if policy == UpdatePolicy::RecordPending {
                (TestOutcome::Mismatched, None)
            } else {
                (TestOutcome::Matched, Some((WriteDest::Authoritative, vars.last())))
            },
        }
    }
}

/// The mathematical content of a write instruction.
pub open spec fn spec_write_of(w: Option<WriteAction>) -> Option<(WriteDest, Seq<char>)> {
    match w {
        None => None,
        Some(a) => Some((a.dest, a.content@)),
    }
}

/// The view of an optional stored expectation.
pub open spec fn spec_opt_str(e: Option<&String>) -> Option<Seq<char>> {
    match e {
        None => None,
        Some(s) => Some(s@),
    }
}

/// Decide a `CompileFail` test once built. A successful build is always
/// `ShouldNotHaveCompiled`, whatever the stored expectation or policy. With
/// no stored expectation the preferred variation is persisted (to the
/// scratch area under `RecordPending`, in place under `Overwrite`) and the
/// baseline counts as `Matched`. Otherwise the stored text is matched
/// against every variation; on a mismatch, `RecordPending` reports
/// `Mismatched` and writes nothing, while `Overwrite` persists the
/// preferred variation and reports `Matched`.
pub fn check_compile_fail(
    build_success: bool,
    expectation: Option<&String>,
    variations: &Variations,
    policy: UpdatePolicy,
) -> (r: (TestOutcome, Option<WriteAction>))
    requires
        variations.wf(),
    ensures
        (r.0, spec_write_of(r.1)) == spec_check_compile_fail(
            build_success,
            spec_opt_str(expectation),
            variations@,
            policy,
        ),
{
    if build_success {
        return (TestOutcome::ShouldNotHaveCompiled, None);
    }
    match expectation {
        None => {
            let dest = if policy == UpdatePolicy::RecordPending {
                WriteDest::Scratch
            } else {
                WriteDest::Authoritative
            };
            let content = variations.preferred().clone();
            (TestOutcome::Matched, Some(WriteAction { dest, content }))
        },
        Some(e) => {
            if crate::normalize::matches(variations, e.as_str()) {
                (TestOutcome::Matched, None)
            } else if policy == UpdatePolicy::RecordPending {
                (TestOutcome::Mismatched, None)
            } else {
                let content = variations.preferred().clone();
                (TestOutcome::Matched, Some(WriteAction { dest: WriteDest::Authoritative, content }))
            }
        },
    }
}

/// Decide a `Pass` test once built: a failed build is terminal
/// `Mismatched`; a successful one hands control back for the run step.
pub fn check_pass(build_success: bool) -> (r: Decision)
    ensures
        build_success ==> r is NeedsRun,
        !build_success ==> (r matches Decision::Done { outcome, write } && outcome
            == TestOutcome::Mismatched && write is None),
{
    if build_success {
        Decision::NeedsRun
    } else {
        Decision::Done { outcome: TestOutcome::Mismatched, write: None }
    }
}

/// Decide a `Pass` test once its binary ran.
pub fn run_outcome(run_success: bool) -> (r: TestOutcome)
    ensures
        r == (if run_success {
            TestOutcome::RunSucceeded
        } else {
            TestOutcome::RunFailed
        }),
{
    if run_success {
        TestOutcome::RunSucceeded
    } else {
        TestOutcome::RunFailed
    }
}

/// The run stdout shown to the user: the captured build stdout first, so
/// compiler warnings and program output appear in source order.
pub fn prepend_output(build_stdout: &Vec<u8>, run_stdout: &Vec<u8>) -> (r: Vec<u8>)
    ensures
        r@ == build_stdout@ + run_stdout@,
{
    let mut out: Vec<u8> = Vec::new();
    let mut i: usize = 0;
    while i < build_stdout.len()
        invariant
            0 <= i <= build_stdout@.len(),
            out@ == build_stdout@.take(i as int),
        decreases build_stdout@.len() - i,
    {
        proof {
            assert(build_stdout@.take(i + 1) =~= build_stdout@.take(i as int).push(
                build_stdout@[i as int],
            ));
        }
        out.push(build_stdout[i]);
        i += 1;
    }
    proof {
        assert(build_stdout@.take(build_stdout@.len() as int) =~= build_stdout@);
    }
    let mut j: usize = 0;
    while j < run_stdout.len()
        invariant
            0 <= j <= run_stdout@.len(),
            out@ == build_stdout@ + run_stdout@.take(j as int),
        decreases run_stdout@.len() - j,
    {
        proof {
            assert(build_stdout@ + run_stdout@.take(j + 1) =~= (build_stdout@
                + run_stdout@.take(j as int)).push(run_stdout@[j as int]));
        }
        out.push(run_stdout[j]);
        j += 1;
    }
    proof {
        assert(build_stdout@ + run_stdout@.take(run_stdout@.len() as int) =~= build_stdout@
            + run_stdout@);
    }
    out
}

/// Whether a finished run fails as a whole: any failing test fails the run,
/// except in self-test mode, where failures are tolerated for inspection.
pub fn harness_failed(failures: usize, self_test: bool) -> (r: bool)
    ensures
        r == (failures > 0 && !self_test),
{
    failures > 0 && !self_test
}

/// The project under test, as the orchestrator sees it.
pub struct Project {
    /// Source directory of the project; occurrences become `$DIR`.
    pub source_dir: String,
    /// Workspace directory containing the project; occurrences become
    /// `$WORKSPACE`.
    pub workspace: String,
    /// The expectation-update policy, chosen once per run.
    pub update: UpdatePolicy,
    pub has_pass: bool,
    pub has_compile_fail: bool,
    pub self_test: bool,
}

impl Project {
    /// A fresh project with the update policy threaded in at construction;
    /// directories start empty and are filled from the build metadata.
    pub fn new(update: UpdatePolicy) -> (p: Project)
        ensures
            p.source_dir@.len() == 0,
            p.workspace@.len() == 0,
            p.update == update,
            !p.has_pass,
            !p.has_compile_fail,
            !p.self_test,
    {
        Project {
            source_dir: String::new(),
            workspace: String::new(),
            update,
            has_pass: false,
            has_compile_fail: false,
            self_test: false,
        }
    }
}

/// One declared test: a source path (possibly a glob pattern) and its
/// expected outcome.
pub struct TestSpec {
    pub path: String,
    pub expected: Expected,
}

/// Describes an individual test being run: a resolved path with a unique
/// generated name, or the error its pattern expansion produced.
pub struct Test {
    pub name: String,
    pub spec: TestSpec,
    pub error: Option<Error>,
}

impl Test {
    /// A unique name for the crate and binary.
    pub fn crate_name(&self) -> (r: String)
        ensures
            r@ == self.name@,
    {
        self.name.clone()
    }

    /// Path to the source file.
    pub fn path(&self) -> (r: &String)
        ensures
            r@ == self.spec.path@,
    {
        &self.spec.path
    }

    /// Whether this test requires actually building and running a binary.
    pub fn requires_run(&self) -> (r: bool)
        ensures
            r == (self.spec.expected == Expected::Pass),
    {
        match self.spec.expected {
            Expected::CompileFail => false,
            Expected::Pass => true,
        }
    }
}


/// The decimal digit characters.
pub open spec fn spec_digit(d: nat) -> char {
    if d == 0 {
        '0'
    } else if d == 1 {
        '1'
    } else if d == 2 {
        '2'
    } else if d == 3 {
        '3'
    } else if d == 4 {
        '4'
    } else if d == 5 {
        '5'
    } else if d == 6 {
        '6'
    } else if d == 7 {
        '7'
    } else if d == 8 {
        '8'
    } else {
        '9'
    }
}

/// The decimal rendering of `n`, most significant digit first.
pub open spec fn spec_decimal(n: nat) -> Seq<char>
    decreases n,
{
    if n < 10 {
        seq![spec_digit(n)]
    } else {
        spec_decimal(n / 10).push(spec_digit(n % 10))
    }
}

/// Lengths of decimal renderings, as far as the three-digit padding needs.
pub proof fn lemma_decimal_len(n: nat)
    ensures
        n < 10 ==> spec_decimal(n).len() == 1,
        10 <= n < 100 ==> spec_decimal(n).len() == 2,
        n >= 100 ==> spec_decimal(n).len() >= 3,
    decreases n,
{
    if n >= 10 {
        lemma_decimal_len(n / 10);
    }
}

/// One decimal digit as a character.
fn digit_char(d: usize) -> (c: char)
    requires
        d < 10,
    ensures
        c == spec_digit(d as nat),
{
    if d == 0 {
        '0'
    } else if d == 1 {
        '1'
    } else if d == 2 {
        '2'
    } else if d == 3 {
        '3'
    } else if d == 4 {
        '4'
    } else if d == 5 {
        '5'
    } else if d == 6 {
        '6'
    } else if d == 7 {
        '7'
    } else if d == 8 {
        '8'
    } else {
        '9'
    }
}

/// Append the decimal rendering of `n`.
fn push_decimal(n: usize, out: &mut Vec<char>)
    ensures
        final(out)@ == old(out)@ + spec_decimal(n as nat),
    decreases n,
{
    if n < 10 {
        out.push(digit_char(n));
        proof {
            assert(old(out)@.push(spec_digit(n as nat)) =~= old(out)@ + seq![
                spec_digit(n as nat),
            ]);
        }
    } else {
        push_decimal(n / 10, out);
        out.push(digit_char(n % 10));
        proof {
            assert((old(out)@ + spec_decimal(n as nat / 10)).push(spec_digit(n as nat % 10))
                =~= old(out)@ + spec_decimal(n as nat / 10).push(spec_digit(n as nat % 10)));
        }
    }
}

/// The unique generated name of the test at position `i` in expansion
/// order: the harness prefix followed by the index, zero-padded to three
/// digits.
#[verifier::opaque]
pub open spec fn spec_bin_name(i: nat) -> Seq<char> {
    let d = spec_decimal(i);
    "trybuild"@ + (if d.len() == 1 {
        seq!['0', '0']
    } else if d.len() == 2 {
        seq!['0']
    } else {
        Seq::<char>::empty()
    }) + d
}

/// Executable test-case naming.
pub fn bin_name(i: usize) -> (r: String)
    ensures
        r@ == spec_bin_name(i as nat),
{
    proof {
        reveal(spec_bin_name);
        lemma_decimal_len(i as nat);
    }
    let mut v = str_to_chars("trybuild");
    if i < 10 {
        v.push('0');
        v.push('0');
        proof {
            assert("trybuild"@.push('0').push('0') =~= "trybuild"@ + seq!['0', '0']);
        }
    } else if i < 100 {
        v.push('0');
        proof {
            assert("trybuild"@.push('0') =~= "trybuild"@ + seq!['0']);
        }
    } else {
        proof {
            assert("trybuild"@ =~= "trybuild"@ + Seq::<char>::empty());
        }
    }
    push_decimal(i, &mut v);
    crate::normalize::chars_to_string(&v)
}

/// The result of expanding one declared test path.
pub enum Expansion {
    /// The path holds no glob pattern; it stands as declared.
    NotGlob,
    /// The matched paths, in filesystem sort order.
    Expanded(Vec<String>),
    /// The pattern could not be expanded; the message says why.
    Failed(String),
}

/// How many test cases one expansion yields.
pub open spec fn spec_group_len(e: Expansion) -> int {
    match e {
        Expansion::NotGlob => 1,
        Expansion::Failed(_) => 1,
        Expansion::Expanded(ps) => ps@.len() as int,
    }
}

/// How many test cases a list of expansions yields.
pub open spec fn spec_expand_len(exps: Seq<Expansion>) -> int
    decreases exps.len(),
{
    if exps.len() == 0 {
        0
    } else {
        spec_expand_len(exps.drop_last()) + spec_group_len(exps.last())
    }
}

/// The test cases at offset `off` of `out` are the ones that `sp`, expanded
/// to `e`, declares: same path (or the matched paths, in order), same
/// expected outcome, and an expansion error exactly when expansion failed.
#[verifier::opaque]
pub open spec fn spec_group_ok(sp: TestSpec, e: Expansion, out: Seq<Test>, off: int) -> bool {
    match e {
        Expansion::NotGlob => 0 <= off < out.len() && out[off].spec.path@ == sp.path@
            && out[off].spec.expected == sp.expected && out[off].error is None,
        Expansion::Failed(m) => 0 <= off < out.len() && out[off].spec.path@ == sp.path@
            && out[off].spec.expected == sp.expected && (out[off].error matches Some(
            Error::Expansion(msg),
        ) && msg@ == m@),
        Expansion::Expanded(ps) => 0 <= off && off + ps@.len() <= out.len() && forall|j: int|
            0 <= j < ps@.len() ==> (#[trigger] out[off + j]).spec.path@ == ps@[j]@ && out[off
                + j].spec.expected == sp.expected && out[off + j].error is None,
    }
}

/// A group stays as it was when more test cases are appended after it.
pub proof fn lemma_group_ok_extend(
    sp: TestSpec,
    e: Expansion,
    out1: Seq<Test>,
    out2: Seq<Test>,
    off: int,
)
    requires
        spec_group_ok(sp, e, out1, off),
        out1.len() <= out2.len(),
        forall|k: int| 0 <= k < out1.len() ==> out2[k] == out1[k],
    ensures
        spec_group_ok(sp, e, out2, off),
{
    reveal(spec_group_ok);
    match e {
        Expansion::NotGlob => {
            assert(out2[off] == out1[off]);
        },
        Expansion::Failed(m) => {
            assert(out2[off] == out1[off]);
        },
        Expansion::Expanded(ps) => {
            assert forall|j: int| 0 <= j < ps@.len() implies (#[trigger] out2[off + j]).spec.path@
                == ps@[j]@ && out2[off + j].spec.expected == sp.expected && out2[off + j].error
                is None by {
                assert(out1[off + j].spec.path@ == ps@[j]@);
                assert(out2[off + j] == out1[off + j]);
            }
        },
    }
}


/// Append one test case per matched path, naming each after its position.
#[verifier::loop_isolation(false)]
fn append_expanded(out: &mut Vec<Test>, ps: &Vec<String>, sp: &TestSpec)
    ensures
        final(out)@.len() == old(out)@.len() + ps@.len(),
        forall|k: int| 0 <= k < old(out)@.len() ==> final(out)@[k] == old(out)@[k],
        forall|j: int|
            0 <= j < ps@.len() ==> (#[trigger] final(out)@[old(out)@.len() + j]).name@
                == spec_bin_name((old(out)@.len() + j) as nat) && final(out)@[old(out)@.len()
                + j].spec.path@ == ps@[j]@ && final(out)@[old(out)@.len() + j].spec.expected
                == sp.expected && final(out)@[old(out)@.len() + j].error is None,
{
    let mut j: usize = 0;
    while j < ps.len()
        invariant
            0 <= j <= ps@.len(),
            out@.len() == old(out)@.len() + j,
            forall|k: int| 0 <= k < old(out)@.len() ==> out@[k] == old(out)@[k],
            forall|jj: int|
                0 <= jj < j ==> (#[trigger] out@[old(out)@.len() + jj]).name@ == spec_bin_name(
                    (old(out)@.len() + jj) as nat,
                ) && out@[old(out)@.len() + jj].spec.path@ == ps@[jj]@ && out@[old(out)@.len()
                    + jj].spec.expected == sp.expected && out@[old(out)@.len() + jj].error
                    is None,
        decreases ps@.len() - j,
    {
        let t = Test {
            name: bin_name(out.len()),
            spec: TestSpec { path: ps[j].clone(), expected: sp.expected },
            error: None,
        };
        out.push(t);
        j += 1;
    }
}

/// Append one test case for a spec, carrying an expansion error if given.
#[verifier::loop_isolation(false)]
fn push_one(out: &mut Vec<Test>, sp: &TestSpec, failure: Option<&String>)
    ensures
        final(out)@.len() == old(out)@.len() + 1,
        forall|k: int| 0 <= k < old(out)@.len() ==> final(out)@[k] == old(out)@[k],
        final(out)@.last().name@ == spec_bin_name(old(out)@.len() as nat),
        final(out)@.last().spec.path@ == sp.path@,
        final(out)@.last().spec.expected == sp.expected,
        match failure {
            None => final(out)@.last().error is None,
            Some(m) => final(out)@.last().error matches Some(Error::Expansion(msg)) && msg@
                == m@,
        },
{
    let error = match failure {
        None => None,
        Some(m) => Some(Error::Expansion(m.clone())),
    };
    let t = Test {
        name: bin_name(out.len()),
        spec: TestSpec { path: sp.path.clone(), expected: sp.expected },
        error,
    };
    out.push(t);
}


/// Introduction lemmas for `spec_group_ok`, one per expansion shape.
pub proof fn lemma_group_ok_not_glob(sp: TestSpec, out: Seq<Test>, off: int)
    requires
        0 <= off < out.len(),
        out[off].spec.path@ == sp.path@,
        out[off].spec.expected == sp.expected,
        out[off].error is None,
    ensures
        spec_group_ok(sp, Expansion::NotGlob, out, off),
{
    reveal(spec_group_ok);
}

/// A failed expansion's single case carries the expansion error.
pub proof fn lemma_group_ok_failed(sp: TestSpec, e: Expansion, out: Seq<Test>, off: int)
    requires
        0 <= off < out.len(),
        out[off].spec.path@ == sp.path@,
        out[off].spec.expected == sp.expected,
        e matches Expansion::Failed(m) && (out[off].error matches Some(Error::Expansion(msg))
            && msg@ == m@),
    ensures
        spec_group_ok(sp, e, out, off),
{
    reveal(spec_group_ok);
}

/// A successful expansion's cases carry the matched paths in order.
pub proof fn lemma_group_ok_expanded(sp: TestSpec, e: Expansion, out: Seq<Test>, off: int)
    requires
        0 <= off,
        e matches Expansion::Expanded(ps) && off + ps@.len() <= out.len() && (forall|j: int|
            0 <= j < ps@.len() ==> (#[trigger] out[off + j]).spec.path@ == ps@[j]@ && out[off
                + j].spec.expected == sp.expected && out[off + j].error is None),
    ensures
        spec_group_ok(sp, e, out, off),
{
    reveal(spec_group_ok);
}

/// One step of the expansion count.
pub proof fn lemma_expand_len_step(exps: Seq<Expansion>, i: int)
    requires
        0 <= i < exps.len(),
    ensures
        spec_expand_len(exps.take(i + 1)) == spec_expand_len(exps.take(i)) + spec_group_len(
            exps[i],
        ),
{
    assert(exps.take(i + 1).drop_last() =~= exps.take(i));
    assert(exps.take(i + 1).last() == exps[i]);
}

/// One step of the expansion loop: the groups settled so far stay settled
/// once the new group is appended, and the count advances by its size.
pub proof fn lemma_expand_invariant_step(
    tests: Seq<TestSpec>,
    exps: Seq<Expansion>,
    out0: Seq<Test>,
    out1: Seq<Test>,
    i: int,
)
    requires
        tests.len() == exps.len(),
        0 <= i < tests.len(),
        out0.len() == spec_expand_len(exps.take(i)),
        forall|ii: int|
            0 <= ii < i ==> spec_group_ok(tests[ii], exps[ii], out0, spec_expand_len(exps.take(ii))),
        out0.len() <= out1.len(),
        forall|k: int| 0 <= k < out0.len() ==> out1[k] == out0[k],
        spec_group_ok(tests[i], exps[i], out1, out0.len() as int),
        out1.len() == out0.len() + spec_group_len(exps[i]),
    ensures
        out1.len() == spec_expand_len(exps.take(i + 1)),
        forall|ii: int|
            0 <= ii < i + 1 ==> spec_group_ok(
                tests[ii],
                exps[ii],
                out1,
                spec_expand_len(exps.take(ii)),
            ),
{
    lemma_expand_len_step(exps, i);
    assert forall|ii: int| 0 <= ii < i + 1 implies spec_group_ok(
        tests[ii],
        exps[ii],
        out1,
        spec_expand_len(exps.take(ii)),
    ) by {
        if ii < i {
            lemma_group_ok_extend(
                tests[ii],
                exps[ii],
                out0,
                out1,
                spec_expand_len(exps.take(ii)),
            );
        }
    }
}

/// Expand the declared tests into individual test cases, in declaration
/// order with each pattern's matches in the order given, naming each case
/// after its position in expansion order. A pattern that failed to expand
/// yields a single case carrying the expansion error.
#[verifier::loop_isolation(false)]
pub fn expand_globs(tests: &Vec<TestSpec>, expansions: &Vec<Expansion>) -> (r: Vec<Test>)
    requires
        tests@.len() == expansions@.len(),
    ensures
        r@.len() == spec_expand_len(expansions@),
        forall|k: int| 0 <= k < r@.len() ==> (#[trigger] r@[k]).name@ == spec_bin_name(k as nat),
        forall|i: int|
            0 <= i < tests@.len() ==> spec_group_ok(
                tests@[i],
                expansions@[i],
                r@,
                spec_expand_len(expansions@.take(i)),
            ),
{
    let mut out: Vec<Test> = Vec::new();
    let mut i: usize = 0;
    proof {
        assert(expansions@.take(0) =~= Seq::<Expansion>::empty());
    }
    while i < tests.len()
        invariant
            0 <= i <= tests@.len(),
            out@.len() == spec_expand_len(expansions@.take(i as int)),
            forall|k: int|
                0 <= k < out@.len() ==> (#[trigger] out@[k]).name@ == spec_bin_name(k as nat),
            forall|ii: int|
                0 <= ii < i ==> spec_group_ok(
                    tests@[ii],
                    expansions@[ii],
                    out@,
                    spec_expand_len(expansions@.take(ii)),
                ),
        decreases tests@.len() - i,
    {
        let ghost out0 = out@;
        match &expansions[i] {
            Expansion::NotGlob => {
                push_one(&mut out, &tests[i], None);
                proof {
                    lemma_group_ok_not_glob(tests@[i as int], out@, out0.len() as int);
                }
            },
            Expansion::Failed(m) => {
                push_one(&mut out, &tests[i], Some(m));
                proof {
                    lemma_group_ok_failed(
                        tests@[i as int],
                        expansions@[i as int],
                        out@,
                        out0.len() as int,
                    );
                }
            },
            Expansion::Expanded(ps) => {
                let sp = TestSpec { path: tests[i].path.clone(), expected: tests[i].expected };
                append_expanded(&mut out, ps, &sp);
                proof {
                    lemma_group_ok_expanded(
                        tests@[i as int],
                        expansions@[i as int],
                        out@,
                        out0.len() as int,
                    );
                    assert forall|k: int|
                        0 <= k < out@.len() implies (#[trigger] out@[k]).name@ == spec_bin_name(
                        k as nat,
                    ) by {
                        if k < out0.len() {
                            assert(out@[k] == out0[k]);
                        } else {
                            assert(out@[out0.len() + (k - out0.len())].name@ == spec_bin_name(
                                (out0.len() + (k - out0.len())) as nat,
                            ));
                        }
                    }
                }
            },
        }
        proof {
            lemma_expand_invariant_step(tests@, expansions@, out0, out@, i as int);
        }
        i += 1;
    }
    proof {
        assert(expansions@.take(expansions@.len() as int) =~= expansions@);
    }
    out
}

/// Whether a path, as declared, holds a glob pattern.
pub fn is_glob(path: &String) -> (r: bool)
    ensures
        r == (crate::text::find_char_at(path@, '*') is Some),
{
    let chars = str_to_chars(path.as_str());
    match crate::text::find_char(&chars, '*') {
        Some(_) => true,
        None => false,
    }
}

/// The filter strings carried by the process arguments: what follows the
/// `trybuild=` prefix of every argument that holds more than the prefix.
pub open spec fn spec_filters(args: Seq<Seq<char>>) -> Seq<Seq<char>>
    decreases args.len(),
{
    if args.len() == 0 {
        Seq::empty()
    } else {
        spec_filters(args.drop_last()) + (if crate::text::starts_with(args.last(), "trybuild="@)
            && args.last().len() > "trybuild="@.len() {
            seq![args.last().skip("trybuild="@.len() as int)]
        } else {
            Seq::<Seq<char>>::empty()
        })
    }
}

/// Extract the test-case filters from the process arguments.
#[verifier::loop_isolation(false)]
pub fn parse_filters(args: &Vec<String>) -> (r: Vec<String>)
    ensures
        crate::cargo::str_views(r@) == spec_filters(crate::cargo::str_views(args@)),
{
    let ghost avs = crate::cargo::str_views(args@);
    let mut out: Vec<String> = Vec::new();
    let prefix = str_to_chars("trybuild=");
    let mut i: usize = 0;
    proof {
        assert(avs.take(0) =~= Seq::<Seq<char>>::empty());
        assert(crate::cargo::str_views(out@) =~= Seq::<Seq<char>>::empty());
    }
    while i < args.len()
        invariant
            0 <= i <= args@.len(),
            prefix@ == "trybuild="@,
            crate::cargo::str_views(out@) == spec_filters(avs.take(i as int)),
        decreases args@.len() - i,
    {
        proof {
            assert(avs.take(i + 1).drop_last() =~= avs.take(i as int));
            assert(avs.take(i + 1).last() == avs[i as int]);
            assert(avs[i as int] == args@[i as int]@);
        }
        let a = str_to_chars(args[i].as_str());
        if crate::text::begins_with(&a, &prefix) && a.len() > prefix.len() {
            let tail = crate::text::subvec(&a, prefix.len(), a.len());
            proof {
                assert(tail@ =~= a@.skip("trybuild="@.len() as int));
            }
            let s = crate::normalize::chars_to_string(&tail);
            let ghost out0 = out@;
            out.push(s);
            proof {
                assert(crate::cargo::str_views(out@) =~= crate::cargo::str_views(out0).push(
                    tail@,
                ));
                assert(crate::cargo::str_views(out0).push(tail@) =~= crate::cargo::str_views(out0)
                    + seq![tail@]);
            }
        } else {
            proof {
                assert(crate::cargo::str_views(out@) + Seq::<Seq<char>>::empty()
                    =~= crate::cargo::str_views(out@));
            }
        }
        i += 1;
    }
    proof {
        assert(avs.take(avs.len() as int) =~= avs);
    }
    out
}

/// A path is selected when some filter occurs in it as a substring.
pub open spec fn spec_path_selected(path: Seq<char>, filters: Seq<Seq<char>>) -> bool {
    exists|j: int| 0 <= j < filters.len() && crate::text::find_sub_at(path, filters[j]) is Some
}

/// The test cases whose paths a non-empty filter list selects, in order.
pub open spec fn spec_retain(tests: Seq<Test>, filters: Seq<Seq<char>>) -> Seq<Test>
    decreases tests.len(),
{
    if tests.len() == 0 {
        Seq::empty()
    } else {
        spec_retain(tests.drop_last(), filters) + (if spec_path_selected(
            tests.last().spec.path@,
            filters,
        ) {
            seq![tests.last()]
        } else {
            Seq::<Test>::empty()
        })
    }
}

/// Keep the test cases that the command-line filters select; an empty
/// filter list keeps everything.
#[verifier::loop_isolation(false)]
pub fn filter_tests(tests: Vec<Test>, filters: &Vec<String>) -> (r: Vec<Test>)
    ensures
        filters@.len() == 0 ==> r@ == tests@,
        filters@.len() > 0 ==> r@ == spec_retain(tests@, crate::cargo::str_views(filters@)),
{
    if filters.len() == 0 {
        return tests;
    }
    let ghost fvs = crate::cargo::str_views(filters@);
    let ghost all = tests@;
    let mut input = tests;
    let mut out: Vec<Test> = Vec::new();
    let ghost mut done: int = 0;
    proof {
        assert(all.take(0) =~= Seq::<Test>::empty());
        assert(all.skip(0) =~= all);
    }
    while input.len() > 0
        invariant
            0 <= done <= all.len(),
            input@ == all.skip(done),
            out@ == spec_retain(all.take(done), fvs),
            fvs == crate::cargo::str_views(filters@),
            fvs.len() > 0,
        decreases all.len() - done,
    {
        let t = input.remove(0);
        proof {
            assert(t == all[done]);
            assert(input@ =~= all.skip(done + 1));
            assert(all.take(done + 1).drop_last() =~= all.take(done));
            assert(all.take(done + 1).last() == all[done]);
        }
        let path_chars = str_to_chars(t.spec.path.as_str());
        let mut selected: bool = false;
        let mut j: usize = 0;
        while j < filters.len()
            invariant
                0 <= j <= filters@.len(),
                path_chars@ == t.spec.path@,
                selected ==> spec_path_selected(t.spec.path@, fvs),
                !selected ==> forall|jj: int|
                    0 <= jj < j ==> !(crate::text::find_sub_at(t.spec.path@, fvs[jj]) is Some),
            decreases filters@.len() - j,
        {
            let f = str_to_chars(filters[j].as_str());
            proof {
                assert(f@ == fvs[j as int]);
            }
            match crate::text::find_sub(&path_chars, &f) {
                Some(_) => {
                    selected = true;
                },
                None => {},
            }
            j += 1;
        }
        let ghost out0 = out@;
        if selected {
            out.push(t);
            proof {
                assert(out@ =~= out0 + seq![all[done]]);
            }
        } else {
            proof {
                assert(!spec_path_selected(t.spec.path@, fvs));
                assert(out0 + Seq::<Test>::empty() =~= out0);
            }
        }
        proof {
            done = done + 1;
        }
    }
    proof {
        assert(all.skip(done).len() == 0);
        assert(all.take(all.len() as int) =~= all);
    }
    out
}


/// The default strategy used: tests are built and run through the external
/// build tool, in an ephemeral project prepared once per run.
pub struct CargoStrategy(pub Option<CargoProject>);

impl CargoStrategy {
    /// A strategy with no project prepared yet.
    pub fn new() -> (s: CargoStrategy)
        ensures
            s.0 is None,
    {
        CargoStrategy(None)
    }

    /// The prepared project.
    pub fn project(&self) -> (r: &CargoProject)
        requires
            self.0 is Some,
        ensures
            *r == self.0->Some_0,
    {
        match &self.0 {
            Some(p) => p,
            None => vstd::pervasive::unreached(),
        }
    }

    /// The build configuration of the ephemeral project: exactly the given
    /// compiler flags.
    pub fn make_config(&self, rustflags: Vec<String>) -> (r: Config)
        ensures
            r.build.rustflags == rustflags,
    {
        Config { build: Build { rustflags } }
    }
}

/// One duplicated optional string.
fn copy_opt_string(o: &Option<String>) -> (r: Option<String>)
    ensures
        r == *o,
{
    match o {
        None => None,
        Some(s) => Some(s.clone()),
    }
}

/// One duplicated string list.
fn copy_strings(v: &Vec<String>) -> (r: Vec<String>)
    ensures
        r@ == v@,
{
    let mut out: Vec<String> = Vec::new();
    let mut i: usize = 0;
    while i < v.len()
        invariant
            0 <= i <= v@.len(),
            out@ == v@.take(i as int),
        decreases v@.len() - i,
    {
        proof {
            assert(v@.take(i + 1) =~= v@.take(i as int).push(v@[i as int]));
        }
        out.push(v[i].clone());
        i += 1;
    }
    proof {
        assert(v@.take(v@.len() as int) =~= v@);
    }
    out
}

/// One duplicated dependency entry.
fn copy_dependency(d: &Dependency) -> (r: Dependency)
    ensures
        dep_view(r) == dep_view(*d),
{
    let r = Dependency {
        version: copy_opt_string(&d.version),
        path: copy_opt_string(&d.path),
        default_features: d.default_features,
        features: copy_strings(&d.features),
    };
    proof {
        assert(r.features@.map_values(|s: String| s@) =~= d.features@.map_values(
            |s: String| s@,
        ));
    }
    r
}

/// The concatenation `a + "/" + b`.
fn join_slash(a: &String, b: &String) -> (r: String)
    ensures
        r@ == a@ + seq!['/'] + b@,
{
    let mut v = str_to_chars(a.as_str());
    v.push('/');
    let tail = str_to_chars(b.as_str());
    crate::text::extend_chars(&mut v, &tail);
    proof {
        assert(a@.push('/') + b@ =~= a@ + seq!['/'] + b@);
    }
    crate::normalize::chars_to_string(&v)
}

/// The binary targets that a list of test cases contributes: one per case
/// whose expansion succeeded, named after the case, built from the source
/// directory joined (with a forward slash) to the case's path.
pub open spec fn spec_bins_of(tests: Seq<Test>, dir: Seq<char>) -> Seq<(Seq<char>, Seq<char>)>
    decreases tests.len(),
{
    if tests.len() == 0 {
        Seq::empty()
    } else {
        spec_bins_of(tests.drop_last(), dir) + (if tests.last().error is None {
            seq![(tests.last().name@, dir + seq!['/'] + tests.last().spec.path@)]
        } else {
            Seq::<(Seq<char>, Seq<char>)>::empty()
        })
    }
}

impl CargoStrategy {
    /// The generated manifest for the ephemeral project: a non-published
    /// package named after the project under test, forwarding each of its
    /// features, depending on its regular and development dependencies and
    /// on the project itself by path (with default features off), and one
    /// binary target per resolved test case after a placeholder main.
    #[verifier::loop_isolation(false)]
    #[verifier::rlimit(60)]
    pub fn make_manifest(
        &self,
        crate_name: &String,
        project: &Project,
        cargo: &CargoProject,
        tests: &Vec<Test>,
        source: &SourceManifest,
    ) -> (r: Manifest)
        ensures
            r.package.name@ == cargo.name@,
            r.package.version@ == "0.0.0"@,
            r.package.edition@ == source.edition@,
            !r.package.publish,
            r.features@.len() == source.features@.len(),
            forall|i: int|
                0 <= i < source.features@.len() ==> (#[trigger] r.features@[i]).0@
                    == source.features@[i]@ && r.features@[i].1@.len() == 1
                    && r.features@[i].1@[0]@ == crate_name@ + seq!['/'] + source.features@[i]@,
            r.dependencies@.len() == source.dependencies@.len() + source.dev_dependencies@.len()
                + 1,
            forall|i: int|
                0 <= i < source.dependencies@.len() ==> (#[trigger] r.dependencies@[i]).0@
                    == source.dependencies@[i].0@ && dep_view(r.dependencies@[i].1) == dep_view(
                    source.dependencies@[i].1,
                ),
            forall|i: int|
                0 <= i < source.dev_dependencies@.len() ==> (#[trigger] r.dependencies@[source.dependencies@.len() + i]).0@
                    == source.dev_dependencies@[i].0@ && dep_view(
                    r.dependencies@[source.dependencies@.len() + i].1,
                ) == dep_view(source.dev_dependencies@[i].1),
            r.dependencies@.last().0@ == crate_name@,
            dep_view(r.dependencies@.last().1) == (
                None::<Seq<char>>,
                Some(project.source_dir@),
                false,
                Seq::<Seq<char>>::empty(),
            ),
            r.bins@.len() == 1 + spec_bins_of(tests@, project.source_dir@).len(),
            r.bins@[0].name.0@ == cargo.name@,
            r.bins@[0].path@ == "main.rs"@,
            bins_views(r.bins@).skip(1) == spec_bins_of(tests@, project.source_dir@),
    {
        let mut features: Vec<(String, Vec<String>)> = Vec::new();
        let mut i: usize = 0;
        while i < source.features.len()
            invariant
                0 <= i <= source.features@.len(),
                features@.len() == i,
                forall|k: int|
                    0 <= k < i ==> (#[trigger] features@[k]).0@ == source.features@[k]@
                        && features@[k].1@.len() == 1 && features@[k].1@[0]@ == crate_name@
                        + seq!['/'] + source.features@[k]@,
            decreases source.features@.len() - i,
        {
            let name = source.features[i].clone();
            let enable = join_slash(crate_name, &source.features[i]);
            let mut enables: Vec<String> = Vec::new();
            enables.push(enable);
            features.push((name, enables));
            i += 1;
        }
        let mut dependencies: Vec<(String, Dependency)> = Vec::new();
        let mut j: usize = 0;
        while j < source.dependencies.len()
            invariant
                0 <= j <= source.dependencies@.len(),
                dependencies@.len() == j,
                forall|k: int|
                    0 <= k < j ==> (#[trigger] dependencies@[k]).0@ == source.dependencies@[k].0@
                        && dep_view(dependencies@[k].1) == dep_view(source.dependencies@[k].1),
            decreases source.dependencies@.len() - j,
        {
            let name = source.dependencies[j].0.clone();
            let dep = copy_dependency(&source.dependencies[j].1);
            dependencies.push((name, dep));
            j += 1;
        }
        let ghost d0 = source.dependencies@.len() as int;
        let mut k: usize = 0;
        while k < source.dev_dependencies.len()
            invariant
                0 <= k <= source.dev_dependencies@.len(),
                dependencies@.len() == d0 + k,
                forall|kk: int|
                    0 <= kk < d0 ==> (#[trigger] dependencies@[kk]).0@
                        == source.dependencies@[kk].0@ && dep_view(dependencies@[kk].1)
                        == dep_view(source.dependencies@[kk].1),
                forall|kk: int|
                    0 <= kk < k ==> (#[trigger] dependencies@[d0 + kk]).0@
                        == source.dev_dependencies@[kk].0@ && dep_view(dependencies@[d0 + kk].1)
                        == dep_view(source.dev_dependencies@[kk].1),
            decreases source.dev_dependencies@.len() - k,
        {
            let name = source.dev_dependencies[k].0.clone();
            let dep = copy_dependency(&source.dev_dependencies[k].1);
            dependencies.push((name, dep));
            k += 1;
        }
        let self_dep = Dependency {
            version: None,
            path: Some(project.source_dir.clone()),
            default_features: false,
            features: Vec::new(),
        };
        proof {
            assert(self_dep.features@.map_values(|s: String| s@) =~= Seq::<Seq<char>>::empty());
        }
        dependencies.push((crate_name.clone(), self_dep));
        let mut bins: Vec<Bin> = Vec::new();
        let main_name = cargo.name.clone();
        let main_path = crate::normalize::chars_to_string(&str_to_chars("main.rs"));
        bins.push(Bin { name: Name(main_name), path: main_path });
        let ghost dir = project.source_dir@;
        let mut b: usize = 0;
        proof {
            assert(tests@.take(0) =~= Seq::<Test>::empty());
            assert(bins_views(bins@).skip(1) =~= Seq::<(Seq<char>, Seq<char>)>::empty());
        }
        while b < tests.len()
            invariant
                0 <= b <= tests@.len(),
                bins@.len() >= 1,
                bins@[0].name.0@ == cargo.name@,
                bins@[0].path@ == "main.rs"@,
                bins_views(bins@).skip(1) == spec_bins_of(tests@.take(b as int), dir),
            decreases tests@.len() - b,
        {
            proof {
                assert(tests@.take(b + 1).drop_last() =~= tests@.take(b as int));
                assert(tests@.take(b + 1).last() == tests@[b as int]);
            }
            let ghost bins0 = bins@;
            if tests[b].error.is_none() {
                let name = tests[b].name.clone();
                let path = join_slash(&project.source_dir, &tests[b].spec.path);
                bins.push(Bin { name: Name(name), path });
                proof {
                    assert(bins_views(bins@) =~= bins_views(bins0).push(
                        (tests@[b as int].name@, dir + seq!['/'] + tests@[b as int].spec.path@),
                    ));
                    assert(bins_views(bins0).push(
                        (tests@[b as int].name@, dir + seq!['/'] + tests@[b as int].spec.path@),
                    ).skip(1) =~= bins_views(bins0).skip(1) + seq![
                        (tests@[b as int].name@, dir + seq!['/'] + tests@[b as int].spec.path@),
                    ]);
                }
            } else {
                proof {
                    assert(bins_views(bins@).skip(1) + Seq::<(Seq<char>, Seq<char>)>::empty()
                        =~= bins_views(bins@).skip(1));
                }
            }
            b += 1;
        }
        proof {
            assert(tests@.take(tests@.len() as int) =~= tests@);
            crate::run::lemma_bins_of_len(tests@, dir);
        }
        let version = crate::normalize::chars_to_string(&str_to_chars("0.0.0"));
        Manifest {
            package: Package {
                name: cargo.name.clone(),
                version,
                edition: source.edition.clone(),
                publish: false,
            },
            features,
            dependencies,
            bins,
        }
    }
}

/// A test list contributes as many binary targets as it has resolved cases.
pub proof fn lemma_bins_of_len(tests: Seq<Test>, dir: Seq<char>)
    ensures
        spec_bins_of(tests, dir).len() <= tests.len(),
    decreases tests.len(),
{
    if tests.len() > 0 {
        lemma_bins_of_len(tests.drop_last(), dir);
    }
}


/// Round trip at the decision table: a first `CompileFail` run with no
/// stored expectation persists the preferred variation; re-deciding the
/// same unchanged output against that stored text yields `Matched` with
/// nothing further to write, under either policy, provided the preferred
/// variation holds no carriage-return-newline pair.
pub proof fn lemma_round_trip_decision(
    vars: Seq<Seq<char>>,
    policy1: UpdatePolicy,
    policy2: UpdatePolicy,
)
    requires
        vars.len() == crate::normalize::level_count(),
        forall|j: int|
            0 <= j < vars.last().len() ==> !crate::text::matches_at(vars.last(), "\r\n"@, j),
    ensures
        ({
            let first = spec_check_compile_fail(false, None, vars, policy1);
            first.1 matches Some(w) && spec_check_compile_fail(false, Some(w.1), vars, policy2)
                == (TestOutcome::Matched, None::<(WriteDest, Seq<char>)>)
        }),
{
    crate::normalize::lemma_round_trip(vars);
}


/// Decimal renderings are never empty.
pub proof fn lemma_decimal_min_len(n: nat)
    ensures
        spec_decimal(n).len() >= 1,
        n >= 10 ==> spec_decimal(n).len() >= 2,
    decreases n,
{
    if n >= 10 {
        lemma_decimal_min_len(n / 10);
    }
}

/// A number at least one never renders with a leading zero digit.
pub proof fn lemma_decimal_leading(n: nat)
    requires
        n >= 1,
    ensures
        spec_decimal(n)[0] != '0',
    decreases n,
{
    if n < 10 {
    } else {
        lemma_decimal_min_len(n / 10);
        lemma_decimal_leading(n / 10);
        assert(spec_decimal(n)[0] == spec_decimal(n / 10)[0]);
    }
}

/// Two distinct digits render as distinct characters.
pub proof fn lemma_digit_injective(a: nat, b: nat)
    requires
        a < 10,
        b < 10,
        a != b,
    ensures
        spec_digit(a) != spec_digit(b),
{
}

/// Decimal rendering is injective.
pub proof fn lemma_decimal_injective(i: nat, j: nat)
    requires
        i != j,
    ensures
        spec_decimal(i) != spec_decimal(j),
    decreases i + j,
{
    lemma_decimal_min_len(i);
    lemma_decimal_min_len(j);
    if i < 10 && j < 10 {
        lemma_digit_injective(i, j);
        assert(spec_decimal(i)[0] != spec_decimal(j)[0]);
    } else if i < 10 {
        assert(spec_decimal(i).len() == 1);
        assert(spec_decimal(j).len() >= 2);
    } else if j < 10 {
        assert(spec_decimal(j).len() == 1);
        assert(spec_decimal(i).len() >= 2);
    } else {
        if spec_decimal(i) == spec_decimal(j) {
            assert(spec_decimal(i).last() == spec_digit(i % 10));
            assert(spec_decimal(j).last() == spec_digit(j % 10));
            if i % 10 != j % 10 {
                lemma_digit_injective(i % 10, j % 10);
                assert(false);
            }
            assert(spec_decimal(i).drop_last() =~= spec_decimal(i / 10));
            assert(spec_decimal(j).drop_last() =~= spec_decimal(j / 10));
            if i / 10 != j / 10 {
                lemma_decimal_injective(i / 10, j / 10);
                assert(false);
            }
            assert(i == 10 * (i / 10) + i % 10);
            assert(j == 10 * (j / 10) + j % 10);
            assert(false);
        }
    }
}

/// The zero-padded digits of a generated name.
pub open spec fn spec_padded(i: nat) -> Seq<char> {
    let d = spec_decimal(i);
    (if d.len() == 1 {
        seq!['0', '0']
    } else if d.len() == 2 {
        seq!['0']
    } else {
        Seq::<char>::empty()
    }) + d
}

/// The padded digits of distinct positions differ.
pub proof fn lemma_padded_injective(i: nat, j: nat)
    requires
        i != j,
    ensures
        spec_padded(i) != spec_padded(j),
{
    let di = spec_decimal(i);
    let dj = spec_decimal(j);
    lemma_decimal_min_len(i);
    lemma_decimal_min_len(j);
    lemma_decimal_len(i);
    lemma_decimal_len(j);
    lemma_decimal_injective(i, j);
    if spec_padded(i) == spec_padded(j) {
        if di.len() == dj.len() {
            assert forall|k: int| 0 <= k < di.len() implies di[k] == dj[k] by {
                let pad: int = if di.len() == 1 {
                    2
                } else if di.len() == 2 {
                    1
                } else {
                    0
                };
                assert(spec_padded(i)[pad + k] == di[k]);
                assert(spec_padded(j)[pad + k] == dj[k]);
            }
            assert(di =~= dj);
        } else {
            if di.len() >= 3 || dj.len() >= 3 {
                assert(spec_padded(i).len() == if di.len() >= 3 {
                    di.len() as int
                } else {
                    3
                });
                assert(spec_padded(j).len() == if dj.len() >= 3 {
                    dj.len() as int
                } else {
                    3
                });
                if spec_padded(i).len() == spec_padded(j).len() {
                    if di.len() >= 3 && dj.len() < 3 {
                        assert(i >= 100);
                        lemma_decimal_leading(i);
                        assert(spec_padded(j)[0] == '0');
                        assert(spec_padded(i)[0] == di[0]);
                        assert(false);
                    } else if dj.len() >= 3 && di.len() < 3 {
                        assert(j >= 100);
                        lemma_decimal_leading(j);
                        assert(spec_padded(i)[0] == '0');
                        assert(spec_padded(j)[0] == dj[0]);
                        assert(false);
                    }
                }
            } else {
                // one digit against two digits, both padded to width three
                if di.len() == 1 && dj.len() == 2 {
                    assert(j >= 10);
                    lemma_decimal_leading(j);
                    assert(spec_padded(i)[1] == '0');
                    assert(spec_padded(j)[1] == dj[0]);
                    assert(false);
                } else {
                    assert(di.len() == 2 && dj.len() == 1);
                    assert(i >= 10);
                    lemma_decimal_leading(i);
                    assert(spec_padded(j)[1] == '0');
                    assert(spec_padded(i)[1] == di[0]);
                    assert(false);
                }
            }
        }
    }
}

/// Generated test-case names are unique: distinct positions in expansion
/// order always get distinct names.
pub proof fn lemma_bin_name_injective(i: nat, j: nat)
    requires
        i != j,
    ensures
        spec_bin_name(i) != spec_bin_name(j),
{
    reveal(spec_bin_name);
    lemma_padded_injective(i, j);
    assert(spec_bin_name(i) =~= "trybuild"@ + spec_padded(i));
    assert(spec_bin_name(j) =~= "trybuild"@ + spec_padded(j));
    if spec_bin_name(i) == spec_bin_name(j) {
        let p = "trybuild"@.len() as int;
        let pi = spec_padded(i);
        let pj = spec_padded(j);
        assert(pi.len() == pj.len());
        assert forall|k: int| 0 <= k < pi.len() implies pi[k] == pj[k] by {
            assert(("trybuild"@ + pi)[p + k] == pi[k]);
            assert(("trybuild"@ + pj)[p + k] == pj[k]);
        }
        assert(pi =~= pj);
    }
}

} // verus!
