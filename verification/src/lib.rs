//! A snapshot-testing harness for compiler diagnostics: test sources are
//! built, the compiler's diagnostic output is normalized, and the result is
//! compared against stored "golden" expectations, tolerating known
//! formatting variance across toolchain versions.

use vstd::prelude::*;

pub mod cargo;
pub mod manifest;
pub mod normalize;
pub mod run;
pub mod text;

verus! {

/// Expected outcome of one test case: the source either compiles (and the
/// produced binary runs successfully), or compilation fails with a
/// diagnostic matched against a stored expectation.
#[derive(Clone, Copy, Debug, PartialEq, Eq, Structural)]
pub enum Expected {
    Pass,
    CompileFail,
}

/// How stored expectations are updated, chosen once for a whole run.
/// `RecordPending` never touches an existing expectation: a newly observed
/// diagnostic goes to a scratch area for review. `Overwrite` writes the
/// preferred rendering to the authoritative expectation path.
#[derive(Clone, Copy, Debug, PartialEq, Eq, Structural)]
pub enum UpdatePolicy {
    RecordPending,
    Overwrite,
}

/// The errors a test run can report.
pub enum Error {
    /// A test path pattern could not be expanded.
    Expansion(String),
    /// A test source file could not be opened.
    Open(String),
    /// The build tool could not be invoked at all.
    Cargo(String),
    /// A build that was expected to succeed failed.
    CargoFail,
    /// The built binary exited unsuccessfully.
    RunFailed,
    /// A test expected to fail to compile compiled.
    ShouldNotHaveCompiled,
    /// The diagnostic did not match the stored expectation.
    Mismatch,
    /// A stored expectation could not be read.
    ReadExpected(String),
    /// An expectation could not be written.
    WriteExpected(String),
    /// The package name of the project under test is not available.
    PkgName,
    /// The source directory of the project under test is not available.
    ProjectDir,
    /// The build tool's metadata could not be parsed.
    Metadata(String),
}

} // verus!
