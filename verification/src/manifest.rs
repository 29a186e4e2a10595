//! The model of the generated build manifest: the package header, feature
//! forwarding table, dependency list and binary targets that the harness
//! computes for the ephemeral test project. Rendering this model to the
//! build tool's on-disk format is the caller's job.

use vstd::prelude::*;

verus! {

/// Name of a package or binary target.
pub struct Name(pub String);

/// The package header of the generated manifest.
pub struct Package {
    pub name: String,
    pub version: String,
    pub edition: String,
    pub publish: bool,
}

/// One dependency entry. Later entries with the same name override earlier
/// ones when the list is rendered as a map.
pub struct Dependency {
    pub version: Option<String>,
    pub path: Option<String>,
    pub default_features: bool,
    pub features: Vec<String>,
}

/// One binary target: a name and the source path it is built from.
pub struct Bin {
    pub name: Name,
    pub path: String,
}

/// The generated manifest: package header, a feature-forwarding table (one
/// entry per feature of the project under test), dependencies in override
/// order, and one binary target per resolved test plus a placeholder main.
pub struct Manifest {
    pub package: Package,
    pub features: Vec<(String, Vec<String>)>,
    pub dependencies: Vec<(String, Dependency)>,
    pub bins: Vec<Bin>,
}

/// The build-configuration fragment for the ephemeral project.
pub struct Config {
    pub build: Build,
}

/// Compiler flags section of the build configuration.
pub struct Build {
    pub rustflags: Vec<String>,
}

/// What the harness reads from the manifest of the project under test:
/// its edition, the names of its features, and its dependency tables.
pub struct SourceManifest {
    pub edition: String,
    pub features: Vec<String>,
    pub dependencies: Vec<(String, Dependency)>,
    pub dev_dependencies: Vec<(String, Dependency)>,
}

/// The mathematical content of a dependency entry.
pub open spec fn dep_view(d: Dependency) -> (Option<Seq<char>>, Option<Seq<char>>, bool, Seq<
    Seq<char>,
>) {
    (
        match d.version {
            None => None,
            Some(v) => Some(v@),
        },
        match d.path {
            None => None,
            Some(p) => Some(p@),
        },
        d.default_features,
        d.features@.map_values(|s: String| s@),
    )
}

/// The names and source paths of a list of binary targets.
pub open spec fn bins_views(bs: Seq<Bin>) -> Seq<(Seq<char>, Seq<char>)> {
    bs.map_values(|b: Bin| (b.name.0@, b.path@))
}

} // verus!
