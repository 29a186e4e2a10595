use trybuild::cargo::{features, CargoProject, Metadata};
use trybuild::manifest::{Dependency, SourceManifest};
use trybuild::run::{CargoStrategy, Expansion, Project, TestSpec};
use trybuild::{Expected, UpdatePolicy};

fn project(features: Option<Vec<String>>) -> CargoProject {
    CargoProject {
        dir: "/target/tests/demo".to_string(),
        target_dir: "/target".to_string(),
        name: "demo-tests".to_string(),
        has_pass: true,
        has_compile_fail: false,
        features,
    }
}

#[test]
fn feature_arguments_join_with_commas() {
    let args = features(&project(Some(vec!["alpha".to_string(), "beta".to_string()])));
    assert_eq!(
        args,
        vec![
            "--no-default-features".to_string(),
            "--features".to_string(),
            "alpha,beta".to_string(),
        ]
    );
}

#[test]
fn default_features_need_no_arguments() {
    assert!(features(&project(None)).is_empty());
}

#[test]
fn subcommand_follows_whether_binaries_must_run() {
    assert_eq!(project(None).build_subcommand(), "build");
    let mut p = project(None);
    p.has_pass = false;
    assert_eq!(p.build_subcommand(), "check");
}

#[test]
fn metadata_fields_carry_through() {
    let m = Metadata {
        target_directory: "/target".to_string(),
        workspace_root: "/ws".to_string(),
    };
    assert_eq!(m.target_directory, "/target");
    assert_eq!(m.workspace_root, "/ws");
}

#[test]
fn generated_manifest_shape() {
    let strategy = CargoStrategy::new();
    let mut project_under_test = Project::new(UpdatePolicy::RecordPending);
    project_under_test.source_dir = "/home/u/demo".to_string();
    project_under_test.workspace = "/home/u".to_string();
    let cargo = CargoProject {
        dir: "/t/tests/demo".to_string(),
        target_dir: "/t".to_string(),
        name: "demo-tests".to_string(),
        has_pass: true,
        has_compile_fail: true,
        features: None,
    };
    let specs = vec![
        TestSpec { path: "tests/ui/a.rs".to_string(), expected: Expected::CompileFail },
        TestSpec { path: "tests/bad[*.rs".to_string(), expected: Expected::Pass },
    ];
    let tests = trybuild::run::expand_globs(
        &specs,
        &vec![Expansion::NotGlob, Expansion::Failed("bad pattern".to_string())],
    );
    let source = SourceManifest {
        edition: "2018".to_string(),
        features: vec!["extra".to_string()],
        dependencies: vec![(
            "serde".to_string(),
            Dependency {
                version: Some("1.0".to_string()),
                path: None,
                default_features: true,
                features: Vec::new(),
            },
        )],
        dev_dependencies: vec![(
            "glob".to_string(),
            Dependency {
                version: Some("0.3".to_string()),
                path: None,
                default_features: true,
                features: Vec::new(),
            },
        )],
    };
    let crate_name = "demo".to_string();
    let manifest = strategy.make_manifest(&crate_name, &project_under_test, &cargo, &tests, &source);
    assert_eq!(manifest.package.name, "demo-tests");
    assert_eq!(manifest.package.version, "0.0.0");
    assert_eq!(manifest.package.edition, "2018");
    assert!(!manifest.package.publish);
    assert_eq!(manifest.features.len(), 1);
    assert_eq!(manifest.features[0].0, "extra");
    assert_eq!(manifest.features[0].1, vec!["demo/extra".to_string()]);
    assert_eq!(manifest.dependencies.len(), 3);
    assert_eq!(manifest.dependencies[0].0, "serde");
    assert_eq!(manifest.dependencies[1].0, "glob");
    assert_eq!(manifest.dependencies[2].0, "demo");
    assert_eq!(manifest.dependencies[2].1.path.as_deref(), Some("/home/u/demo"));
    assert!(!manifest.dependencies[2].1.default_features);
    // the placeholder main plus the one test whose expansion succeeded
    assert_eq!(manifest.bins.len(), 2);
    assert_eq!(manifest.bins[0].name.0, "demo-tests");
    assert_eq!(manifest.bins[0].path, "main.rs");
    assert_eq!(manifest.bins[1].name.0, "trybuild000");
    assert_eq!(manifest.bins[1].path, "/home/u/demo/tests/ui/a.rs");
    let config = strategy.make_config(vec!["-Dwarnings".to_string()]);
    assert_eq!(config.build.rustflags, vec!["-Dwarnings".to_string()]);
}
