use cargo_buckal::buckify::windows::{
    apply_rustc_flags_patch_to_content, build_script_run_flag, build_script_target_name,
    has_build_dependencies, patch_buildscript_windows_rustc_flags, patch_root_windows_rustc_flags,
    references_own_build_script, render_windows_rustc_flags_select, windows_import_lib_flags,
    WindowsImportLibFlags,
};
use cargo_buckal::resolve::{
    BuckalDep, BuckalDepKind, BuckalNode, BuckalTarget, DependencyKind, NodeKind, PackageId,
    TargetKind,
};

const SELECT: &str = "select({\"DEFAULT\": []})";

fn target(name: &str, kind: TargetKind) -> BuckalTarget {
    BuckalTarget {
        name: name.to_owned(),
        kind: vec![kind],
        test: false,
    }
}

fn first_party(name: &str, targets: Vec<BuckalTarget>) -> BuckalNode {
    BuckalNode {
        package_id: PackageId {
            repr: format!("path+file:///tmp/{name}#0.1.0"),
        },
        name: name.to_owned(),
        version: "0.1.0".to_owned(),
        kind: NodeKind::FirstParty {
            relative_path: String::new(),
        },
        manifest_path: "/tmp/Cargo.toml".to_owned(),
        targets,
        vendor_path: None,
    }
}

fn registry(name: &str, version: &str, targets: Vec<BuckalTarget>) -> BuckalNode {
    BuckalNode {
        package_id: PackageId {
            repr: format!("registry+https://github.com/rust-lang/crates.io-index#{name}@{version}"),
        },
        name: name.to_owned(),
        version: version.to_owned(),
        kind: NodeKind::ThirdParty,
        manifest_path: "/tmp/Cargo.toml".to_owned(),
        targets,
        vendor_path: Some(format!("third-party/rust/crates/{name}/{version}")),
    }
}

fn edge(name: &str, kind: DependencyKind) -> BuckalDep {
    BuckalDep {
        name: name.to_owned(),
        dep_kinds: vec![BuckalDepKind { kind, target: None }],
    }
}

#[test]
fn render_windows_rustc_flags_select_empty() {
    let flags = WindowsImportLibFlags::default();
    assert_eq!(render_windows_rustc_flags_select(&flags), "");
}

#[test]
fn render_windows_rustc_flags_select_structured_output() {
    let flags = WindowsImportLibFlags {
        gnu: vec!["@gnu1".to_owned(), "@gnu2".to_owned()],
        msvc_x86_64: vec!["@msvc64".to_owned()],
    };

    let rendered = render_windows_rustc_flags_select(&flags);

    let expected = r#"select({
        "prelude//os/constraints:windows": select({
            "prelude//abi/constraints:gnu": [
                "@gnu1",
                "@gnu2",
            ],
            "DEFAULT": [
                "@msvc64",
            ],
        }),
        "DEFAULT": [],
    })"#;

    assert_eq!(rendered, expected);
}

#[test]
fn apply_rustc_flags_patch_to_content_patches_named_binary_only() {
    let input = r#"rust_library(
    name = "bin",
    rustc_flags = [
        "libflag",
    ],
)

rust_binary(
    name = "bin",
    rustc_flags = [
        "binflag",
    ],
)
"#;
    let expected = r#"rust_library(
    name = "bin",
    rustc_flags = [
        "libflag",
    ],
)

rust_binary(
    name = "bin",
    rustc_flags = [
        "binflag",
    ] + select({"DEFAULT": []}),
)
"#;
    let patched = apply_rustc_flags_patch_to_content(input, "rust_binary", "bin", SELECT);
    assert_eq!(patched, expected);
}

#[test]
fn apply_rustc_flags_patch_to_content_patches_the_build_script_binary() {
    let input = r#"rust_library(
    name = "mm_proto",
    rustc_flags = [
        "@$(location :build-script-run[rustc_flags])",
    ],
)

rust_binary(
    name = "build-script-build",
    rustc_flags = [
        "@$(location :manifest[env_flags])",
    ],
)
"#;
    let expected = r#"rust_library(
    name = "mm_proto",
    rustc_flags = [
        "@$(location :build-script-run[rustc_flags])",
    ],
)

rust_binary(
    name = "build-script-build",
    rustc_flags = [
        "@$(location :manifest[env_flags])",
    ] + select({"DEFAULT": []}),
)
"#;
    let patched =
        apply_rustc_flags_patch_to_content(input, "rust_binary", "build-script-build", SELECT);
    assert_eq!(patched, expected);
}

#[test]
fn apply_rustc_flags_patch_to_content_does_not_touch_other_binaries() {
    let input = r#"rust_binary(
    name = "a",
    rustc_flags = [
        "aflag",
    ],
)

rust_binary(
    name = "b",
    rustc_flags = [
        "bflag",
    ],
)
"#;
    let expected = r#"rust_binary(
    name = "a",
    rustc_flags = [
        "aflag",
    ],
)

rust_binary(
    name = "b",
    rustc_flags = [
        "bflag",
    ] + select({"DEFAULT": []}),
)
"#;
    let patched = apply_rustc_flags_patch_to_content(input, "rust_binary", "b", SELECT);
    assert_eq!(patched, expected);
}

#[test]
fn apply_rustc_flags_patch_to_content_patches_named_test_only() {
    let input = r#"rust_binary(
    name = "bin",
    rustc_flags = [
        "binflag",
    ],
)

rust_test(
    name = "bin-unittest",
    rustc_flags = [
        "testflag",
    ],
)
"#;
    let expected = r#"rust_binary(
    name = "bin",
    rustc_flags = [
        "binflag",
    ],
)

rust_test(
    name = "bin-unittest",
    rustc_flags = [
        "testflag",
    ] + select({"DEFAULT": []}),
)
"#;
    let patched = apply_rustc_flags_patch_to_content(input, "rust_test", "bin-unittest", SELECT);
    assert_eq!(patched, expected);
}

#[test]
fn apply_rustc_flags_patch_to_content_patches_a_renamed_build_script() {
    let input = r#"rust_binary(
    name = "build-script-custom_build",
    rustc_flags = [
        "@$(location :manifest[env_flags])",
    ],
)
"#;
    let patched = apply_rustc_flags_patch_to_content(
        input,
        "rust_binary",
        "build-script-custom_build",
        SELECT,
    );
    assert!(
        patched.contains("] + select({\"DEFAULT\": []}),"),
        "got:\n{patched}"
    );
}

#[test]
fn patch_leaves_unparseable_content_alone() {
    let input = "rust_binary(name = \"b\", rustc_flags = [\n";
    let patched = apply_rustc_flags_patch_to_content(input, "rust_binary", "b", SELECT);
    assert_eq!(patched, input);
}

#[test]
fn patch_counts_bytes_and_not_characters() {
    let input = "# größe\nrust_binary(\n    name = \"b\",\n    rustc_flags = [\"ß\"],\n)\n";
    let patched = apply_rustc_flags_patch_to_content(input, "rust_binary", "b", SELECT);
    assert_eq!(
        patched,
        "# größe\nrust_binary(\n    name = \"b\",\n    rustc_flags = [\"ß\"] + select({\"DEFAULT\": []}),\n)\n"
    );
}

#[test]
fn has_build_dependencies_distinguishes_edge_kinds() {
    assert!(
        has_build_dependencies(&vec![edge("dep", DependencyKind::Build)]),
        "a build-dependency edge is what puts a crate in the build script's link"
    );
    assert!(
        !has_build_dependencies(&vec![edge("dep", DependencyKind::Normal)]),
        "a normal dependency reaches the library, not the build script"
    );
    assert!(
        !has_build_dependencies(&vec![edge("dep", DependencyKind::Development)]),
        "nor does a dev-dependency"
    );
}

#[test]
fn build_script_target_name_follows_the_cargo_target() {
    let default = first_party(
        "p",
        vec![
            target("p", TargetKind::Lib),
            target("build-script-build", TargetKind::CustomBuild),
        ],
    );
    assert_eq!(
        build_script_target_name(&default),
        Some("build-script-build")
    );

    let renamed = first_party(
        "p",
        vec![
            target("p", TargetKind::Lib),
            target("build-script-custom_build", TargetKind::CustomBuild),
        ],
    );
    assert_eq!(
        build_script_target_name(&renamed),
        Some("build-script-custom_build"),
        "the name comes from the Cargo target, not a filename convention"
    );

    let none = first_party("p", vec![target("p", TargetKind::Lib)]);
    assert_eq!(
        build_script_target_name(&none),
        None,
        "a package with no build script has no rule to patch"
    );
}

#[test]
fn patch_buildscript_uses_the_packages_own_build_script_name() {
    let root = first_party(
        "myroot",
        vec![
            target("myroot", TargetKind::Lib),
            target("build-script-custom_build", TargetKind::CustomBuild),
        ],
    );
    let nodes = vec![
        first_party(
            "myroot",
            vec![
                target("myroot", TargetKind::Lib),
                target("build-script-custom_build", TargetKind::CustomBuild),
            ],
        ),
        first_party("helper", vec![]),
        registry("windows_x86_64_msvc", "0.52.6", vec![]),
    ];
    let generated = r#"rust_binary(
    name = "build-script-custom_build",
    rustc_flags = [
        "@$(location :manifest[env_flags])",
    ],
)
"#;

    let patched = patch_buildscript_windows_rustc_flags(
        generated.to_owned(),
        &nodes,
        &vec![edge("helper", DependencyKind::Build)],
        &root,
    )
    .expect("every provider is vendored");

    assert!(
        patched.contains("windows_x86_64_msvc/0.52.6:build-script-run[rustc_flags]"),
        "a renamed build script must still get the import-lib search path, got:\n{patched}"
    );
}

#[test]
fn a_provider_is_not_pointed_at_its_own_build_script_run() {
    let provider = registry("windows_x86_64_msvc", "0.52.6", vec![]);
    let vendor = provider.vendor_path.as_deref().expect("vendor path");
    let flags = WindowsImportLibFlags {
        gnu: vec![],
        msvc_x86_64: vec![build_script_run_flag(vendor)],
    };

    assert!(
        references_own_build_script(&flags, &provider),
        "the crate the flags come from must be recognised without naming it"
    );
    assert!(!references_own_build_script(
        &flags,
        &registry("serde", "1.0.0", vec![])
    ));
    assert!(!references_own_build_script(
        &flags,
        &first_party("p", vec![])
    ));
}

#[test]
fn patch_buildscript_leaves_a_provider_alone() {
    let targets = || {
        vec![
            target("windows_x86_64_msvc", TargetKind::Lib),
            target("build-script-build", TargetKind::CustomBuild),
        ]
    };
    let provider = registry("windows_x86_64_msvc", "0.52.6", targets());
    let nodes = vec![
        registry("windows_x86_64_msvc", "0.52.6", targets()),
        registry("helper", "1.0.0", vec![]),
    ];
    let generated = r#"rust_binary(
    name = "build-script-build",
    rustc_flags = [
        "@$(location :manifest[env_flags])",
    ],
)
"#;

    let patched = patch_buildscript_windows_rustc_flags(
        generated.to_owned(),
        &nodes,
        &vec![edge("helper", DependencyKind::Build)],
        &provider,
    )
    .expect("every provider is vendored");

    assert_eq!(
        patched, generated,
        "a provider must not be pointed at the build-script-run that runs it"
    );
}

#[test]
fn patch_root_reaches_binaries_tests_and_the_harnesses_of_binaries() {
    let root = BuckalNode {
        targets: vec![
            BuckalTarget {
                name: "tool".to_owned(),
                kind: vec![TargetKind::Bin],
                test: true,
            },
            BuckalTarget {
                name: "it".to_owned(),
                kind: vec![TargetKind::Test],
                test: true,
            },
        ],
        ..first_party("root", vec![])
    };
    let nodes = vec![registry("windows_x86_64_gnu", "0.52.6", vec![])];
    let generated = "rust_binary(\n    name = \"tool\",\n    rustc_flags = [],\n)\n\n\
                     rust_test(\n    name = \"tool-unittest\",\n    rustc_flags = [],\n)\n\n\
                     rust_test(\n    name = \"it\",\n    rustc_flags = [],\n)\n\n\
                     rust_binary(\n    name = \"other\",\n    rustc_flags = [],\n)\n";
    let patched = patch_root_windows_rustc_flags(generated.to_owned(), &nodes, &root)
        .expect("every provider is vendored");
    assert_eq!(patched.matches("rustc_flags = [] + select({").count(), 3);
    assert!(patched.ends_with("name = \"other\",\n    rustc_flags = [],\n)\n"));
}

#[test]
fn providers_are_listed_by_version() {
    let nodes = vec![
        registry("windows_x86_64_msvc", "0.53.0", vec![]),
        registry("serde", "1.0.0", vec![]),
        registry("windows_x86_64_msvc", "0.52.6", vec![]),
        registry("winapi-x86_64-pc-windows-gnu", "0.4.0", vec![]),
    ];
    let flags = windows_import_lib_flags(&nodes).expect("every provider is vendored");
    assert_eq!(
        flags.msvc_x86_64,
        vec![
            "@$(location //third-party/rust/crates/windows_x86_64_msvc/0.52.6:build-script-run[rustc_flags])",
            "@$(location //third-party/rust/crates/windows_x86_64_msvc/0.53.0:build-script-run[rustc_flags])",
        ]
    );
    assert_eq!(flags.gnu.len(), 1);
}

#[test]
fn a_provider_without_a_vendor_directory_is_named() {
    let mut node = registry("windows_x86_64_gnu", "0.52.6", vec![]);
    node.vendor_path = None;
    let id = node.package_id.repr.clone();
    let err = windows_import_lib_flags(&vec![node]).expect_err("not vendored");
    assert_eq!(err.package, id);
}

#[test]
fn only_a_call_of_an_identifier_is_patched() {
    let content = "native.rust_binary(\n    name = \"a\",\n    rustc_flags = [],\n)\n";
    for rule in ["native.rust_binary", "rust_binary", "native"] {
        assert_eq!(
            apply_rustc_flags_patch_to_content(content, rule, "a", SELECT),
            content
        );
    }
}
