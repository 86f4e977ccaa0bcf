use cargo_buckal::buckify::deps::{
    dep_kind_matches, directory_given, insert_dep, manifest_directory, platform_keys, resolve_buckal_name,
    resolve_dep_label, resolve_first_party_label, set_deps, Redirect, ResolvedDep, RuleDeps,
};
use cargo_buckal::error::Notice;
use cargo_buckal::paths::place_from;
use cargo_buckal::resolve::{
    Arch, BuckalDep, BuckalDepKind, BuckalNode, BuckalTarget, CargoTargetKind, DependencyKind,
    NodeKind, Os, PackageId, PlatformPredicate, TargetKind, TargetPlatform,
};
use cargo_buckal::sorted::StringSet;

fn p(os: Os, arch: Arch) -> TargetPlatform {
    TargetPlatform { os, arch }
}

fn all_supported() -> Vec<TargetPlatform> {
    let mut out = Vec::new();
    for os in [Os::Windows, Os::Macos, Os::Linux] {
        for arch in [Arch::X86_64, Arch::Arm64] {
            out.push(p(os, arch));
        }
    }
    out
}

fn keys(matched: &[TargetPlatform]) -> Vec<String> {
    platform_keys(&matched.to_vec(), &all_supported())
        .items()
        .clone()
}

#[test]
fn covers_every_arch_of_an_os_emits_the_bare_os_key() {
    let unix = keys(&[
        p(Os::Linux, Arch::X86_64),
        p(Os::Linux, Arch::Arm64),
        p(Os::Macos, Arch::X86_64),
        p(Os::Macos, Arch::Arm64),
    ]);
    assert_eq!(unix, vec!["linux", "macos"]);
}

#[test]
fn one_arch_of_an_os_emits_the_refined_key() {
    assert_eq!(keys(&[p(Os::Linux, Arch::Arm64)]), vec!["linux-arm64"]);
}

#[test]
fn mixed_oses_key_independently() {
    let x86_only = keys(&[
        p(Os::Linux, Arch::X86_64),
        p(Os::Macos, Arch::X86_64),
        p(Os::Windows, Arch::X86_64),
    ]);
    assert_eq!(
        x86_only,
        vec!["linux-x86_64", "macos-x86_64", "windows-x86_64"]
    );
}

#[test]
fn no_match_emits_no_keys() {
    assert!(keys(&[]).is_empty());
}

#[test]
fn coverage_is_relative_to_the_evaluable_platforms() {
    let supported = vec![
        p(Os::Linux, Arch::X86_64),
        p(Os::Macos, Arch::X86_64),
        p(Os::Macos, Arch::Arm64),
    ];
    let matched = vec![p(Os::Linux, Arch::X86_64)];
    assert_eq!(
        platform_keys(&matched, &supported).items().clone(),
        vec!["linux".to_string()]
    );
}

fn mock_target(name: &str, kind: TargetKind) -> BuckalTarget {
    BuckalTarget {
        name: name.to_string(),
        kind: vec![kind],
        test: true,
    }
}

#[test]
fn test_resolve_buckal_name_with_collision() {
    let lib = mock_target("foo", TargetKind::Lib);
    let bin = mock_target("foo", TargetKind::Bin);

    let lib_targets = vec![&lib];
    let bin_targets = vec![&bin];

    let name = resolve_buckal_name(&bin_targets, &lib_targets);
    assert_eq!(name, "foo-lib");
}

#[test]
fn test_resolve_buckal_name_without_collision() {
    let lib = mock_target("foo", TargetKind::Lib);
    let bin = mock_target("bar", TargetKind::Bin);

    let lib_targets = vec![&lib];
    let bin_targets = vec![&bin];

    let name = resolve_buckal_name(&bin_targets, &lib_targets);
    assert_eq!(name, "foo");
}

fn registry_node(name: &str, version: &str) -> BuckalNode {
    BuckalNode {
        package_id: PackageId {
            repr: format!("registry+https://github.com/rust-lang/crates.io-index#{name}@{version}"),
        },
        name: name.to_string(),
        version: version.to_string(),
        kind: NodeKind::ThirdParty,
        manifest_path: format!("/tmp/vendor/{name}/{version}/Cargo.toml"),
        targets: vec![mock_target(name, TargetKind::Lib)],
        vendor_path: Some(format!("third-party/rust/crates/{name}/{version}")),
    }
}

fn local_node(name: &str, manifest: &str, targets: Vec<BuckalTarget>) -> BuckalNode {
    BuckalNode {
        package_id: PackageId {
            repr: format!("path+file:///work/{name}#0.1.0"),
        },
        name: name.to_string(),
        version: "0.1.0".to_string(),
        kind: NodeKind::FirstParty {
            relative_path: String::new(),
        },
        manifest_path: manifest.to_string(),
        targets,
        vendor_path: None,
    }
}

fn dep(name: &str, kind: DependencyKind, target: Option<PlatformPredicate>) -> BuckalDep {
    BuckalDep {
        name: name.to_string(),
        dep_kinds: vec![BuckalDepKind { kind, target }],
    }
}

fn on(platforms: Vec<TargetPlatform>, target_only: bool) -> Option<PlatformPredicate> {
    Some(PlatformPredicate {
        platforms,
        target_only,
    })
}

#[test]
fn test_set_deps_redirects_to_patched_version() {
    let deps = vec![ResolvedDep {
        dep: dep("foo", DependencyKind::Normal, None),
        node: registry_node("foo", "0.1.0"),
        redirect: Redirect::To(registry_node("foo", "0.2.0")),
    }];
    let mut rule = RuleDeps::new();
    let mut notices = Vec::new();

    set_deps(
        &mut rule,
        &deps,
        CargoTargetKind::Lib,
        &all_supported(),
        Some("/tmp/root"),
        &mut notices,
    )
    .expect("failed to set deps");

    assert!(rule
        .deps
        .contains("//third-party/rust/crates/foo/0.2.0:foo"));
    assert!(!rule
        .deps
        .contains("//third-party/rust/crates/foo/0.1.0:foo"));
}

#[test]
fn kinds_of_dependencies_reach_their_targets() {
    assert!(dep_kind_matches(
        CargoTargetKind::CustomBuild,
        DependencyKind::Build
    ));
    assert!(!dep_kind_matches(
        CargoTargetKind::CustomBuild,
        DependencyKind::Normal
    ));
    assert!(dep_kind_matches(
        CargoTargetKind::Test,
        DependencyKind::Development
    ));
    assert!(dep_kind_matches(
        CargoTargetKind::Test,
        DependencyKind::Normal
    ));
    assert!(!dep_kind_matches(
        CargoTargetKind::Lib,
        DependencyKind::Development
    ));
    assert!(dep_kind_matches(
        CargoTargetKind::Bin,
        DependencyKind::Normal
    ));
}

#[test]
fn first_party_labels_stand_below_the_root() {
    let node = local_node(
        "my-core",
        "/work/src/core/Cargo.toml",
        vec![mock_target("my_core", TargetKind::Lib)],
    );
    assert_eq!(
        resolve_first_party_label(&node, Some("/work")).expect("label"),
        "//src/core:my_core"
    );
    assert_eq!(
        manifest_directory("/work/Cargo.toml", "/work").expect("directory"),
        ""
    );
    assert_eq!(manifest_directory("/Cargo.toml", "/").expect("directory"), "");
    assert_eq!(
        manifest_directory("/work/a/Cargo.toml", "/").expect("directory"),
        "work/a"
    );
    let place = place_from(Some("C:\\w\\a".to_owned()), Some("a\\b".to_owned()));
    assert_eq!(directory_given(place, "C:\\w").expect("directory"), "a/b");
    let place = place_from(Some("/far".to_owned()), None);
    assert_eq!(
        directory_given(place, "/work").expect_err("outside").messages().clone(),
        vec!["dependency manifest dir `/far` is not under Buck2 root `/work`"]
    );
}

#[test]
fn first_party_labels_fail_where_they_must() {
    let node = local_node(
        "core",
        "/work/core/Cargo.toml",
        vec![mock_target("core", TargetKind::Lib)],
    );
    let err = resolve_first_party_label(&node, Some("/elsewhere")).expect_err("outside");
    assert_eq!(
        err.messages().clone(),
        vec!["dependency manifest dir `/work/core` is not under Buck2 root `/elsewhere`"]
    );
    let err = resolve_first_party_label(&node, None).expect_err("no root");
    assert_eq!(err.messages().clone(), vec!["failed to get buck2 root"]);

    let bare = local_node("bare", "/work/bare/Cargo.toml", vec![]);
    let err = resolve_first_party_label(&bare, Some("/work")).expect_err("no library");
    assert_eq!(
        err.messages().clone(),
        vec!["Expected exactly one library target for dependency bare, but found 0"]
    );
    let err = manifest_directory("/", "/work").expect_err("no parent");
    assert_eq!(
        err.messages().clone(),
        vec!["manifest_path should always have a parent directory"]
    );
}

#[test]
fn a_renamed_dependency_gets_its_alias() {
    let resolved = ResolvedDep {
        dep: dep("other", DependencyKind::Normal, None),
        node: registry_node("my-foo", "1.0.0"),
        redirect: Redirect::Keep,
    };
    let (label, alias) = resolve_dep_label(&resolved, None).expect("label");
    assert_eq!(label, "//third-party/rust/crates/my-foo/1.0.0:my-foo");
    assert_eq!(alias.as_deref(), Some("other"));

    let same = ResolvedDep {
        dep: dep("my_foo", DependencyKind::Normal, None),
        ..resolved
    };
    assert_eq!(resolve_dep_label(&same, None).expect("label").1, None);
}

#[test]
fn labels_fail_with_their_context() {
    let mut node = registry_node("foo", "1.0.0");
    node.vendor_path = None;
    let unvendored = ResolvedDep {
        dep: dep("foo", DependencyKind::Normal, None),
        node,
        redirect: Redirect::Keep,
    };
    assert!(resolve_dep_label(&unvendored, None).is_err());

    let mut rule = RuleDeps::new();
    let failing = vec![ResolvedDep {
        dep: dep("foo", DependencyKind::Normal, None),
        node: registry_node("foo", "1.0.0"),
        redirect: Redirect::Fails("no such version".to_owned()),
    }];
    let err = set_deps(
        &mut rule,
        &failing,
        CargoTargetKind::Lib,
        &all_supported(),
        None,
        &mut Vec::new(),
    )
    .expect_err("redirect fails");
    assert_eq!(
        err.messages().clone(),
        vec![
            "failed to resolve dependency label for 'foo' (package 'foo')",
            "no such version"
        ]
    );
}

#[test]
fn conditional_dependencies_go_under_their_keys() {
    let deps = vec![
        ResolvedDep {
            dep: dep(
                "libc",
                DependencyKind::Normal,
                on(vec![p(Os::Linux, Arch::Arm64)], false),
            ),
            node: registry_node("libc", "0.2.0"),
            redirect: Redirect::Keep,
        },
        ResolvedDep {
            dep: dep("wasm", DependencyKind::Normal, on(vec![], true)),
            node: registry_node("wasm", "1.0.0"),
            redirect: Redirect::Keep,
        },
        ResolvedDep {
            dep: dep("odd", DependencyKind::Normal, on(vec![], false)),
            node: registry_node("odd", "1.0.0"),
            redirect: Redirect::Keep,
        },
        ResolvedDep {
            dep: dep("dev", DependencyKind::Development, None),
            node: registry_node("dev", "1.0.0"),
            redirect: Redirect::Keep,
        },
    ];
    let mut rule = RuleDeps::new();
    let mut notices = Vec::new();
    set_deps(
        &mut rule,
        &deps,
        CargoTargetKind::Lib,
        &all_supported(),
        None,
        &mut notices,
    )
    .expect("deps");
    let linux = rule.os_deps.get("linux-arm64").expect("key");
    assert!(linux.contains("//third-party/rust/crates/libc/0.2.0:libc"));
    assert_eq!(rule.os_deps.len(), 1);
    assert_eq!(
        rule.deps.items().clone(),
        vec!["//third-party/rust/crates/odd/1.0.0:odd"]
    );
    assert_eq!(notices.len(), 1);
    assert!(matches!(&notices[0], Notice::Note(n)
        if n == "Dependency 'wasm' (package 'wasm') targets only unsupported platforms and will be omitted."));
}

#[test]
fn conflicting_aliases_warn_or_fail() {
    let mut rule = RuleDeps::new();
    let mut notices = Vec::new();
    insert_dep(&mut rule, "//a:a", Some("x"), None, &mut notices).expect("first");
    insert_dep(&mut rule, "//b:b", Some("x"), None, &mut notices).expect("second");
    assert_eq!(rule.named_deps.get("x").expect("alias"), "//a:a");
    assert!(matches!(&notices[0], Notice::Warning(w)
        if w == "named_deps alias 'x' had conflicting targets: '//a:a' vs '//b:b'"));

    let linux = StringSet::from_list(&vec!["linux".to_owned()]);
    let both = StringSet::from_list(&vec!["macos".to_owned(), "linux".to_owned()]);
    insert_dep(&mut rule, "//a:a", Some("x"), Some(&linux), &mut notices).expect("first");
    insert_dep(&mut rule, "//a:a", Some("x"), Some(&both), &mut notices).expect("same target");
    let err = insert_dep(&mut rule, "//b:b", Some("x"), Some(&linux), &mut notices)
        .expect_err("conflict");
    assert_eq!(
        err.messages().clone(),
        vec!["os_named_deps alias 'x' had conflicting targets for platform key 'linux': '//a:a' vs '//b:b'"]
    );
    let entries = rule.os_named_deps.get("x").expect("alias");
    assert_eq!(entries.len(), 2);
    assert_eq!(entries.get("macos").expect("key"), "//a:a");
}
