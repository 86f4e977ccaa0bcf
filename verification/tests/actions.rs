use cargo_buckal::buckify::actions::{
    append_manual_section, bootstrap_manual_section, colliding_target_names,
    is_generated_load_module, is_third_party, loads_for, merge_rules, patch_windows_flags,
    plan_removal, plan_update, plan_update_given, reject_name_collisions, splice_workspace_export, split_sections,
    upsert_workspace_export, without_loads, workspace_file, BuckStatement, ChangeAction, LoadBinding,
    Removal, Rule, RuleKind, WorkspaceFile,
};
use cargo_buckal::cache::{BuckalChange, ChangeType};
use cargo_buckal::error::{Error, Notice};
use cargo_buckal::sorted::{StringMap, StringSet};
use cargo_buckal::resolve::{
    BuckalDep, BuckalDepKind, BuckalNode, BuckalTarget, DependencyKind, NodeKind, PackageId,
    TargetKind,
};

const MARKER: &str = "# === manual ===";

fn names(list: &[&str]) -> Vec<String> {
    list.iter().map(|s| (*s).to_owned()).collect()
}

#[test]
fn test_manual_and_generated_name_collisions_are_reported() {
    let manual = "rust_test(\n    name = \"myroot\",\n)\n";
    let clashes = colliding_target_names(manual, &names(&["myroot"]));
    assert_eq!(clashes, vec!["myroot".to_owned()]);
}

#[test]
fn test_distinct_manual_names_do_not_collide() {
    let manual = "rust_test(\n    name = \"hand-written-it\",\n)\n";
    assert!(colliding_target_names(manual, &names(&["myroot"])).is_empty());
}

#[test]
fn test_fallback_rejects_a_workspace_name_collision() {
    let manual = "export_file(\n    name = \"workspace\",\n    src = \"mine.txt\",\n)\n";
    let clashes = colliding_target_names(manual, &names(&["workspace"]));
    assert_eq!(
        clashes,
        vec!["workspace".to_owned()],
        "the fallback's own export must be checked against the manual section"
    );
}

#[test]
fn collisions_stop_the_run() {
    assert!(reject_name_collisions("x = 1\n", "BUCK", &names(&["a"])).is_ok());
    assert!(reject_name_collisions("not ( starlark", "BUCK", &names(&["a"])).is_ok());
    let manual = "f(name = \"a\")\ng(name = \"b\")\nf(name = \"c\")\n";
    let err = reject_name_collisions(manual, "pkg/BUCK", &names(&["a", "c"])).expect_err("clash");
    assert_eq!(
        err.messages()[0],
        "pkg/BUCK: the manual section declares target(s) a, c that cargo-buckal now generates. \
         Buck target names are unique within a package, so this file was left unchanged. \
         Rename the target(s) below the manual marker and re-run."
    );
}

fn statement(text: &str) -> BuckStatement {
    BuckStatement {
        text: text.to_owned(),
        start: 0,
        end: text.len(),
        is_load: false,
        load_module: None,
        load_bindings: vec![],
        target_name: None,
        call_name: None,
    }
}

fn load(text: &str, module: &str, bindings: &[(&str, &str)]) -> BuckStatement {
    BuckStatement {
        is_load: true,
        load_module: Some(module.to_owned()),
        load_bindings: bindings
            .iter()
            .map(|(local, exported)| LoadBinding {
                local: (*local).to_owned(),
                exported: (*exported).to_owned(),
            })
            .collect(),
        ..statement(text)
    }
}

fn call(text: &str, function: &str, name: &str) -> BuckStatement {
    BuckStatement {
        target_name: Some(name.to_owned()),
        call_name: Some(function.to_owned()),
        ..statement(text)
    }
}

#[test]
fn bootstrap_keeps_what_the_generator_does_not_write() {
    assert!(is_generated_load_module("@buckal//:cargo_manifest.bzl"));
    assert!(!is_generated_load_module("//my:defs.bzl"));
    let statements = vec![
        load(
            "load(\"@buckal//:wrapper.bzl\", \"rust_library\")\n",
            "@buckal//:wrapper.bzl",
            &[("rust_library", "rust_library")],
        ),
        load(
            "load(\"@buckal//:wrapper.bzl\", manual_test = \"rust_test\")\n",
            "@buckal//:wrapper.bzl",
            &[("manual_test", "rust_test")],
        ),
        load(
            "load(\"//my:defs.bzl\", \"my_macro\")\n",
            "//my:defs.bzl",
            &[("my_macro", "my_macro")],
        ),
        call("rust_library(name = \"myroot\")\n", "rust_library", "myroot"),
        call("my_macro(name = \"widget\")\n\n", "my_macro", "widget"),
        statement("  \n"),
        statement("x = 1"),
    ];
    let mut notices = Vec::new();
    let manual =
        bootstrap_manual_section(&statements, "BUCK", &names(&["myroot"]), &mut notices);
    assert_eq!(
        manual,
        "load(\"@buckal//:wrapper.bzl\", manual_test = \"rust_test\")\n\n\
         load(\"//my:defs.bzl\", \"my_macro\")\n\n\
         my_macro(name = \"widget\")\n\nx = 1\n"
    );
    assert!(matches!(&notices[0], Notice::Warning(w)
        if w == "BUCK: 4 statement(s) predating the manual-section marker were moved below it. Rules you added by hand belong there; delete any left over from a target this package no longer has."));

    let mut notices = Vec::new();
    assert_eq!(
        bootstrap_manual_section(&vec![], "BUCK", &vec![], &mut notices),
        ""
    );
    assert!(notices.is_empty());
}

#[test]
fn loads_are_needed_for_what_is_referred_to_and_not_bound() {
    let symbols = names(&["rust_library", "rust_test", "cargo_manifest"]);
    let statements = vec![load(
        "",
        "//my:rust_test_helpers.bzl",
        &[("helper", "helper")],
    )];
    let referenced = names(&["rust_test", "helper", "glob"]);
    assert_eq!(
        loads_for(Some(&statements), Some(&referenced), &symbols)
            .items()
            .clone(),
        vec!["rust_test"]
    );
    let bound = vec![load("", "//other:defs.bzl", &[("rust_test", "their_test")])];
    assert!(loads_for(Some(&bound), Some(&referenced), &symbols).is_empty());
    assert!(loads_for(None, Some(&referenced), &symbols).is_empty());
    assert!(loads_for(Some(&statements), None, &symbols).is_empty());
}

#[test]
fn the_marker_is_always_written() {
    assert_eq!(
        append_manual_section("rules\n\n\n", "", MARKER),
        "rules\n\n# === manual ===\n"
    );
    assert_eq!(
        append_manual_section("rules", " \n", MARKER),
        "rules\n\n# === manual ===\n"
    );
    assert_eq!(
        append_manual_section("rules\n", "# note\nx()\n\n", MARKER),
        "rules\n\n# === manual ===\n\n# note\nx()\n"
    );
}

#[test]
fn the_manual_section_comes_back() {
    let manual = "# why this rule exists\n\nmy_macro(\n    name = \"widget\",\n)\n";
    let file = append_manual_section("generated()\n", manual, MARKER);
    let (generated, section) = split_sections(&file, MARKER).expect("marker");
    assert_eq!(generated, "generated()\n\n");
    assert_eq!(section.trim(), manual.trim());
    assert_eq!(
        append_manual_section("generated()\n", section.trim(), MARKER),
        file
    );
    assert!(split_sections("no marker here", MARKER).is_none());
}

#[test]
fn merging_reads_the_section_below_the_marker() {
    let mut notices = Vec::new();
    let file = format!("old()\n\n{MARKER}\n\nf(name = \"a\")\n");
    let merge = |existing: Option<&str>, no_merge: bool, generated: &[&str]| {
        merge_rules(
            existing,
            no_merge,
            MARKER,
            Err(Error::new("unexpected end".to_owned())),
            "BUCK",
            &names(generated),
            &mut Vec::new(),
        )
    };
    assert_eq!(merge(None, false, &[]).expect("absent"), "");
    assert_eq!(merge(Some(&file), true, &["a"]).expect("no merge"), "");
    assert_eq!(
        merge(Some(&file), false, &["b"]).expect("section"),
        "f(name = \"a\")"
    );
    assert!(merge(Some(&file), false, &["a"]).is_err());
    assert_eq!(
        merge(Some("legacy("), false, &[])
            .expect_err("unparsed")
            .messages()
            .clone(),
        vec!["Failed to parse BUCK", "unexpected end"]
    );
    let statements = vec![call("g(name = \"b\")", "g", "b")];
    assert_eq!(
        merge_rules(
            Some("g(name = \"b\")"),
            false,
            MARKER,
            Ok(statements),
            "BUCK",
            &vec![],
            &mut notices,
        )
        .expect("bootstrap"),
        "g(name = \"b\")\n"
    );
    assert_eq!(notices.len(), 1);
}

/// Runs twice on `existing` and hands over both files and the notices of the
/// second run.
fn run_twice(existing: &str, statements: Vec<BuckStatement>) -> (String, String, usize) {
    let generated = names(&["lib"]);
    let manual = merge_rules(
        Some(existing),
        false,
        MARKER,
        Ok(statements),
        "BUCK",
        &generated,
        &mut Vec::new(),
    )
    .expect("first run");
    let first = append_manual_section("lib()\n", &manual, MARKER);
    let mut notices = Vec::new();
    let manual = merge_rules(
        Some(&first),
        false,
        MARKER,
        Err(Error::new("not asked".to_owned())),
        "BUCK",
        &generated,
        &mut notices,
    )
    .expect("second run");
    let second = append_manual_section("lib()\n", &manual, MARKER);
    (first, second, notices.len())
}

#[test]
fn a_second_run_changes_nothing() {
    let marked = format!("old()\n{MARKER}\n\n\n  # note\nf(name = \"a\")\n\n");
    let (first, second, notices) = run_twice(&marked, vec![]);
    assert_eq!(first, format!("lib()\n\n{MARKER}\n\n# note\nf(name = \"a\")\n"));
    assert_eq!(first, second);
    assert_eq!(notices, 0);

    let statements = vec![
        call("g(name = \"b\")  \n", "g", "b"),
        call("h(name = \"lib\")", "h", "lib"),
        call("g(name = \"c\")", "g", "c"),
    ];
    let (first, second, notices) = run_twice("legacy", statements);
    assert_eq!(
        first,
        format!("lib()\n\n{MARKER}\n\ng(name = \"b\")\n\ng(name = \"c\")\n")
    );
    assert_eq!(first, second);
    assert_eq!(notices, 0);
}

#[test]
fn a_second_fallback_changes_nothing() {
    let owned = format!("gen\n{MARKER}\n\n  mine \n");
    for existing in ["", owned.as_str()] {
        let section = |content: &str| match workspace_file(content, MARKER) {
            WorkspaceFile::Owned { manual, .. } => manual,
            WorkspaceFile::Fresh => String::new(),
            WorkspaceFile::Legacy => panic!("not in this form"),
        };
        let first = append_manual_section("export()", &section(existing), MARKER);
        let second = append_manual_section("export()", &section(&first), MARKER);
        assert_eq!(first, second);
    }
    let first = splice_workspace_export("ä()\n\n", "export()\n", &vec![]);
    let statements = vec![BuckStatement {
        start: "ä()\n\n".len(),
        end: "ä()\n\nexport()".len(),
        ..call("export()", "export_file", "workspace")
    }];
    assert_eq!(
        splice_workspace_export(&first, "export()\n", &statements),
        first
    );
}

fn rule(kind: RuleKind, name: Option<&str>, text: &str) -> Rule {
    Rule {
        kind,
        name: name.map(|n| n.to_owned()),
        text: text.to_owned(),
    }
}

#[test]
fn the_workspace_export_is_put_in_once() {
    let mut rules = vec![
        rule(RuleKind::Load, None, "load"),
        rule(RuleKind::Other, Some("workspace"), "other"),
        rule(RuleKind::ExportFile, Some("workspace"), "stale"),
    ];
    upsert_workspace_export(
        &mut rules,
        rule(RuleKind::ExportFile, Some("workspace"), "new"),
    );
    assert_eq!(rules.len(), 3);
    assert_eq!(rules[2].text, "new");
    let mut rules = without_loads(rules);
    assert_eq!(rules.len(), 2);
    assert_eq!(rules[0].text, "other");
    rules.remove(1);
    upsert_workspace_export(
        &mut rules,
        rule(RuleKind::ExportFile, Some("workspace"), "new"),
    );
    assert_eq!(rules.len(), 2);
}

#[test]
fn splicing_leaves_every_other_byte_alone() {
    let before = "# größe\n";
    let stale = "export_file(\n    name = \"workspace\",\n    src = \"stale.toml\",\n)";
    let after = "\n\nglob([\"tests/**/*.rs\"])\n";
    let content = format!("{before}{stale}{after}");
    let statements = vec![BuckStatement {
        start: before.len(),
        end: before.len() + stale.len(),
        ..call(stale, "export_file", "workspace")
    }];
    assert_eq!(
        splice_workspace_export(&content, "export()\n", &statements),
        format!("{before}export(){after}")
    );
    assert_eq!(
        splice_workspace_export("f()\n\n", "export()\n", &vec![call("f()", "f", "x")]),
        "f()\n\nexport()\n"
    );
}

#[test]
fn workspace_files_are_told_apart() {
    let owned = format!("gen\n{MARKER}\n\n  mine \n");
    assert!(
        matches!(workspace_file(&owned, MARKER), WorkspaceFile::Owned { generated, manual }
        if generated == "gen\n" && manual == "mine")
    );
    assert!(matches!(
        workspace_file(" \n", MARKER),
        WorkspaceFile::Fresh
    ));
    assert!(matches!(
        workspace_file("f()", MARKER),
        WorkspaceFile::Legacy
    ));
}

fn node(kind: NodeKind, manifest: &str) -> BuckalNode {
    BuckalNode {
        package_id: PackageId {
            repr: "path+file:///work#root@0.1.0".to_owned(),
        },
        name: "root".to_owned(),
        version: "0.1.0".to_owned(),
        kind,
        manifest_path: manifest.to_owned(),
        targets: vec![],
        vendor_path: None,
    }
}

fn local() -> NodeKind {
    NodeKind::FirstParty {
        relative_path: String::new(),
    }
}

#[test]
fn updates_are_planned() {
    let root = node(local(), "/work/Cargo.toml");
    let plan = plan_update(ChangeType::Added, &root, "/work", true, false);
    assert_eq!(plan.verb, "Adding");
    assert_eq!(plan.title, "root v0.1.0");
    assert!(!plan.third_party);
    assert!(plan.export_workspace);
    assert!(!plan_update(ChangeType::Added, &root, "/work", true, true).export_workspace);
    assert!(!plan_update(ChangeType::Added, &root, "/work", false, false).export_workspace);
    let member = node(NodeKind::ThirdParty, "/work/a/Cargo.toml");
    let plan = plan_update(ChangeType::Changed, &member, "/work", true, false);
    assert_eq!(plan.verb, "Flushing");
    assert!(plan.third_party);
    assert!(is_third_party(&member));
    assert!(!plan.export_workspace);
    let top = node(local(), "/Cargo.toml");
    assert!(plan_update(ChangeType::Added, &top, "/", true, false).export_workspace);
    assert!(plan_update(ChangeType::Added, &root, "/work//", true, false).export_workspace);
    assert!(plan_update_given(ChangeType::Added, &member, true, true, false).export_workspace);
    assert!(!plan_update_given(ChangeType::Added, &root, false, true, false).export_workspace);
}

fn removal(repr: &str) -> Removal {
    plan_removal(
        &PackageId {
            repr: repr.to_owned(),
        },
        false,
    )
}

#[test]
fn removals_are_planned() {
    let title = |repr: &str| match removal(repr) {
        Removal::Remove { title } => title,
        other => panic!("expected a removal, got {other:?}"),
    };
    assert_eq!(
        title("registry+https://github.com/rust-lang/crates.io-index#foo@0.1.0"),
        "foo v0.1.0"
    );
    assert_eq!(title("git+https://x/y?rev=1#a#b@1.0.0+meta@x#y"), "a#b v1.0.0");
    for bad in [
        "",
        "registry#foo@1",
        "+x#foo@1",
        "r+#foo@1",
        "r+x#@1",
        "r+x#foo@",
        "r+x#foo",
        "r+x#foo@1#2",
        "r+x#foo@1+",
        "r+x#foo@1+a\nb",
        "r#y+x#foo@1",
    ] {
        assert!(matches!(removal(bad), Removal::Malformed), "{bad:?}");
    }
    let path = PackageId {
        repr: "path+file:///work/a#0.1.0".to_owned(),
    };
    assert!(matches!(plan_removal(&path, true), Removal::Keep));
}

#[test]
fn build_scripts_of_vendored_packages_are_patched_too() {
    let provider = BuckalNode {
        name: "windows_x86_64_msvc".to_owned(),
        version: "0.52.6".to_owned(),
        vendor_path: Some("third-party/windows_x86_64_msvc/0.52.6".to_owned()),
        ..node(NodeKind::ThirdParty, "/v/Cargo.toml")
    };
    let vendored = BuckalNode {
        name: "sys".to_owned(),
        vendor_path: Some("third-party/sys/1.0.0".to_owned()),
        targets: vec![BuckalTarget {
            name: "build-script-build".to_owned(),
            kind: vec![TargetKind::CustomBuild],
            test: false,
        }],
        ..node(NodeKind::ThirdParty, "/v/Cargo.toml")
    };
    let deps = vec![BuckalDep {
        name: "cc".to_owned(),
        dep_kinds: vec![BuckalDepKind {
            kind: DependencyKind::Build,
            target: None,
        }],
    }];
    let content = "rust_binary(\n    name = \"build-script-build\",\n    rustc_flags = [],\n)\n";
    let patched = patch_windows_flags(content.to_owned(), &vec![provider], &deps, &vendored)
        .expect("vendored");
    assert!(patched.contains("windows_x86_64_msvc/0.52.6:build-script-run[rustc_flags]"));
}

#[test]
fn changes_are_planned_in_order_and_export_the_workspace_once() {
    let mut changes: StringMap<ChangeType> = StringMap::new();
    changes.insert("registry+x#gone@1.0.0".to_owned(), ChangeType::Removed);
    changes.insert("path+file:///work/old#0.1.0".to_owned(), ChangeType::Removed);
    changes.insert("b".to_owned(), ChangeType::Changed);
    changes.insert("a".to_owned(), ChangeType::Added);
    changes.insert("c".to_owned(), ChangeType::Added);
    let change = BuckalChange { changes };
    let at = |id: &str| BuckalNode {
        package_id: PackageId {
            repr: id.to_owned(),
        },
        ..node(local(), "/work/Cargo.toml")
    };
    let nodes = vec![at("b"), at("a")];
    let mut paths = StringSet::new();
    paths.insert("path+file:///work/old#0.1.0".to_owned());
    let plan = change.plan(&nodes, &paths, "/work", true);
    assert_eq!(plan.steps.len(), 5);
    assert!(matches!(&plan.steps[0], ChangeAction::Update { node: 1, plan }
        if plan.verb == "Adding" && plan.export_workspace));
    assert!(matches!(&plan.steps[1], ChangeAction::Update { node: 0, plan }
        if plan.verb == "Flushing" && !plan.export_workspace));
    assert!(matches!(&plan.steps[2], ChangeAction::Ignore));
    assert!(matches!(
        &plan.steps[3],
        ChangeAction::Gone(Removal::Keep)
    ));
    assert!(matches!(
        &plan.steps[4],
        ChangeAction::Gone(Removal::Remove { title }) if title == "gone v1.0.0"
    ));
    assert!(!plan.fallback);
    let plan = change.plan_given(&nodes, &paths, &vec![true, false], true);
    assert!(matches!(&plan.steps[0], ChangeAction::Update { node: 1, plan }
        if !plan.export_workspace));
    assert!(matches!(&plan.steps[1], ChangeAction::Update { node: 0, plan }
        if plan.export_workspace));
    assert!(!plan.fallback);
    assert!(
        change
            .plan_given(&nodes, &paths, &vec![false, false], true)
            .fallback
    );
    let nothing = BuckalChange {
        changes: StringMap::new(),
    };
    assert!(nothing.plan(&nodes, &paths, "/work", true).fallback);
    assert!(!nothing.plan(&nodes, &paths, "/work", false).fallback);
}
