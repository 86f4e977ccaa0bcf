use cargo_buckal::error::Notice;
use cargo_buckal::features::{
    cargo_tree_args, parse_tree, pinned_to_union, platform_features, GraphNode, PlatformFeatures,
    TreeOutput,
};
use cargo_buckal::sorted::StringMap;

fn parse(text: &str) -> PlatformFeatures {
    let mut out = PlatformFeatures::new();
    parse_tree(text, &mut out);
    out
}

fn features(set: &PlatformFeatures, name: &str, version: &str) -> Vec<String> {
    set.get(name, version).expect("package").items().clone()
}

#[test]
fn strips_the_repeat_marker() {
    let out = parse("serde v1.0.0|default,derive\nserde v1.0.0|default,derive (*)\n");
    assert_eq!(features(&out, "serde", "1.0.0"), vec!["default", "derive"]);
}

#[test]
fn ignores_a_source_suffix() {
    let out = parse("gamma v0.1.0 (/home/x/src/gamma)|default,http\n");
    assert_eq!(features(&out, "gamma", "0.1.0"), vec!["default", "http"]);
}

#[test]
fn unions_repeated_packages() {
    let out = parse("getrandom v0.4.2|std\ngetrandom v0.4.2|sys_rng\n");
    assert_eq!(features(&out, "getrandom", "0.4.2"), vec!["std", "sys_rng"]);
}

#[test]
fn handles_an_empty_feature_list() {
    let out = parse("quinn-udp v0.5.14|\n");
    assert!(out.get("quinn-udp", "0.5.14").expect("package").is_empty());
}

#[test]
fn ignores_lines_that_are_not_packages() {
    let out = parse("some warning text\n\nserde v1.0.0|default\n");
    assert_eq!(out.len(), 1);
}

#[test]
fn lines_without_a_name_or_a_version_are_ignored() {
    let out = parse(" v1.0.0|a\nserde v|a\nserde|a\nx vy v1|b,,c\r\n");
    assert_eq!(out.len(), 1);
    assert_eq!(features(&out, "x vy", "1"), vec!["b", "c"]);
}

fn output(triple: &str, stdout: Option<&str>) -> TreeOutput {
    TreeOutput {
        triple: triple.to_owned(),
        stdout: stdout.map(|s| s.to_owned()),
    }
}

#[test]
fn the_answers_of_all_targets_are_put_together() {
    let mut notices = Vec::new();
    let out = platform_features(
        false,
        &vec![
            output("linux", Some("serde v1.0.0|std\n")),
            output("windows", Some("serde v1.0.0|alloc\nwinapi v0.3.9|\n")),
        ],
        &mut notices,
    );
    assert_eq!(features(&out, "serde", "1.0.0"), vec!["alloc", "std"]);
    assert_eq!(out.len(), 2);
    assert!(notices.is_empty());
}

#[test]
fn a_missing_answer_disables_narrowing() {
    let mut notices = Vec::new();
    let out = platform_features(
        false,
        &vec![
            output("linux", Some("serde v1.0.0|std\n")),
            output("windows", None),
        ],
        &mut notices,
    );
    assert_eq!(out.len(), 0);
    assert!(matches!(&notices[0], Notice::Warning(w)
        if w == "feature narrowing disabled: no resolve for windows; falling back to cargo's all-platform feature union"));
}

#[test]
fn narrowing_can_be_switched_off() {
    let mut notices = Vec::new();
    let out = platform_features(
        true,
        &vec![
            output("linux", Some("serde v1.0.0|std\n")),
            output("windows", None),
        ],
        &mut notices,
    );
    assert_eq!(out.len(), 0);
    assert!(notices.is_empty());
}

#[test]
fn cargo_tree_is_asked_for_one_target() {
    assert_eq!(
        cargo_tree_args("x86_64-unknown-linux-gnu", None),
        vec![
            "tree",
            "--target",
            "x86_64-unknown-linux-gnu",
            "--edges",
            "all",
            "--prefix",
            "none",
            "--format",
            "{p}|{f}",
            "--workspace"
        ]
    );
    let args = cargo_tree_args("t", Some("/w/Cargo.toml"));
    assert_eq!(args[10..], ["--manifest-path", "/w/Cargo.toml"]);
}

fn node(name: Option<&str>, deps: &[&str]) -> GraphNode {
    GraphNode {
        name_version: name.map(|n| (n.to_owned(), "1.0.0".to_owned())),
        deps: deps.iter().map(|d| (*d).to_owned()).collect(),
    }
}

#[test]
fn what_an_unresolved_package_leads_to_is_pinned() {
    let resolved = parse("root v1.0.0|\njwt v1.0.0|\ncurve v1.0.0|\n");
    let mut nodes: StringMap<GraphNode> = StringMap::new();
    nodes.insert("root".to_owned(), node(Some("root"), &["jwt"]));
    nodes.insert("jwt".to_owned(), node(Some("jwt"), &["p384", "curve"]));
    nodes.insert("p384".to_owned(), node(Some("p384"), &["curve"]));
    nodes.insert("curve".to_owned(), node(Some("curve"), &["deep"]));
    nodes.insert("deep".to_owned(), node(Some("deep"), &["curve"]));
    let pinned = pinned_to_union(&nodes, &resolved);
    assert_eq!(pinned.items().clone(), vec!["curve", "deep"]);
}

#[test]
fn a_package_that_is_not_known_counts_as_unresolved() {
    let resolved = parse("a v1.0.0|\n");
    let mut nodes: StringMap<GraphNode> = StringMap::new();
    nodes.insert("x".to_owned(), node(None, &["a", "gone"]));
    nodes.insert("a".to_owned(), node(Some("a"), &[]));
    let pinned = pinned_to_union(&nodes, &resolved);
    assert_eq!(pinned.items().clone(), vec!["a", "gone"]);
}
