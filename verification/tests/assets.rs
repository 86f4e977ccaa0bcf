use cargo_buckal::assets::{
    installed_name, normalize_line_endings, platform_blocks, upgrade_platforms,
};

const LEGACY_PLATFORMS_BUCK: &str = r#"# @generated by `cargo buckal`

platform(
    name = "aarch64-apple-darwin",
    constraint_values = [
        "prelude//os/constraints:macos",
        "prelude//cpu/constraints:arm64",
    ],
    visibility = ["PUBLIC"],
)

platform(
    name = "x86_64-pc-windows-msvc",
    constraint_values = [
        "prelude//os/constraints:windows",
        "prelude//cpu/constraints:x86_64",
        "prelude//abi/constraints:msvc",
    ],
    visibility = ["PUBLIC"],
)

platform(
    name = "x86_64-unknown-linux-gnu",
    constraint_values = [
        "prelude//os/constraints:linux",
        "prelude//cpu/constraints:x86_64",
        "prelude//abi/constraints:gnu",
    ],
    visibility = ["PUBLIC"],
)

platform(
    name = "aarch64-unknown-linux-gnu",
    constraint_values = [
        "prelude//os/constraints:linux",
        "prelude//cpu/constraints:arm64",
        "prelude//abi/constraints:gnu",
    ],
    visibility = ["PUBLIC"],
)

# Hand-written below this line.
config_setting(
    name = "linux-arm64",
    constraint_values = [
        "prelude//os/constraints:linux",
        "prelude//cpu/constraints:arm64",
    ],
    visibility = ["PUBLIC"],
)
"#;

const TRIPLES: [&str; 6] = [
    "aarch64-apple-darwin",
    "x86_64-apple-darwin",
    "x86_64-pc-windows-msvc",
    "aarch64-pc-windows-msvc",
    "x86_64-unknown-linux-gnu",
    "aarch64-unknown-linux-gnu",
];

fn template() -> String {
    let mut out = String::from("# @generated by `cargo buckal`\n");
    for triple in TRIPLES {
        out.push_str(&format!(
            "\nplatform(\n    name = \"{triple}\",\n    visibility = [\"PUBLIC\"],\n)\n"
        ));
    }
    out
}

fn names(contents: &str) -> Vec<String> {
    platform_blocks(contents)
        .into_iter()
        .map(|(name, _)| name)
        .collect()
}

#[test]
fn platform_blocks_reads_names_and_ignores_other_rules() {
    assert_eq!(
        names(LEGACY_PLATFORMS_BUCK),
        vec![
            "aarch64-apple-darwin",
            "x86_64-pc-windows-msvc",
            "x86_64-unknown-linux-gnu",
            "aarch64-unknown-linux-gnu",
        ]
    );
}

#[test]
fn upgrade_adds_only_the_missing_platforms() {
    let (added, updated) = upgrade_platforms(LEGACY_PLATFORMS_BUCK, &template());

    assert_eq!(
        added,
        vec!["x86_64-apple-darwin", "aarch64-pc-windows-msvc"]
    );
    let names = names(&updated);
    for triple in TRIPLES {
        assert!(names.contains(&triple.to_string()), "missing {triple}");
    }
}

#[test]
fn upgrade_preserves_existing_content() {
    let (_, updated) = upgrade_platforms(LEGACY_PLATFORMS_BUCK, &template());

    assert!(updated.starts_with(LEGACY_PLATFORMS_BUCK));
    assert!(updated.contains("# Hand-written below this line."));
    assert!(updated.contains("config_setting("));
}

#[test]
fn upgrade_is_idempotent() {
    let (_, after_first) = upgrade_platforms(LEGACY_PLATFORMS_BUCK, &template());

    let (added, after_second) = upgrade_platforms(&after_first, &template());

    assert!(added.is_empty(), "second run should add nothing");
    assert_eq!(after_first, after_second);
}

#[test]
fn an_open_target_at_the_end_of_the_template_is_added_once() {
    let template = "platform(\n    name = \"a\",\n)\nplatform(\n    name = \"b\",\r";
    let (added, first) = upgrade_platforms("x = 1\n", template);
    assert_eq!(added, vec!["a", "b"]);
    let (added, second) = upgrade_platforms(&first, template);
    assert!(added.is_empty());
    assert_eq!(first, second);
}

#[test]
fn upgrade_is_a_noop_on_the_template_itself() {
    let (added, updated) = upgrade_platforms(&template(), &template());
    assert!(added.is_empty());
    assert_eq!(updated, template());
}

#[test]
fn upgrade_ends_the_last_line_first() {
    let template = "platform(\n    name = \"a\",\n)\n";
    let (added, updated) = upgrade_platforms("x = 1", template);
    assert_eq!(added, vec!["a"]);
    assert_eq!(updated, "x = 1\n\nplatform(\n    name = \"a\",\n)\n");
}

#[test]
fn a_block_has_its_text_and_its_last_name() {
    let blocks = platform_blocks(
        "platform(\n  name = \"a\",\n  name = \"b\",\n)\nplatform(\n)\nplatform( # open\n    name = \"c\",\n",
    );
    assert_eq!(
        blocks,
        vec![
            (
                "b".to_owned(),
                "platform(\n  name = \"a\",\n  name = \"b\",\n)\n".to_owned()
            ),
            (
                "c".to_owned(),
                "platform( # open\n    name = \"c\",\n".to_owned()
            ),
        ]
    );
}

#[test]
fn line_endings_become_line_feeds() {
    assert_eq!(normalize_line_endings(b"a\r\nb\rc\n\r\r\n"), b"a\nb\rc\n\r\n");
    assert_eq!(normalize_line_endings(b""), b"");
    assert_eq!(normalize_line_endings(b"\r"), b"\r");
}

#[test]
fn templates_lose_their_suffix() {
    assert_eq!(installed_name("BUCK.template"), "BUCK");
    assert_eq!(installed_name("verify_deps.bxl"), "verify_deps.bxl");
}
