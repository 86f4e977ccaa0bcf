use cargo_buckal::error::Error;
use cargo_buckal::paths::place_from;
use cargo_buckal::workspace::{
    buck_relative_path, members_from, needs_members, package_path_given, relative_path_given, resolve_member_path, resolve_scope, select_scope_paths,
    workspace_members, MetadataPackage, WorkspaceMember,
};

fn member(name: &str, path: &str) -> WorkspaceMember {
    WorkspaceMember {
        name: name.to_string(),
        buck_rel_path: path.to_string(),
    }
}

fn members() -> Vec<WorkspaceMember> {
    vec![
        member("mm_core", "src/core"),
        member("mm_ai", "src/ai"),
        member("mm_server", "src/server"),
    ]
}

#[test]
fn workspace_selects_all_members() {
    let paths = select_scope_paths(&members(), &[], true, &[]).expect("scope");
    assert_eq!(paths, vec!["src/ai", "src/core", "src/server"]);
}

#[test]
fn workspace_honors_exclude() {
    let paths = select_scope_paths(&members(), &[], true, &["mm_ai".to_string()]).expect("scope");
    assert_eq!(paths, vec!["src/core", "src/server"]);
}

#[test]
fn package_subset_preserves_request_but_dedups() {
    let paths = select_scope_paths(
        &members(),
        &["mm_server".to_string(), "mm_core".to_string()],
        false,
        &[],
    )
    .expect("scope");
    assert_eq!(paths, vec!["src/core", "src/server"]);
}

#[test]
fn unknown_package_is_an_error() {
    let err = select_scope_paths(&members(), &["nope".to_string()], false, &[])
        .expect_err("unknown package should fail");
    assert!(err.messages()[0].contains("not found in the Cargo workspace"));
}

#[test]
fn exclude_without_workspace_is_an_error() {
    let err = select_scope_paths(
        &members(),
        &["mm_core".to_string()],
        false,
        &["mm_ai".to_string()],
    )
    .expect_err("exclude without workspace should fail");
    assert!(err.messages()[0].contains("`--workspace`"));
}

#[test]
fn excluding_everything_is_an_error() {
    let names: Vec<String> = members().iter().map(|m| m.name.clone()).collect();
    let err = select_scope_paths(&members(), &[], true, &names)
        .expect_err("excluding all members should fail");
    assert!(err.messages()[0].contains("no packages left"));
}

#[test]
fn member_at_root_collapses_to_recursive_pattern() {
    let mut ms = members();
    ms.push(member("mm_workspace", ""));
    let paths = select_scope_paths(&ms, &[], true, &[]).expect("scope");
    assert_eq!(paths, vec![String::new()]);
}

#[test]
fn naming_a_package_twice_selects_it_once() {
    let twice = ["mm_ai".to_string(), "mm_ai".to_string()];
    let paths = select_scope_paths(&members(), &twice, false, &[]).expect("scope");
    assert_eq!(paths, vec!["src/ai"]);
}

#[test]
fn scope_falls_back_to_the_directory() {
    assert!(!needs_members(&[], false));
    assert!(needs_members(&["x".to_string()], false));
    assert_eq!(
        resolve_scope(&[], false, &[], "src/here", &[]).expect("scope"),
        vec!["src/here"]
    );
    let err = resolve_scope(&[], false, &["x".to_string()], "", &[]).expect_err("exclude");
    assert_eq!(
        err.messages().clone(),
        vec!["`--exclude` can only be used together with `--workspace`"]
    );
    assert_eq!(
        resolve_scope(&["mm_ai".to_string()], false, &[], "src/here", &members()).expect("scope"),
        vec!["src/ai"]
    );
}

#[test]
fn member_paths_are_found_by_name() {
    assert_eq!(
        resolve_member_path("mm_ai", &members()).expect("path"),
        "src/ai"
    );
    let err = resolve_member_path("nope", &members()).expect_err("unknown");
    assert_eq!(
        err.messages().clone(),
        vec!["package `nope` not found in the Cargo workspace"]
    );
}

fn package(name: &str, manifest: &str, is_member: bool) -> MetadataPackage {
    MetadataPackage {
        name: name.to_string(),
        manifest_path: manifest.to_string(),
        is_member,
    }
}

#[test]
fn members_are_located_below_the_root() {
    let found = workspace_members(
        "/work",
        &vec![
            package("root", "/work/Cargo.toml", true),
            package("dep", "/elsewhere/Cargo.toml", false),
            package("core", "/work/src/core/Cargo.toml", true),
        ],
    )
    .expect("members");
    assert_eq!(found.len(), 2);
    assert_eq!(found[0].buck_rel_path, "");
    assert_eq!(found[1].name, "core");
    assert_eq!(found[1].buck_rel_path, "src/core");

    let err = workspace_members("/work", &vec![package("far", "/far/Cargo.toml", true)])
        .expect_err("outside");
    assert_eq!(
        err.messages().clone(),
        vec!["package directory `/far` is outside the Buck2 project root `/work`"]
    );
    let err = workspace_members("/work", &vec![package("top", "/", true)]).expect_err("no parent");
    assert_eq!(
        err.messages().clone(),
        vec!["package `top` has no manifest directory"]
    );
    assert_eq!(buck_relative_path("/work", "/work/a/b").expect("path"), "a/b");
    assert!(buck_relative_path("/work", "/workshop").is_err());
    assert_eq!(buck_relative_path("/", "/work").expect("path"), "work");
    assert_eq!(buck_relative_path("/work/", "/work").expect("path"), "");
}

#[test]
fn members_follow_from_where_they_were_found() {
    assert_eq!(
        relative_path_given("C:/w", "C:/w/a", Some("a\\b".to_owned())).expect("path"),
        "a/b"
    );
    assert_eq!(
        relative_path_given("/work", "/far", None)
            .expect_err("outside")
            .messages()
            .clone(),
        vec!["package directory `/far` is outside the Buck2 project root `/work`"]
    );
    assert_eq!(
        package_path_given(place_from(None, None), "top", "/work")
            .expect_err("no parent")
            .messages()
            .clone(),
        vec!["package `top` has no manifest directory"]
    );
    let packages = vec![
        package("a", "x", true),
        package("b", "y", false),
        package("c", "z", true),
    ];
    let missing = || Err(Error::new("missing".to_owned()));
    let found = members_from(&packages, vec![Ok("p".to_owned()), missing(), Ok("q".to_owned())])
        .expect("members");
    assert_eq!(found.len(), 2);
    assert_eq!(found[0].buck_rel_path, "p");
    assert_eq!(found[1].name, "c");
    let founds = vec![Ok("p".to_owned()), Ok("o".to_owned()), missing()];
    assert!(members_from(&packages, founds).is_err());
}
