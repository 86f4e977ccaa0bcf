use cargo_buckal::commands::cli::{parse_command, Subcommand};
use cargo_buckal::commands::clippy::{check_clippy, plan_clippy, ClippyArgs};
use cargo_buckal::commands::plan::{
    check_verbosity, choose_platform, relative_directory, relative_directory_given, Buck2Verb,
    FilteredTarget,
};
use cargo_buckal::commands::run::{
    plan_run, resolve_run_target, select_binary, BuckTargetEntry, RunArgs,
};
use cargo_buckal::commands::test::{plan_test, wants_all_tests, TestArgs};
use cargo_buckal::resolve::TargetKind;

fn parse(argv: &[&str]) -> Option<Subcommand> {
    parse_command(&argv.iter().map(|a| (*a).to_owned()).collect())
}

fn clippy(argv: &[&str]) -> ClippyArgs {
    match parse(argv) {
        Some(Subcommand::Clippy(args)) => args,
        other => panic!("expected clippy subcommand, got {other:?}"),
    }
}

fn run(argv: &[&str]) -> RunArgs {
    match parse(argv) {
        Some(Subcommand::Run(args)) => args,
        other => panic!("expected run subcommand, got {other:?}"),
    }
}

fn test_args(argv: &[&str]) -> TestArgs {
    match parse(argv) {
        Some(Subcommand::Test(args)) => args,
        other => panic!("expected test subcommand, got {other:?}"),
    }
}

#[test]
fn cli_clippy_default() {
    let clippy_args = clippy(&["cargo", "buckal", "clippy"]);
    assert!(!clippy_args.lib);
    assert!(!clippy_args.bins);
    assert!(clippy_args.bin.is_empty());
    assert!(!clippy_args.all_targets);
    assert!(clippy_args.target.is_none());
    assert!(clippy_args.args.is_empty());
    assert_eq!(clippy_args.verbose, 0);
}

#[test]
fn cli_clippy_accepts_target() {
    let clippy_args = clippy(&[
        "cargo",
        "buckal",
        "clippy",
        "--target",
        "x86_64-unknown-linux-gnu",
    ]);
    assert_eq!(
        clippy_args.target.as_deref(),
        Some("x86_64-unknown-linux-gnu")
    );
}

#[test]
fn cli_clippy_rejects_target_and_target_platforms() {
    let result = parse(&[
        "cargo",
        "buckal",
        "clippy",
        "--target",
        "x86_64-unknown-linux-gnu",
        "--target-platforms",
        "//platforms:x86_64-unknown-linux-gnu",
    ]);
    assert!(result.is_none());
}

#[test]
fn cli_clippy_passthrough_args() {
    let clippy_args = clippy(&["cargo", "buckal", "clippy", "--", "-W", "clippy::pedantic"]);
    assert_eq!(clippy_args.args, vec!["-W", "clippy::pedantic"]);
}

#[test]
fn cli_clippy_with_all_targets() {
    let clippy_args = clippy(&["cargo", "buckal", "clippy", "--all-targets"]);
    assert!(clippy_args.all_targets);
}

#[test]
fn cli_clippy_accepts_package_and_workspace() {
    let clippy_args = clippy(&["cargo", "buckal", "clippy", "-p", "mm_ai", "--workspace"]);
    assert_eq!(clippy_args.package, vec!["mm_ai"]);
    assert!(clippy_args.workspace);
}

#[test]
fn cli_run_default() {
    let run_args = run(&["cargo", "buckal", "run"]);
    assert!(run_args.bin.is_none());
    assert!(run_args.example.is_none());
    assert!(!run_args.release);
    assert!(run_args.target.is_none());
    assert!(run_args.args.is_empty());
}

#[test]
fn cli_run_with_bin() {
    let run_args = run(&["cargo", "buckal", "run", "--bin", "myapp"]);
    assert_eq!(run_args.bin.as_deref(), Some("myapp"));
}

#[test]
fn cli_run_with_package() {
    let run_args = run(&["cargo", "buckal", "run", "-p", "mm_cli"]);
    assert_eq!(run_args.package.as_deref(), Some("mm_cli"));
}

#[test]
fn cli_run_with_example() {
    let run_args = run(&["cargo", "buckal", "run", "--example", "demo"]);
    assert_eq!(run_args.example.as_deref(), Some("demo"));
}

#[test]
fn cli_run_with_release_and_target() {
    let run_args = run(&[
        "cargo",
        "buckal",
        "run",
        "--release",
        "--target",
        "x86_64-unknown-linux-gnu",
    ]);
    assert!(run_args.release);
    assert_eq!(run_args.target.as_deref(), Some("x86_64-unknown-linux-gnu"));
    assert!(run_args.target_platforms.is_none());
}

#[test]
fn cli_run_rejects_target_and_target_platforms() {
    let result = parse(&[
        "cargo",
        "buckal",
        "run",
        "--target",
        "x86_64-unknown-linux-gnu",
        "--target-platforms",
        "//platforms:x86_64-unknown-linux-gnu",
    ]);
    assert!(result.is_none());
}

#[test]
fn cli_run_passthrough_args() {
    let run_args = run(&["cargo", "buckal", "run", "--", "--flag", "value"]);
    assert_eq!(run_args.args, vec!["--flag", "value"]);
}

#[test]
fn cli_test_accepts_package() {
    let args = test_args(&["cargo", "buckal", "test", "-p", "mm_e2e"]);
    assert_eq!(args.package, vec!["mm_e2e"]);
    assert!(!args.workspace);

    let args = test_args(&["cargo", "buckal", "test", "--package", "mm_e2e"]);
    assert_eq!(args.package, vec!["mm_e2e"]);
}

#[test]
fn cli_test_accepts_workspace_and_exclude() {
    let args = test_args(&[
        "cargo",
        "buckal",
        "test",
        "--workspace",
        "--exclude",
        "mm_e2e",
    ]);
    assert!(args.workspace);
    assert_eq!(args.exclude, vec!["mm_e2e"]);
}

#[test]
fn cli_test_buck2_arg_with_testname_and_executor_passthrough() {
    let args = test_args(&[
        "cargo",
        "buckal",
        "test",
        "--buck2-arg=--show-json-output",
        "my_filter",
        "--",
        "--nocapture",
    ]);
    assert_eq!(args.buck2_arg, vec!["--show-json-output"]);
    assert_eq!(args.test_name.as_deref(), Some("my_filter"));
    assert_eq!(args.args, vec!["--nocapture"]);
}

#[test]
fn cli_test_workspace_with_passthrough_and_filter() {
    let args = test_args(&[
        "cargo",
        "buckal",
        "test",
        "--workspace",
        "my_filter",
        "--",
        "--nocapture",
    ]);
    assert!(args.workspace);
    assert_eq!(args.test_name.as_deref(), Some("my_filter"));
    assert_eq!(args.args, vec!["--nocapture"]);
}

#[test]
fn flags_and_counts_are_read() {
    let args = clippy(&[
        "cargo", "buckal", "clippy", "-vv", "--lib", "--bin", "a", "--bin", "b", "--tests",
    ]);
    assert_eq!(args.verbose, 2);
    assert!(args.lib);
    assert_eq!(args.bin, vec!["a", "b"]);
    assert!(args.tests);
    let args = test_args(&["cargo", "buckal", "test", "-j", "8", "-r", "--buck2-arg", "-c"]);
    assert_eq!(args.num_threads, Some(8));
    assert!(args.release);
    assert_eq!(args.buck2_arg, vec!["-c"]);
}

#[test]
fn what_is_not_an_argument_is_refused() {
    assert!(parse(&["cargo", "buckal", "clippy", "--nope"]).is_none());
    assert!(parse(&["cargo", "buckal", "test", "-j", "many"]).is_none());
    assert!(parse(&["cargo", "buckal", "nope"]).is_none());
    assert!(parse(&["cargo", "buckal"]).is_none());
    assert!(parse(&["cargo", "other", "run"]).is_none());
}

#[test]
fn clippy_refuses_what_it_cannot_do() {
    let mut args = clippy(&["cargo", "buckal", "clippy", "--", "-W", "x"]);
    let err = check_clippy(&args).expect_err("lint flags");
    assert_eq!(
        err.error,
        "`cargo buckal clippy -- -W x` is not supported: Buck2 has no way to apply extra lint flags to a target at the command line"
    );
    assert!(err.note.is_some());
    args.args.clear();
    assert!(check_clippy(&args).is_ok());
    args.verbose = 3;
    assert_eq!(
        check_clippy(&args).expect_err("verbosity").error,
        "maximum verbosity"
    );
    assert!(check_verbosity(2).is_ok());
}

fn filtered(name: &str, selected: bool) -> FilteredTarget {
    FilteredTarget {
        name: name.to_owned(),
        label: format!("//pkg:{name}"),
        selected,
    }
}

#[test]
fn clippy_builds_the_diagnostics_of_its_targets() {
    let args = clippy(&["cargo", "buckal", "clippy", "-v"]);
    let targets = vec![
        filtered("a", true),
        filtered("b", false),
        filtered("c", true),
    ];
    let plan = plan_clippy(&args, Some("//platforms:host"), &targets).expect("plan");
    assert_eq!(plan.verb, Buck2Verb::Build);
    assert_eq!(plan.verbosity, 1);
    assert_eq!(
        plan.args,
        vec![
            "--target-platforms",
            "//platforms:host",
            "--show-full-json-output",
            "//pkg:a[clippy.json]",
            "//pkg:c[clippy.json]"
        ]
    );
    let err = plan_clippy(&args, None, &vec![filtered("b", false)]).expect_err("nothing");
    assert_eq!(err.error, "all targets filtered out, nothing to lint");
}

#[test]
fn test_puts_the_users_own_flags_last() {
    let args = test_args(&[
        "cargo",
        "buckal",
        "test",
        "-j",
        "4",
        "--release",
        "--no-fail-fast",
        "--buck2-arg",
        "--x",
        "uni",
        "--",
        "--nocapture",
    ]);
    let targets = vec![
        filtered("unittest", true),
        filtered("it", true),
        filtered("uni2", false),
    ];
    let plan = plan_test(&args, Some("//p:p"), &targets).expect("plan");
    assert_eq!(plan.verb, Buck2Verb::Test);
    assert_eq!(
        plan.args,
        vec![
            "-j",
            "4",
            "--target-platforms",
            "//p:p",
            "-m",
            "release",
            "--keep-going",
            "--x",
            "//pkg:unittest",
            "--",
            "--nocapture"
        ]
    );
    assert!(wants_all_tests(&args.test_name, false));
    assert!(!wants_all_tests(&args.test_name, true));

    let build = test_args(&["cargo", "buckal", "test", "--no-run", "--", "--nocapture"]);
    let plan = plan_test(&build, None, &targets).expect("plan");
    assert_eq!(plan.verb, Buck2Verb::Build);
    assert_eq!(plan.args, vec!["//pkg:unittest", "//pkg:it"]);
    assert_eq!(
        plan_test(&build, None, &vec![]).expect_err("nothing").error,
        "all targets filtered out, nothing to test"
    );
}

fn entry(name: &str, kind: TargetKind) -> BuckTargetEntry {
    BuckTargetEntry {
        name: name.to_owned(),
        label: format!("//pkg:{name}"),
        kind,
    }
}

#[test]
fn run_selects_one_binary() {
    let a = entry("a", TargetKind::Bin);
    let b = entry("b", TargetKind::Bin);
    assert_eq!(select_binary(&[&a], None).expect("only one"), "//pkg:a");
    assert_eq!(
        select_binary(&[&a, &b], Some("b")).expect("named"),
        "//pkg:b"
    );
    assert_eq!(
        select_binary(&[&a, &b], None).expect_err("two").error,
        "multiple binary targets found; specify one with `--bin <NAME>`:\n    a\n    b"
    );
    assert_eq!(
        select_binary(&[], None).expect_err("none").error,
        "no binary targets found in the current package"
    );
    assert_eq!(
        select_binary(&[&a], Some("x")).expect_err("unknown").error,
        "no bin target named `x` in the current package"
    );
}

#[test]
fn run_resolves_examples_and_binaries() {
    let available = vec![entry("lib", TargetKind::Lib), entry("tool", TargetKind::Bin)];
    let args = run(&["cargo", "buckal", "run", "--example", "demo"]);
    assert_eq!(
        resolve_run_target(&args, "src/x", &available).expect("example"),
        "//src/x:demo"
    );
    let args = run(&["cargo", "buckal", "run", "--release", "--", "go"]);
    let target = resolve_run_target(&args, "pkg", &available).expect("binary");
    assert_eq!(target, "//pkg:tool");
    let plan = plan_run(&args, &target, Some("//p:p"));
    assert_eq!(plan.verb, Buck2Verb::Run);
    assert_eq!(
        plan.args,
        vec![
            "//pkg:tool",
            "-m",
            "release",
            "--target-platforms",
            "//p:p",
            "--",
            "go"
        ]
    );
}

#[test]
fn platforms_are_chosen_in_turn() {
    assert_eq!(
        choose_platform(Some(Ok("//p:t".to_owned())), None, "host", true).expect("triple"),
        Some("//p:t".to_owned())
    );
    assert_eq!(
        choose_platform(Some(Err("bad".to_owned())), None, "host", true)
            .expect_err("invalid")
            .error,
        "bad"
    );
    assert_eq!(
        choose_platform(None, Some("//p:n"), "host", true).expect("named"),
        Some("//p:n".to_owned())
    );
    assert_eq!(
        choose_platform(None, None, "host", true).expect("host"),
        Some("//platforms:host".to_owned())
    );
    assert_eq!(choose_platform(None, None, "host", false).expect("none"), None);
}

#[test]
fn commands_run_inside_the_project() {
    assert_eq!(
        relative_directory("/work/a/b", "/work", "run").expect("inside"),
        "a/b"
    );
    assert_eq!(
        relative_directory("/", "/work", "run")
            .expect_err("outside")
            .messages()
            .clone(),
        vec!["run command should invoke inside a Buck2 project"]
    );
    assert_eq!(relative_directory("/work/a", "/", "run").expect("inside"), "work/a");
    assert_eq!(relative_directory("/", "/", "run").expect("inside"), "");
    assert_eq!(relative_directory("/work/a", "/work//", "run").expect("inside"), "a");
    assert_eq!(
        relative_directory_given(Some("a\\b".to_owned()), "run").expect("inside"),
        "a/b"
    );
    assert_eq!(
        relative_directory_given(None, "test")
            .expect_err("outside")
            .messages()
            .clone(),
        vec!["test command should invoke inside a Buck2 project"]
    );
}
