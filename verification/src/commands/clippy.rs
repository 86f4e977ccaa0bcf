//! `clippy`: lints packages.

use vstd::prelude::*;

use crate::commands::cli::{
    as_count, as_flag, as_text, as_texts, counted, either_form, long_form, parse_args, placed,
    ArgKind, ArgSpec, ArgValue,
};
use crate::commands::cli;
use crate::commands::plan::{
    check_verbosity, push_arg, push_platform, Buck2Plan, Buck2Verb, CommandError, FilteredTarget,
};
use crate::commands::plan;
use crate::text::join;
use crate::text;

verus! {

/// The arguments of `clippy`.
#[derive(Debug)]
pub struct ClippyArgs {
    /// How much to print.
    pub verbose: u8,
    /// The packages to lint.
    pub package: Vec<String>,
    /// Whether to lint every package of the workspace.
    pub workspace: bool,
    /// The packages not to lint.
    pub exclude: Vec<String>,
    pub lib: bool,
    pub bin: Vec<String>,
    pub bins: bool,
    pub test: Vec<String>,
    pub tests: bool,
    pub example: Vec<String>,
    pub examples: bool,
    pub bench: Vec<String>,
    pub benches: bool,
    pub all_targets: bool,
    /// The target triple to lint for.
    pub target: Option<String>,
    /// The platform to lint for.
    pub target_platforms: Option<String>,
    /// Lint flags.
    pub args: Vec<String>,
}

/// The table of the arguments of `clippy`.
pub open spec fn clippy_table() -> Seq<cli::ArgModel> {
    seq![
        cli::count_model("verbose"@, 'v'),
        cli::long_model("package"@, Some('p'), "package"@, ArgKind::Many),
        cli::long_model("workspace"@, None, "workspace"@, ArgKind::Flag),
        cli::long_model("exclude"@, None, "exclude"@, ArgKind::Many),
        cli::long_model("lib"@, None, "lib"@, ArgKind::Flag),
        cli::long_model("bin"@, None, "bin"@, ArgKind::Many),
        cli::long_model("bins"@, None, "bins"@, ArgKind::Flag),
        cli::long_model("test"@, None, "test"@, ArgKind::Many),
        cli::long_model("tests"@, None, "tests"@, ArgKind::Flag),
        cli::long_model("example"@, None, "example"@, ArgKind::Many),
        cli::long_model("examples"@, None, "examples"@, ArgKind::Flag),
        cli::long_model("bench"@, None, "bench"@, ArgKind::Many),
        cli::long_model("benches"@, None, "benches"@, ArgKind::Flag),
        cli::long_model("all_targets"@, None, "all-targets"@, ArgKind::Flag),
        cli::either_model("target"@, "target"@, "target_platforms"@),
        cli::either_model("target_platforms"@, "target-platforms"@, "target"@),
        cli::placed_model("args"@, ArgKind::Trailing),
    ]
}

/// The table of the arguments of `clippy`.
fn clippy_specs() -> (r: Vec<ArgSpec>)
    ensures
        cli::table_model(r@) == clippy_table(),
{
    let mut t: Vec<ArgSpec> = Vec::new();
    t.push(counted("verbose", 'v'));
    t.push(long_form("package", Some('p'), "package", ArgKind::Many));
    t.push(long_form("workspace", None, "workspace", ArgKind::Flag));
    t.push(long_form("exclude", None, "exclude", ArgKind::Many));
    t.push(long_form("lib", None, "lib", ArgKind::Flag));
    t.push(long_form("bin", None, "bin", ArgKind::Many));
    t.push(long_form("bins", None, "bins", ArgKind::Flag));
    t.push(long_form("test", None, "test", ArgKind::Many));
    t.push(long_form("tests", None, "tests", ArgKind::Flag));
    t.push(long_form("example", None, "example", ArgKind::Many));
    t.push(long_form("examples", None, "examples", ArgKind::Flag));
    t.push(long_form("bench", None, "bench", ArgKind::Many));
    t.push(long_form("benches", None, "benches", ArgKind::Flag));
    t.push(long_form("all_targets", None, "all-targets", ArgKind::Flag));
    t.push(either_form("target", "target", "target_platforms"));
    t.push(either_form("target_platforms", "target-platforms", "target"));
    t.push(placed("args", ArgKind::Trailing));
    proof {
        assert(cli::table_model(t@) =~= clippy_table());
    }
    t
}

/// Whether these are the arguments that the values of the table stand for.
pub open spec fn is_clippy_args(a: ClippyArgs, v: Seq<cli::ValueModel>) -> bool {
    &&& a.verbose == cli::count_of(v[0])
    &&& text::views(a.package@) == cli::texts_of(v[1])
    &&& a.workspace == cli::flag_of(v[2])
    &&& text::views(a.exclude@) == cli::texts_of(v[3])
    &&& a.lib == cli::flag_of(v[4])
    &&& text::views(a.bin@) == cli::texts_of(v[5])
    &&& a.bins == cli::flag_of(v[6])
    &&& text::views(a.test@) == cli::texts_of(v[7])
    &&& a.tests == cli::flag_of(v[8])
    &&& text::views(a.example@) == cli::texts_of(v[9])
    &&& a.examples == cli::flag_of(v[10])
    &&& text::views(a.bench@) == cli::texts_of(v[11])
    &&& a.benches == cli::flag_of(v[12])
    &&& a.all_targets == cli::flag_of(v[13])
    &&& text::view_opt(a.target) == cli::text_of(v[14])
    &&& text::view_opt(a.target_platforms) == cli::text_of(v[15])
    &&& text::views(a.args@) == cli::texts_of(v[16])
}

/// The arguments that the values of the table stand for.
pub fn clippy_args(v: &Vec<ArgValue>) -> (r: ClippyArgs)
    requires
        v@.len() == clippy_table().len(),
    ensures
        is_clippy_args(r, cli::value_models(v@)),
{
    proof {
        assert(forall|i: int| 0 <= i < v@.len() ==> cli::value_models(v@)[i] == (#[trigger] v@[i])@);
    }
    ClippyArgs {
        verbose: as_count(&v[0]),
        package: as_texts(&v[1]),
        workspace: as_flag(&v[2]),
        exclude: as_texts(&v[3]),
        lib: as_flag(&v[4]),
        bin: as_texts(&v[5]),
        bins: as_flag(&v[6]),
        test: as_texts(&v[7]),
        tests: as_flag(&v[8]),
        example: as_texts(&v[9]),
        examples: as_flag(&v[10]),
        bench: as_texts(&v[11]),
        benches: as_flag(&v[12]),
        all_targets: as_flag(&v[13]),
        target: as_text(&v[14]),
        target_platforms: as_text(&v[15]),
        args: as_texts(&v[16]),
    }
}

/// The arguments that `argv` gives `clippy`, if they are in order.
pub fn parse_clippy(argv: &Vec<String>) -> (r: Option<ClippyArgs>)
    ensures
        match cli::given(clippy_table(), text::views(argv@)) {
            Some(v) => r matches Some(a) && is_clippy_args(a, v),
            None => r is None,
        },
        r matches Some(a) ==> a.target is None || a.target_platforms is None,
{
    let table = clippy_specs();
    match parse_args(&table, argv) {
        Some(v) => {
            let a = clippy_args(&v);
            proof {
                let t = clippy_table();
                let m = cli::value_models(v@);
                assert(t[14].conflicts[0] == t[15].id);
                assert(t[14].conflicts.contains(t[15].id));
                assert(cli::is_absent(m[14]) || cli::is_absent(m[15]));
                assert(cli::value_fits(t[14].kind, m[14]));
                assert(cli::value_fits(t[15].kind, m[15]));
            }
            Some(a)
        },
        None => None,
    }
}

/// Why `clippy` does not start, if it does not. Buck2 cannot take lint flags at
/// the command line, and to drop them in silence would look as if it had.
pub open spec fn clippy_refusal(verbose: u8, args: Seq<Seq<char>>) -> Option<plan::FailureModel> {
    if verbose > 2 {
        Some(plan::FailureModel { error: "maximum verbosity"@, note: None })
    } else if args.len() > 0 {
        Some(
            plan::FailureModel {
                error: "`cargo buckal clippy -- "@ + text::joined(args, " "@)
                    + "` is not supported: Buck2 has no way to apply extra lint flags to a target at the command line"@,
                note: Some(
                    "set the lint levels in `Cargo.toml` (`[lints.clippy]`), or add `rustc_flags` to the Rust toolchain in `toolchains/BUCK`"@,
                ),
            },
        )
    } else {
        None
    }
}

/// Fails where `clippy` cannot do what its arguments ask.
pub fn check_clippy(args: &ClippyArgs) -> (r: Result<(), CommandError>)
    ensures
        clippy_refusal(args.verbose, text::views(args.args@)) == match r {
            Ok(_) => None,
            Err(e) => Some(e@),
        },
{
    if let Err(e) = check_verbosity(args.verbose) {
        return Err(e);
    }
    proof {
        assert(text::views(args.args@).len() == args.args@.len());
    }
    if args.args.len() > 0 {
        let mut error = "`cargo buckal clippy -- ".to_owned();
        error.append(join(&args.args, " ").as_str());
        error.append(
            "` is not supported: Buck2 has no way to apply extra lint flags to a target at the command line",
        );
        let note =
            "set the lint levels in `Cargo.toml` (`[lints.clippy]`), or add `rustc_flags` to the Rust toolchain in `toolchains/BUCK`".to_owned();
        return Err(CommandError { error, note: Some(note) });
    }
    Ok(())
}

/// The sub-targets to build, for the targets that the filter lets pass.
pub open spec fn lint_targets(targets: Seq<FilteredTarget>) -> Seq<Seq<char>>
    decreases targets.len(),
{
    if targets.len() == 0 {
        Seq::empty()
    } else {
        let before = lint_targets(targets.drop_last());
        if targets.last().selected {
            before.push(targets.last().label@ + "[clippy.json]"@)
        } else {
            before
        }
    }
}

/// The failure where there is nothing to lint.
pub open spec fn nothing_to_lint() -> plan::FailureModel {
    plan::FailureModel {
        error: "all targets filtered out, nothing to lint"@,
        note: Some(
            "please check the filter arguments and ensure if there are any lintable targets in current directory"@,
        ),
    }
}

/// The arguments with which Buck2 builds the diagnostics `lints`.
pub open spec fn clippy_arguments(
    platform: Option<Seq<char>>,
    lints: Seq<Seq<char>>,
) -> Seq<Seq<char>> {
    plan::platform_args(platform) + seq!["--show-full-json-output"@] + lints
}

/// What `clippy` asks of Buck2: to build the diagnostics of the targets that the
/// filter lets pass, and to say where they are.
pub fn plan_clippy(
    args: &ClippyArgs,
    platform: Option<&str>,
    targets: &Vec<FilteredTarget>,
) -> (r: Result<Buck2Plan, CommandError>)
    ensures
        lint_targets(targets@).len() == 0 ==> (r matches Err(e) && e@ == nothing_to_lint()),
        lint_targets(targets@).len() > 0 ==> (r matches Ok(p) && text::views(p.args@)
            == clippy_arguments(text::view_opt_str(platform), lint_targets(targets@))),
        lint_targets(targets@).len() > 0 ==> (r matches Ok(p) && p.verb == Buck2Verb::Build
            && p.verbosity == args.verbose && text::views(p.args@) == plan::platform_args(
            text::view_opt_str(platform),
        ) + seq!["--show-full-json-output"@] + lint_targets(targets@)),
{
    let mut out: Vec<String> = Vec::new();
    proof {
        assert(text::views(out@) =~= Seq::<Seq<char>>::empty());
    }
    push_platform(&mut out, platform);
    push_arg(&mut out, "--show-full-json-output");
    let ghost first = text::views(out@);
    proof {
        assert(first =~= plan::platform_args(text::view_opt_str(platform)) + seq![
            "--show-full-json-output"@,
        ]);
        assert(first + lint_targets(targets@.take(0)) =~= first);
    }
    let mut specified = false;
    let mut i: usize = 0;
    while i < targets.len()
        invariant
            i <= targets@.len(),
            text::views(out@) == first + lint_targets(targets@.take(i as int)),
            specified == (lint_targets(targets@.take(i as int)).len() > 0),
        decreases targets@.len() - i,
    {
        let ghost before = lint_targets(targets@.take(i as int));
        proof {
            assert(targets@.take(i + 1).drop_last() =~= targets@.take(i as int));
        }
        if targets[i].selected {
            let mut label = targets[i].label.clone();
            label.append("[clippy.json]");
            push_arg(&mut out, label.as_str());
            specified = true;
            proof {
                assert(first + before.push(label@) =~= (first + before).push(label@));
            }
        }
        i = i + 1;
    }
    proof {
        assert(targets@.take(i as int) =~= targets@);
    }
    if !specified {
        return Err(
            CommandError {
                error: "all targets filtered out, nothing to lint".to_owned(),
                note: Some(
                    "please check the filter arguments and ensure if there are any lintable targets in current directory".to_owned(),
                ),
            },
        );
    }
    Ok(Buck2Plan { verb: Buck2Verb::Build, verbosity: args.verbose, args: out })
}

/// The sub-targets to build for two lists of targets are those for the first and
/// then those for the second. A target that the filter lets pass is built under its
/// own label, and any other is not.
pub proof fn law_selected_targets_are_linted(
    a: Seq<FilteredTarget>,
    b: Seq<FilteredTarget>,
    t: FilteredTarget,
)
    ensures
        lint_targets(a + b) == lint_targets(a) + lint_targets(b),
        t.selected ==> lint_targets(seq![t]) == seq![t.label@ + "[clippy.json]"@],
        !t.selected ==> lint_targets(seq![t]).len() == 0,
    decreases b.len(),
{
    let one = seq![t];
    assert(one.drop_last() =~= Seq::<FilteredTarget>::empty());
    assert(lint_targets(one.drop_last()) =~= Seq::<Seq<char>>::empty());
    assert(one.last() == t);
    assert(Seq::<Seq<char>>::empty().push(t.label@ + "[clippy.json]"@) =~= seq![
        t.label@ + "[clippy.json]"@,
    ]);
    if b.len() == 0 {
        assert(a + b =~= a);
        assert(lint_targets(a) + lint_targets(b) =~= lint_targets(a));
    } else {
        law_selected_targets_are_linted(a, b.drop_last(), t);
        assert((a + b).drop_last() =~= a + b.drop_last());
        assert((a + b).last() == b.last());
        assert(lint_targets(a + b) =~= lint_targets(a) + lint_targets(b));
    }
}

/// `clippy` starts if and only if no more is to be printed than there is and it has
/// no lint flags; too much to print is told first, and the flags are told as given.
pub proof fn law_when_clippy_starts(verbose: u8, args: Seq<Seq<char>>)
    ensures
        clippy_refusal(verbose, args) is None <==> verbose <= 2 && args.len() == 0,
        verbose > 2 ==> clippy_refusal(verbose, args)->0.error == "maximum verbosity"@,
        verbose <= 2 && args.len() > 0 ==> text::reads(
            clippy_refusal(verbose, args)->0.error,
            "`cargo buckal clippy -- "@ + text::joined(args, " "@),
            0,
        ) && clippy_refusal(verbose, args)->0.note is Some,
{
    if verbose <= 2 && args.len() > 0 {
        let head = "`cargo buckal clippy -- "@ + text::joined(args, " "@);
        let all = clippy_refusal(verbose, args)->0.error;
        assert forall|k: int| 0 <= k < head.len() implies all[0 + k] == #[trigger] head[k] by {}
    }
}

/// Each argument of the table has the value that was given for it, by its name.
pub proof fn law_clippy_arguments_by_name(a: ClippyArgs, v: Seq<cli::ValueModel>)
    requires
        is_clippy_args(a, v),
    ensures
        exists|x: cli::ValueModel| #[trigger]
            cli::is_value_of(clippy_table(), v, "verbose"@, x) && a.verbose == cli::count_of(x),
        exists|x: cli::ValueModel| #[trigger]
            cli::is_value_of(clippy_table(), v, "package"@, x) && text::views(a.package@) == cli::texts_of(x),
        exists|x: cli::ValueModel| #[trigger]
            cli::is_value_of(clippy_table(), v, "workspace"@, x) && a.workspace == cli::flag_of(x),
        exists|x: cli::ValueModel| #[trigger]
            cli::is_value_of(clippy_table(), v, "exclude"@, x) && text::views(a.exclude@) == cli::texts_of(x),
        exists|x: cli::ValueModel| #[trigger]
            cli::is_value_of(clippy_table(), v, "lib"@, x) && a.lib == cli::flag_of(x),
        exists|x: cli::ValueModel| #[trigger]
            cli::is_value_of(clippy_table(), v, "bin"@, x) && text::views(a.bin@) == cli::texts_of(x),
        exists|x: cli::ValueModel| #[trigger]
            cli::is_value_of(clippy_table(), v, "bins"@, x) && a.bins == cli::flag_of(x),
        exists|x: cli::ValueModel| #[trigger]
            cli::is_value_of(clippy_table(), v, "test"@, x) && text::views(a.test@) == cli::texts_of(x),
        exists|x: cli::ValueModel| #[trigger]
            cli::is_value_of(clippy_table(), v, "tests"@, x) && a.tests == cli::flag_of(x),
        exists|x: cli::ValueModel| #[trigger]
            cli::is_value_of(clippy_table(), v, "example"@, x) && text::views(a.example@) == cli::texts_of(x),
        exists|x: cli::ValueModel| #[trigger]
            cli::is_value_of(clippy_table(), v, "examples"@, x) && a.examples == cli::flag_of(x),
        exists|x: cli::ValueModel| #[trigger]
            cli::is_value_of(clippy_table(), v, "bench"@, x) && text::views(a.bench@) == cli::texts_of(x),
        exists|x: cli::ValueModel| #[trigger]
            cli::is_value_of(clippy_table(), v, "benches"@, x) && a.benches == cli::flag_of(x),
        exists|x: cli::ValueModel| #[trigger]
            cli::is_value_of(clippy_table(), v, "all_targets"@, x) && a.all_targets == cli::flag_of(x),
        exists|x: cli::ValueModel| #[trigger]
            cli::is_value_of(clippy_table(), v, "target"@, x) && text::view_opt(a.target) == cli::text_of(x),
        exists|x: cli::ValueModel| #[trigger]
            cli::is_value_of(clippy_table(), v, "target_platforms"@, x) && text::view_opt(a.target_platforms) == cli::text_of(x),
        exists|x: cli::ValueModel| #[trigger]
            cli::is_value_of(clippy_table(), v, "args"@, x) && text::views(a.args@) == cli::texts_of(x),
{
    let t = clippy_table();
    assert(t[0].id == "verbose"@);
    assert(cli::is_value_of(t, v, "verbose"@, v[0]));
    assert(t[1].id == "package"@);
    assert(cli::is_value_of(t, v, "package"@, v[1]));
    assert(t[2].id == "workspace"@);
    assert(cli::is_value_of(t, v, "workspace"@, v[2]));
    assert(t[3].id == "exclude"@);
    assert(cli::is_value_of(t, v, "exclude"@, v[3]));
    assert(t[4].id == "lib"@);
    assert(cli::is_value_of(t, v, "lib"@, v[4]));
    assert(t[5].id == "bin"@);
    assert(cli::is_value_of(t, v, "bin"@, v[5]));
    assert(t[6].id == "bins"@);
    assert(cli::is_value_of(t, v, "bins"@, v[6]));
    assert(t[7].id == "test"@);
    assert(cli::is_value_of(t, v, "test"@, v[7]));
    assert(t[8].id == "tests"@);
    assert(cli::is_value_of(t, v, "tests"@, v[8]));
    assert(t[9].id == "example"@);
    assert(cli::is_value_of(t, v, "example"@, v[9]));
    assert(t[10].id == "examples"@);
    assert(cli::is_value_of(t, v, "examples"@, v[10]));
    assert(t[11].id == "bench"@);
    assert(cli::is_value_of(t, v, "bench"@, v[11]));
    assert(t[12].id == "benches"@);
    assert(cli::is_value_of(t, v, "benches"@, v[12]));
    assert(t[13].id == "all_targets"@);
    assert(cli::is_value_of(t, v, "all_targets"@, v[13]));
    assert(t[14].id == "target"@);
    assert(cli::is_value_of(t, v, "target"@, v[14]));
    assert(t[15].id == "target_platforms"@);
    assert(cli::is_value_of(t, v, "target_platforms"@, v[15]));
    assert(t[16].id == "args"@);
    assert(cli::is_value_of(t, v, "args"@, v[16]));
}

/// Each argument of the table with a long form is known by its name, with a hyphen
/// for each underscore; and a target triple and a platform exclude each other.
pub proof fn law_clippy_table(i: int)
    requires
        0 <= i < clippy_table().len(),
    ensures
        cli::named_by_its_id(clippy_table()[i]),
        clippy_table()[i].id == "target"@ ==> clippy_table()[i].conflicts == seq!["target_platforms"@],
        clippy_table()[i].id == "target_platforms"@ ==> clippy_table()[i].conflicts == seq!["target"@],
{
    reveal_strlit("all-targets");
    reveal_strlit("all_targets");
    reveal_strlit("args");
    reveal_strlit("bench");
    reveal_strlit("benches");
    reveal_strlit("bin");
    reveal_strlit("bins");
    reveal_strlit("example");
    reveal_strlit("examples");
    reveal_strlit("exclude");
    reveal_strlit("lib");
    reveal_strlit("package");
    reveal_strlit("target");
    reveal_strlit("target-platforms");
    reveal_strlit("target_platforms");
    reveal_strlit("test");
    reveal_strlit("tests");
    reveal_strlit("verbose");
    reveal_strlit("workspace");
    let t = clippy_table();
    assert(cli::named_by_its_id(t[0]));
    assert(cli::named_by_its_id(t[1]));
    assert(cli::named_by_its_id(t[2]));
    assert(cli::named_by_its_id(t[3]));
    assert(cli::named_by_its_id(t[4]));
    assert(cli::named_by_its_id(t[5]));
    assert(cli::named_by_its_id(t[6]));
    assert(cli::named_by_its_id(t[7]));
    assert(cli::named_by_its_id(t[8]));
    assert(cli::named_by_its_id(t[9]));
    assert(cli::named_by_its_id(t[10]));
    assert(cli::named_by_its_id(t[11]));
    assert(cli::named_by_its_id(t[12]));
    assert(cli::named_by_its_id(t[13]));
    assert(cli::named_by_its_id(t[14]));
    assert(cli::named_by_its_id(t[15]));
    assert(cli::named_by_its_id(t[16]));
}

/// The diagnostics come last, and before them Buck2 is asked where it puts them; the
/// platform comes first, where there is one.
pub proof fn law_clippy_arguments(platform: Seq<char>, lints: Seq<Seq<char>>)
    ensures
        clippy_arguments(None, lints).len() == lints.len() + 1,
        clippy_arguments(None, lints)[0] == "--show-full-json-output"@,
        clippy_arguments(None, lints).skip(1) == lints,
        clippy_arguments(Some(platform), lints) == seq!["--target-platforms"@, platform]
            + clippy_arguments(None, lints),
{
    assert(clippy_arguments(None, lints).skip(1) =~= lints);
    assert(clippy_arguments(Some(platform), lints) =~= seq!["--target-platforms"@, platform]
        + clippy_arguments(None, lints));
}

} // verus!
