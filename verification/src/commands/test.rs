//! `test`: builds test targets and runs them.

use vstd::prelude::*;

use crate::commands::cli::{
    as_count, as_flag, as_text, as_texts, counted, either_form, long_form, parse_args, placed,
    ArgKind, ArgSpec, ArgValue,
};
use crate::commands::cli;
use crate::commands::plan::{
    contains_part, push_arg, push_args, push_passed, push_platform, push_release, Buck2Plan,
    Buck2Verb, CommandError, FilteredTarget,
};
use crate::commands::plan;
use crate::text::{number, parse_number};
use crate::text;

verus! {

/// The arguments of `test`.
#[derive(Debug)]
pub struct TestArgs {
    /// The packages to test.
    pub package: Vec<String>,
    /// Whether to test every package of the workspace.
    pub workspace: bool,
    /// The packages not to test.
    pub exclude: Vec<String>,
    pub all_targets: bool,
    pub lib: bool,
    pub bin: Vec<String>,
    pub bins: bool,
    pub example: Vec<String>,
    pub examples: bool,
    pub test: Vec<String>,
    pub tests: bool,
    pub bench: Vec<String>,
    pub benches: bool,
    /// Whether to build without running.
    pub no_run: bool,
    /// Whether to go on after a failure.
    pub no_fail_fast: bool,
    /// The number of threads.
    pub num_threads: Option<usize>,
    /// The target triple to build for.
    pub target: Option<String>,
    /// The platform to build for.
    pub target_platforms: Option<String>,
    /// Whether to build with optimizations.
    pub release: bool,
    /// How much to print.
    pub verbose: u8,
    /// What the names of the targets have to contain.
    pub test_name: Option<String>,
    /// Arguments for Buck2 itself.
    pub buck2_arg: Vec<String>,
    /// The arguments for the tests.
    pub args: Vec<String>,
}

/// An argument whose value may start with a hyphen.
pub open spec fn hyphen_model(id: Seq<char>, long: Seq<char>) -> cli::ArgModel {
    cli::ArgModel { hyphens: true, ..cli::long_model(id, None, long, ArgKind::Many) }
}

/// The table of the arguments of `test`.
pub open spec fn test_table() -> Seq<cli::ArgModel> {
    seq![
        cli::long_model("package"@, Some('p'), "package"@, ArgKind::Many),
        cli::long_model("workspace"@, None, "workspace"@, ArgKind::Flag),
        cli::long_model("exclude"@, None, "exclude"@, ArgKind::Many),
        cli::long_model("all_targets"@, None, "all-targets"@, ArgKind::Flag),
        cli::long_model("lib"@, None, "lib"@, ArgKind::Flag),
        cli::long_model("bin"@, None, "bin"@, ArgKind::Many),
        cli::long_model("bins"@, None, "bins"@, ArgKind::Flag),
        cli::long_model("example"@, None, "example"@, ArgKind::Many),
        cli::long_model("examples"@, None, "examples"@, ArgKind::Flag),
        cli::long_model("test"@, None, "test"@, ArgKind::Many),
        cli::long_model("tests"@, None, "tests"@, ArgKind::Flag),
        cli::long_model("bench"@, None, "bench"@, ArgKind::Many),
        cli::long_model("benches"@, None, "benches"@, ArgKind::Flag),
        cli::long_model("no_run"@, None, "no-run"@, ArgKind::Flag),
        cli::long_model("no_fail_fast"@, None, "no-fail-fast"@, ArgKind::Flag),
        cli::long_model("num_threads"@, Some('j'), "num-threads"@, ArgKind::One),
        cli::either_model("target"@, "target"@, "target_platforms"@),
        cli::either_model("target_platforms"@, "target-platforms"@, "target"@),
        cli::long_model("release"@, Some('r'), "release"@, ArgKind::Flag),
        cli::count_model("verbose"@, 'v'),
        cli::placed_model("test_name"@, ArgKind::One),
        hyphen_model("buck2_arg"@, "buck2-arg"@),
        cli::placed_model("args"@, ArgKind::Trailing),
    ]
}

/// The table of the arguments of `test`.
fn test_specs() -> (r: Vec<ArgSpec>)
    ensures
        cli::table_model(r@) == test_table(),
{
    let mut t: Vec<ArgSpec> = Vec::new();
    t.push(long_form("package", Some('p'), "package", ArgKind::Many));
    t.push(long_form("workspace", None, "workspace", ArgKind::Flag));
    t.push(long_form("exclude", None, "exclude", ArgKind::Many));
    t.push(long_form("all_targets", None, "all-targets", ArgKind::Flag));
    t.push(long_form("lib", None, "lib", ArgKind::Flag));
    t.push(long_form("bin", None, "bin", ArgKind::Many));
    t.push(long_form("bins", None, "bins", ArgKind::Flag));
    t.push(long_form("example", None, "example", ArgKind::Many));
    t.push(long_form("examples", None, "examples", ArgKind::Flag));
    t.push(long_form("test", None, "test", ArgKind::Many));
    t.push(long_form("tests", None, "tests", ArgKind::Flag));
    t.push(long_form("bench", None, "bench", ArgKind::Many));
    t.push(long_form("benches", None, "benches", ArgKind::Flag));
    t.push(long_form("no_run", None, "no-run", ArgKind::Flag));
    t.push(long_form("no_fail_fast", None, "no-fail-fast", ArgKind::Flag));
    t.push(long_form("num_threads", Some('j'), "num-threads", ArgKind::One));
    t.push(either_form("target", "target", "target_platforms"));
    t.push(either_form("target_platforms", "target-platforms", "target"));
    t.push(long_form("release", Some('r'), "release", ArgKind::Flag));
    t.push(counted("verbose", 'v'));
    t.push(placed("test_name", ArgKind::One));
    let mut raw = long_form("buck2_arg", None, "buck2-arg", ArgKind::Many);
    raw.hyphens = true;
    t.push(raw);
    t.push(placed("args", ArgKind::Trailing));
    proof {
        assert(cli::table_model(t@) =~= test_table());
    }
    t
}

/// Whether these are the arguments that the values of the table stand for, but
/// for the number of threads.
pub open spec fn is_test_args(a: TestArgs, v: Seq<cli::ValueModel>) -> bool {
    &&& text::views(a.package@) == cli::texts_of(v[0])
    &&& a.workspace == cli::flag_of(v[1])
    &&& text::views(a.exclude@) == cli::texts_of(v[2])
    &&& a.all_targets == cli::flag_of(v[3])
    &&& a.lib == cli::flag_of(v[4])
    &&& text::views(a.bin@) == cli::texts_of(v[5])
    &&& a.bins == cli::flag_of(v[6])
    &&& text::views(a.example@) == cli::texts_of(v[7])
    &&& a.examples == cli::flag_of(v[8])
    &&& text::views(a.test@) == cli::texts_of(v[9])
    &&& a.tests == cli::flag_of(v[10])
    &&& text::views(a.bench@) == cli::texts_of(v[11])
    &&& a.benches == cli::flag_of(v[12])
    &&& a.no_run == cli::flag_of(v[13])
    &&& a.no_fail_fast == cli::flag_of(v[14])
    &&& text::view_opt(a.target) == cli::text_of(v[16])
    &&& text::view_opt(a.target_platforms) == cli::text_of(v[17])
    &&& a.release == cli::flag_of(v[18])
    &&& a.verbose == cli::count_of(v[19])
    &&& text::view_opt(a.test_name) == cli::text_of(v[20])
    &&& text::views(a.buck2_arg@) == cli::texts_of(v[21])
    &&& text::views(a.args@) == cli::texts_of(v[22])
}

/// The number of threads that a value stands for: none where there is no value,
/// and an error where the value is no number.
pub open spec fn threads_of(value: cli::ValueModel) -> Result<Option<usize>, ()> {
    match cli::text_of(value) {
        None => Ok(None),
        Some(s) => match text::numeral_value(s) {
            Some(n) if n <= usize::MAX => Ok(Some(n as usize)),
            _ => Err(()),
        },
    }
}

/// The arguments that the values of the table stand for, unless the number of
/// threads is no number.
pub fn test_args(v: &Vec<ArgValue>) -> (r: Option<TestArgs>)
    requires
        v@.len() == test_table().len(),
    ensures
        match threads_of(cli::value_models(v@)[15]) {
            Ok(n) => r matches Some(a) && is_test_args(a, cli::value_models(v@)) && a.num_threads
                == n,
            Err(_) => r is None,
        },
{
    proof {
        assert(forall|i: int| 0 <= i < v@.len() ==> cli::value_models(v@)[i] == (#[trigger] v@[i])@);
    }
    let num_threads: Option<usize> = match as_text(&v[15]) {
        None => None,
        Some(s) => match parse_number(s.as_str()) {
            Some(n) => Some(n),
            None => {
                return None;
            },
        },
    };
    Some(
        TestArgs {
            package: as_texts(&v[0]),
            workspace: as_flag(&v[1]),
            exclude: as_texts(&v[2]),
            all_targets: as_flag(&v[3]),
            lib: as_flag(&v[4]),
            bin: as_texts(&v[5]),
            bins: as_flag(&v[6]),
            example: as_texts(&v[7]),
            examples: as_flag(&v[8]),
            test: as_texts(&v[9]),
            tests: as_flag(&v[10]),
            bench: as_texts(&v[11]),
            benches: as_flag(&v[12]),
            no_run: as_flag(&v[13]),
            no_fail_fast: as_flag(&v[14]),
            num_threads,
            target: as_text(&v[16]),
            target_platforms: as_text(&v[17]),
            release: as_flag(&v[18]),
            verbose: as_count(&v[19]),
            test_name: as_text(&v[20]),
            buck2_arg: as_texts(&v[21]),
            args: as_texts(&v[22]),
        },
    )
}

/// The arguments that `argv` gives `test`, if they are in order.
pub fn parse_test(argv: &Vec<String>) -> (r: Option<TestArgs>)
    ensures
        match cli::given(test_table(), text::views(argv@)) {
            Some(v) => match threads_of(v[15]) {
                Ok(n) => r matches Some(a) && is_test_args(a, v) && a.num_threads == n,
                Err(_) => r is None,
            },
            None => r is None,
        },
        r matches Some(a) ==> a.target is None || a.target_platforms is None,
{
    let table = test_specs();
    match parse_args(&table, argv) {
        Some(v) => {
            let r = test_args(&v);
            proof {
                let t = test_table();
                let m = cli::value_models(v@);
                assert(t[16].conflicts[0] == t[17].id);
                assert(t[16].conflicts.contains(t[17].id));
                assert(cli::is_absent(m[16]) || cli::is_absent(m[17]));
                assert(cli::value_fits(t[16].kind, m[16]));
                assert(cli::value_fits(t[17].kind, m[17]));
            }
            r
        },
        None => None,
    }
}

/// Whether every test target is meant: a name is given that the targets have to
/// contain, and nothing else that tells them apart.
pub fn wants_all_tests(test_name: &Option<String>, filter_is_specific: bool) -> (r: bool)
    ensures
        r == (test_name is Some && !filter_is_specific),
{
    test_name.is_some() && !filter_is_specific
}

/// Whether a target is to be tested.
pub open spec fn is_tested(target: FilteredTarget, test_name: Option<Seq<char>>) -> bool {
    &&& target.selected
    &&& test_name matches Some(part) ==> text::first_at(target.name@, part) is Some
}

/// The labels of the targets to test, in order.
pub open spec fn test_labels(
    targets: Seq<FilteredTarget>,
    test_name: Option<Seq<char>>,
) -> Seq<Seq<char>>
    decreases targets.len(),
{
    if targets.len() == 0 {
        Seq::empty()
    } else {
        let before = test_labels(targets.drop_last(), test_name);
        if is_tested(targets.last(), test_name) {
            before.push(targets.last().label@)
        } else {
            before
        }
    }
}

/// The failure where there is nothing to test.
pub open spec fn nothing_to_test() -> plan::FailureModel {
    plan::FailureModel {
        error: "all targets filtered out, nothing to test"@,
        note: Some(
            "please check the filter arguments and ensure if there are any testable targets in current directory"@,
        ),
    }
}

/// The arguments for a number of threads.
pub open spec fn thread_args(num_threads: Option<usize>) -> Seq<Seq<char>> {
    match num_threads {
        Some(n) => seq!["-j"@, text::decimal(n as nat)],
        None => Seq::empty(),
    }
}

/// The arguments before the targets. Those that the user has for Buck2 itself
/// come last, so that they win.
pub open spec fn test_options(args: TestArgs, platform: Option<Seq<char>>) -> Seq<Seq<char>> {
    thread_args(args.num_threads) + plan::platform_args(platform) + plan::release_args(args.release)
        + (if args.no_fail_fast {
        seq!["--keep-going"@]
    } else {
        Seq::empty()
    }) + text::views(args.buck2_arg@)
}

/// The arguments before the targets.
fn push_test_options(args: &TestArgs, platform: Option<&str>) -> (r: Vec<String>)
    ensures
        text::views(r@) == test_options(*args, text::view_opt_str(platform)),
{
    let mut out: Vec<String> = Vec::new();
    if let Some(n) = args.num_threads {
        push_arg(&mut out, "-j");
        push_arg(&mut out, number(n).as_str());
    }
    proof {
        assert(text::views(out@) =~= thread_args(args.num_threads));
    }
    push_platform(&mut out, platform);
    push_release(&mut out, args.release);
    let ghost before = text::views(out@);
    if args.no_fail_fast {
        push_arg(&mut out, "--keep-going");
        proof {
            assert(text::views(out@) =~= before + seq!["--keep-going"@]);
        }
    } else {
        proof {
            assert(text::views(out@) =~= before + Seq::<Seq<char>>::empty());
        }
    }
    push_args(&mut out, &args.buck2_arg);
    out
}

/// The arguments with which Buck2 tests the targets `labels`, or builds them.
pub open spec fn test_arguments(
    args: TestArgs,
    platform: Option<Seq<char>>,
    labels: Seq<Seq<char>>,
) -> Seq<Seq<char>> {
    test_options(args, platform) + labels + if args.no_run {
        Seq::empty()
    } else {
        plan::passed_args(text::views(args.args@))
    }
}

/// What `test` asks of Buck2: to run the tests of the targets that the filter
/// lets pass and whose names contain what they have to, or only to build them.
pub fn plan_test(
    args: &TestArgs,
    platform: Option<&str>,
    targets: &Vec<FilteredTarget>,
) -> (r: Result<Buck2Plan, CommandError>)
    ensures
        ({
            let labels = test_labels(targets@, text::view_opt(args.test_name));
            &&& labels.len() == 0 ==> (r matches Err(e) && e@ == nothing_to_test())
            &&& labels.len() > 0 ==> (r matches Ok(p) && text::views(p.args@) == test_arguments(
                *args,
                text::view_opt_str(platform),
                labels,
            ))
            &&& labels.len() > 0 ==> (r matches Ok(p) && p.verbosity == args.verbose && p.verb
                == (if args.no_run {
                Buck2Verb::Build
            } else {
                Buck2Verb::Test
            }) && text::views(p.args@) == test_options(*args, text::view_opt_str(platform)) + labels
                + (if args.no_run {
                Seq::empty()
            } else {
                plan::passed_args(text::views(args.args@))
            }))
        }),
{
    let mut out = push_test_options(args, platform);
    let ghost first = text::views(out@);
    let ghost part = text::view_opt(args.test_name);
    let mut specified = false;
    let mut i: usize = 0;
    proof {
        assert(first + test_labels(targets@.take(0), part) =~= first);
    }
    while i < targets.len()
        invariant
            i <= targets@.len(),
            part == text::view_opt(args.test_name),
            text::views(out@) == first + test_labels(targets@.take(i as int), part),
            specified == (test_labels(targets@.take(i as int), part).len() > 0),
        decreases targets@.len() - i,
    {
        let ghost before = test_labels(targets@.take(i as int), part);
        proof {
            assert(targets@.take(i + 1).drop_last() =~= targets@.take(i as int));
        }
        let named = match &args.test_name {
            Some(name) => contains_part(targets[i].name.as_str(), name.as_str()),
            None => true,
        };
        if targets[i].selected && named {
            push_arg(&mut out, targets[i].label.as_str());
            specified = true;
            proof {
                let label = targets@[i as int].label@;
                assert(first + before.push(label) =~= (first + before).push(label));
            }
        }
        i = i + 1;
    }
    proof {
        assert(targets@.take(i as int) =~= targets@);
    }
    if !specified {
        return Err(
            CommandError {
                error: "all targets filtered out, nothing to test".to_owned(),
                note: Some(
                    "please check the filter arguments and ensure if there are any testable targets in current directory".to_owned(),
                ),
            },
        );
    }
    let verb = if args.no_run {
        Buck2Verb::Build
    } else {
        Buck2Verb::Test
    };
    if !args.no_run {
        push_passed(&mut out, &args.args);
    } else {
        proof {
            assert(text::views(out@) + Seq::<Seq<char>>::empty() =~= text::views(out@));
        }
    }
    Ok(Buck2Plan { verb, verbosity: args.verbose, args: out })
}

/// The targets to test of two lists are those of the first and then those of the
/// second. A target is tested if and only if the filter lets it pass and its name
/// contains what it has to, if anything; it is tested under its label.
pub proof fn law_selected_targets_are_tested(
    a: Seq<FilteredTarget>,
    b: Seq<FilteredTarget>,
    t: FilteredTarget,
    part: Option<Seq<char>>,
)
    ensures
        test_labels(a + b, part) == test_labels(a, part) + test_labels(b, part),
        t.selected && (part is None || exists|i: int| #[trigger] text::reads(t.name@, part->0, i))
            ==> test_labels(seq![t], part) == seq![t.label@],
        !t.selected ==> test_labels(seq![t], part).len() == 0,
        part is Some && (forall|i: int| !#[trigger] text::reads(t.name@, part->0, i))
            ==> test_labels(seq![t], part).len() == 0,
    decreases b.len(),
{
    let one = seq![t];
    assert(one.drop_last() =~= Seq::<FilteredTarget>::empty());
    assert(test_labels(one.drop_last(), part) =~= Seq::<Seq<char>>::empty());
    assert(one.last() == t);
    assert(Seq::<Seq<char>>::empty().push(t.label@) =~= seq![t.label@]);
    if let Some(p) = part {
        text::law_first_place(t.name@, p);
    }
    if b.len() == 0 {
        assert(a + b =~= a);
        assert(test_labels(a, part) + test_labels(b, part) =~= test_labels(a, part));
    } else {
        law_selected_targets_are_tested(a, b.drop_last(), t, part);
        assert((a + b).drop_last() =~= a + b.drop_last());
        assert((a + b).last() == b.last());
        assert(test_labels(a + b, part) =~= test_labels(a, part) + test_labels(b, part));
    }
}

/// What the user has for Buck2 itself comes last among the options, and as it was
/// given; before it come the number of threads, the platform, the mode and whether
/// to go on after a failure, each only where it was asked for.
pub proof fn law_test_options(args: TestArgs, platform: Option<Seq<char>>)
    ensures
        ({
            let all = test_options(args, platform);
            let own = text::views(args.buck2_arg@);
            let rest = all.take(all.len() - own.len());
            &&& own.len() <= all.len()
            &&& all.skip(all.len() - own.len()) == own
            &&& args.num_threads matches Some(n) ==> rest[0] == "-j"@ && rest[1] == text::decimal(
                n as nat,
            )
            &&& args.no_fail_fast ==> rest.last() == "--keep-going"@
            &&& rest.len() == (if args.num_threads is Some {
                2int
            } else {
                0
            }) + (if platform is Some {
                2int
            } else {
                0
            }) + (if args.release {
                2int
            } else {
                0
            }) + (if args.no_fail_fast {
                1int
            } else {
                0
            })
            &&& platform matches Some(p) ==> exists|i: int|
                0 <= i < rest.len() - 1 && #[trigger] rest[i] == "--target-platforms"@ && rest[i
                    + 1] == p
            &&& args.release ==> exists|i: int|
                0 <= i < rest.len() - 1 && #[trigger] rest[i] == "-m"@ && rest[i + 1]
                    == "release"@
        }),
{
    let all = test_options(args, platform);
    let own = text::views(args.buck2_arg@);
    let a = thread_args(args.num_threads);
    let b = plan::platform_args(platform);
    let c = plan::release_args(args.release);
    let d = if args.no_fail_fast {
        seq!["--keep-going"@]
    } else {
        Seq::empty()
    };
    let rest = all.take(all.len() - own.len());
    assert(rest =~= a + b + c + d);
    assert(all.skip(all.len() - own.len()) =~= own);
    if platform is Some {
        let i = a.len() as int;
        assert(rest[i] == b[0] && rest[i + 1] == b[1]);
    }
    if args.release {
        let i = (a.len() + b.len()) as int;
        assert(rest[i] == c[0] && rest[i + 1] == c[1]);
    }
}

/// The number of threads is the number that is given; what is no number, or too
/// great a one, is refused, and no number is none.
pub proof fn law_threads_are_read(n: usize, s: Seq<char>)
    ensures
        threads_of(cli::ValueModel::Texts(seq![text::decimal(n as nat)])) == Ok::<
            Option<usize>,
            (),
        >(Some(n)),
        threads_of(cli::ValueModel::Texts(Seq::empty())) == Ok::<Option<usize>, ()>(None),
        text::numeral_value(s) is None ==> threads_of(cli::ValueModel::Texts(seq![s])) is Err,
        text::numeral_value(s) matches Some(v) && v > usize::MAX ==> threads_of(
            cli::ValueModel::Texts(seq![s]),
        ) is Err,
{
    text::law_numerals_are_read_back(n as nat);
    assert(seq![text::decimal(n as nat)][0] == text::decimal(n as nat));
    assert(seq![s][0] == s);
}

/// Each argument of the table has the value that was given for it, by its name.
pub proof fn law_test_arguments_by_name(a: TestArgs, v: Seq<cli::ValueModel>)
    requires
        is_test_args(a, v),
    ensures
        exists|x: cli::ValueModel| #[trigger]
            cli::is_value_of(test_table(), v, "package"@, x) && text::views(a.package@) == cli::texts_of(x),
        exists|x: cli::ValueModel| #[trigger]
            cli::is_value_of(test_table(), v, "workspace"@, x) && a.workspace == cli::flag_of(x),
        exists|x: cli::ValueModel| #[trigger]
            cli::is_value_of(test_table(), v, "exclude"@, x) && text::views(a.exclude@) == cli::texts_of(x),
        exists|x: cli::ValueModel| #[trigger]
            cli::is_value_of(test_table(), v, "all_targets"@, x) && a.all_targets == cli::flag_of(x),
        exists|x: cli::ValueModel| #[trigger]
            cli::is_value_of(test_table(), v, "lib"@, x) && a.lib == cli::flag_of(x),
        exists|x: cli::ValueModel| #[trigger]
            cli::is_value_of(test_table(), v, "bin"@, x) && text::views(a.bin@) == cli::texts_of(x),
        exists|x: cli::ValueModel| #[trigger]
            cli::is_value_of(test_table(), v, "bins"@, x) && a.bins == cli::flag_of(x),
        exists|x: cli::ValueModel| #[trigger]
            cli::is_value_of(test_table(), v, "example"@, x) && text::views(a.example@) == cli::texts_of(x),
        exists|x: cli::ValueModel| #[trigger]
            cli::is_value_of(test_table(), v, "examples"@, x) && a.examples == cli::flag_of(x),
        exists|x: cli::ValueModel| #[trigger]
            cli::is_value_of(test_table(), v, "test"@, x) && text::views(a.test@) == cli::texts_of(x),
        exists|x: cli::ValueModel| #[trigger]
            cli::is_value_of(test_table(), v, "tests"@, x) && a.tests == cli::flag_of(x),
        exists|x: cli::ValueModel| #[trigger]
            cli::is_value_of(test_table(), v, "bench"@, x) && text::views(a.bench@) == cli::texts_of(x),
        exists|x: cli::ValueModel| #[trigger]
            cli::is_value_of(test_table(), v, "benches"@, x) && a.benches == cli::flag_of(x),
        exists|x: cli::ValueModel| #[trigger]
            cli::is_value_of(test_table(), v, "no_run"@, x) && a.no_run == cli::flag_of(x),
        exists|x: cli::ValueModel| #[trigger]
            cli::is_value_of(test_table(), v, "no_fail_fast"@, x) && a.no_fail_fast == cli::flag_of(x),
        exists|x: cli::ValueModel| #[trigger]
            cli::is_value_of(test_table(), v, "target"@, x) && text::view_opt(a.target) == cli::text_of(x),
        exists|x: cli::ValueModel| #[trigger]
            cli::is_value_of(test_table(), v, "target_platforms"@, x) && text::view_opt(a.target_platforms) == cli::text_of(x),
        exists|x: cli::ValueModel| #[trigger]
            cli::is_value_of(test_table(), v, "release"@, x) && a.release == cli::flag_of(x),
        exists|x: cli::ValueModel| #[trigger]
            cli::is_value_of(test_table(), v, "verbose"@, x) && a.verbose == cli::count_of(x),
        exists|x: cli::ValueModel| #[trigger]
            cli::is_value_of(test_table(), v, "test_name"@, x) && text::view_opt(a.test_name) == cli::text_of(x),
        exists|x: cli::ValueModel| #[trigger]
            cli::is_value_of(test_table(), v, "buck2_arg"@, x) && text::views(a.buck2_arg@) == cli::texts_of(x),
        exists|x: cli::ValueModel| #[trigger]
            cli::is_value_of(test_table(), v, "args"@, x) && text::views(a.args@) == cli::texts_of(x),
{
    let t = test_table();
    assert(t[0].id == "package"@);
    assert(cli::is_value_of(t, v, "package"@, v[0]));
    assert(t[1].id == "workspace"@);
    assert(cli::is_value_of(t, v, "workspace"@, v[1]));
    assert(t[2].id == "exclude"@);
    assert(cli::is_value_of(t, v, "exclude"@, v[2]));
    assert(t[3].id == "all_targets"@);
    assert(cli::is_value_of(t, v, "all_targets"@, v[3]));
    assert(t[4].id == "lib"@);
    assert(cli::is_value_of(t, v, "lib"@, v[4]));
    assert(t[5].id == "bin"@);
    assert(cli::is_value_of(t, v, "bin"@, v[5]));
    assert(t[6].id == "bins"@);
    assert(cli::is_value_of(t, v, "bins"@, v[6]));
    assert(t[7].id == "example"@);
    assert(cli::is_value_of(t, v, "example"@, v[7]));
    assert(t[8].id == "examples"@);
    assert(cli::is_value_of(t, v, "examples"@, v[8]));
    assert(t[9].id == "test"@);
    assert(cli::is_value_of(t, v, "test"@, v[9]));
    assert(t[10].id == "tests"@);
    assert(cli::is_value_of(t, v, "tests"@, v[10]));
    assert(t[11].id == "bench"@);
    assert(cli::is_value_of(t, v, "bench"@, v[11]));
    assert(t[12].id == "benches"@);
    assert(cli::is_value_of(t, v, "benches"@, v[12]));
    assert(t[13].id == "no_run"@);
    assert(cli::is_value_of(t, v, "no_run"@, v[13]));
    assert(t[14].id == "no_fail_fast"@);
    assert(cli::is_value_of(t, v, "no_fail_fast"@, v[14]));
    assert(t[16].id == "target"@);
    assert(cli::is_value_of(t, v, "target"@, v[16]));
    assert(t[17].id == "target_platforms"@);
    assert(cli::is_value_of(t, v, "target_platforms"@, v[17]));
    assert(t[18].id == "release"@);
    assert(cli::is_value_of(t, v, "release"@, v[18]));
    assert(t[19].id == "verbose"@);
    assert(cli::is_value_of(t, v, "verbose"@, v[19]));
    assert(t[20].id == "test_name"@);
    assert(cli::is_value_of(t, v, "test_name"@, v[20]));
    assert(t[21].id == "buck2_arg"@);
    assert(cli::is_value_of(t, v, "buck2_arg"@, v[21]));
    assert(t[22].id == "args"@);
    assert(cli::is_value_of(t, v, "args"@, v[22]));
}

/// Each argument of the table with a long form is known by its name, with a hyphen
/// for each underscore; and a target triple and a platform exclude each other.
pub proof fn law_test_table(i: int)
    requires
        0 <= i < test_table().len(),
    ensures
        cli::named_by_its_id(test_table()[i]),
        test_table()[i].id == "target"@ ==> test_table()[i].conflicts == seq!["target_platforms"@],
        test_table()[i].id == "target_platforms"@ ==> test_table()[i].conflicts == seq!["target"@],
{
    reveal_strlit("all-targets");
    reveal_strlit("all_targets");
    reveal_strlit("args");
    reveal_strlit("bench");
    reveal_strlit("benches");
    reveal_strlit("bin");
    reveal_strlit("bins");
    reveal_strlit("buck2-arg");
    reveal_strlit("buck2_arg");
    reveal_strlit("example");
    reveal_strlit("examples");
    reveal_strlit("exclude");
    reveal_strlit("lib");
    reveal_strlit("no-fail-fast");
    reveal_strlit("no-run");
    reveal_strlit("no_fail_fast");
    reveal_strlit("no_run");
    reveal_strlit("num-threads");
    reveal_strlit("num_threads");
    reveal_strlit("package");
    reveal_strlit("release");
    reveal_strlit("target");
    reveal_strlit("target-platforms");
    reveal_strlit("target_platforms");
    reveal_strlit("test");
    reveal_strlit("test_name");
    reveal_strlit("tests");
    reveal_strlit("verbose");
    reveal_strlit("workspace");
    let t = test_table();
    assert("no_run"@[0] != "target"@[0]);
    assert(cli::named_by_its_id(t[0]));
    assert(cli::named_by_its_id(t[1]));
    assert(cli::named_by_its_id(t[2]));
    assert(cli::named_by_its_id(t[3]));
    assert(cli::named_by_its_id(t[4]));
    assert(cli::named_by_its_id(t[5]));
    assert(cli::named_by_its_id(t[6]));
    assert(cli::named_by_its_id(t[7]));
    assert(cli::named_by_its_id(t[8]));
    assert(cli::named_by_its_id(t[9]));
    assert(cli::named_by_its_id(t[10]));
    assert(cli::named_by_its_id(t[11]));
    assert(cli::named_by_its_id(t[12]));
    assert(cli::named_by_its_id(t[13]));
    assert(cli::named_by_its_id(t[14]));
    assert(cli::named_by_its_id(t[15]));
    assert(cli::named_by_its_id(t[16]));
    assert(cli::named_by_its_id(t[17]));
    assert(cli::named_by_its_id(t[18]));
    assert(cli::named_by_its_id(t[19]));
    assert(cli::named_by_its_id(t[20]));
    assert(cli::named_by_its_id(t[21]));
    assert(cli::named_by_its_id(t[22]));
}

/// The targets come behind the options, and behind them what is handed on to the
/// tests, as it was given and behind two hyphens. Where the tests are only built,
/// nothing is handed on.
pub proof fn law_test_arguments(
    args: TestArgs,
    platform: Option<Seq<char>>,
    labels: Seq<Seq<char>>,
)
    ensures
        ({
            let all = test_arguments(args, platform, labels);
            let options = test_options(args, platform);
            let passed = text::views(args.args@);
            let n = (options.len() + labels.len()) as int;
            &&& all.take(options.len() as int) == options
            &&& all.subrange(options.len() as int, n) == labels
            &&& args.no_run || passed.len() == 0 ==> all.len() == n
            &&& !args.no_run && passed.len() > 0 ==> all.len() == n + 1 + passed.len() && all[n]
                == "--"@ && all.skip(n + 1) == passed
        }),
{
    let all = test_arguments(args, platform, labels);
    let options = test_options(args, platform);
    let passed = text::views(args.args@);
    let n = (options.len() + labels.len()) as int;
    assert(all.take(options.len() as int) =~= options);
    assert(all.subrange(options.len() as int, n) =~= labels);
    if !args.no_run && passed.len() > 0 {
        assert(all.skip(n + 1) =~= passed);
    }
}

} // verus!
