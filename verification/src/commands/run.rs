//! `run`: builds a binary and runs it.

use vstd::prelude::*;

use crate::commands::cli::{
    as_count, as_flag, as_text, as_texts, counted, either_form, long_form, parse_args, placed,
    ArgKind, ArgSpec, ArgValue,
};
use crate::commands::cli;
use crate::commands::plan::{
    push_arg, push_passed, push_platform, push_release, Buck2Plan, Buck2Verb, CommandError,
};
use crate::commands::plan;
use crate::resolve::TargetKind;
use crate::text::{join, same_text};
use crate::text;

verus! {

/// The arguments of `run`.
#[derive(Debug)]
pub struct RunArgs {
    /// Whether to build with optimizations.
    pub release: bool,
    /// How much to print.
    pub verbose: u8,
    /// The package whose binary to run.
    pub package: Option<String>,
    /// The binary to run.
    pub bin: Option<String>,
    /// The example to run.
    pub example: Option<String>,
    /// The target triple to build for.
    pub target: Option<String>,
    /// The platform to build for.
    pub target_platforms: Option<String>,
    /// The arguments for the binary.
    pub args: Vec<String>,
}

/// The table of the arguments of `run`.
pub open spec fn run_table() -> Seq<cli::ArgModel> {
    seq![
        cli::long_model("release"@, Some('r'), "release"@, ArgKind::Flag),
        cli::count_model("verbose"@, 'v'),
        cli::long_model("package"@, Some('p'), "package"@, ArgKind::One),
        cli::long_model("bin"@, None, "bin"@, ArgKind::One),
        cli::long_model("example"@, None, "example"@, ArgKind::One),
        cli::either_model("target"@, "target"@, "target_platforms"@),
        cli::either_model("target_platforms"@, "target-platforms"@, "target"@),
        cli::placed_model("args"@, ArgKind::Trailing),
    ]
}

/// The table of the arguments of `run`.
fn run_specs() -> (r: Vec<ArgSpec>)
    ensures
        cli::table_model(r@) == run_table(),
{
    let mut t: Vec<ArgSpec> = Vec::new();
    t.push(long_form("release", Some('r'), "release", ArgKind::Flag));
    t.push(counted("verbose", 'v'));
    t.push(long_form("package", Some('p'), "package", ArgKind::One));
    t.push(long_form("bin", None, "bin", ArgKind::One));
    t.push(long_form("example", None, "example", ArgKind::One));
    t.push(either_form("target", "target", "target_platforms"));
    t.push(either_form("target_platforms", "target-platforms", "target"));
    t.push(placed("args", ArgKind::Trailing));
    proof {
        assert(cli::table_model(t@) =~= run_table());
    }
    t
}

/// Whether these are the arguments that the values of the table stand for.
pub open spec fn is_run_args(a: RunArgs, v: Seq<cli::ValueModel>) -> bool {
    &&& a.release == cli::flag_of(v[0])
    &&& a.verbose == cli::count_of(v[1])
    &&& text::view_opt(a.package) == cli::text_of(v[2])
    &&& text::view_opt(a.bin) == cli::text_of(v[3])
    &&& text::view_opt(a.example) == cli::text_of(v[4])
    &&& text::view_opt(a.target) == cli::text_of(v[5])
    &&& text::view_opt(a.target_platforms) == cli::text_of(v[6])
    &&& text::views(a.args@) == cli::texts_of(v[7])
}

/// The arguments that the values of the table stand for.
pub fn run_args(v: &Vec<ArgValue>) -> (r: RunArgs)
    requires
        v@.len() == run_table().len(),
    ensures
        is_run_args(r, cli::value_models(v@)),
{
    proof {
        assert(forall|i: int| 0 <= i < v@.len() ==> cli::value_models(v@)[i] == (#[trigger] v@[i])@);
    }
    RunArgs {
        release: as_flag(&v[0]),
        verbose: as_count(&v[1]),
        package: as_text(&v[2]),
        bin: as_text(&v[3]),
        example: as_text(&v[4]),
        target: as_text(&v[5]),
        target_platforms: as_text(&v[6]),
        args: as_texts(&v[7]),
    }
}

/// The arguments that `argv` gives `run`, if they are in order.
pub fn parse_run(argv: &Vec<String>) -> (r: Option<RunArgs>)
    ensures
        match cli::given(run_table(), text::views(argv@)) {
            Some(v) => r matches Some(a) && is_run_args(a, v),
            None => r is None,
        },
        r matches Some(a) ==> a.target is None || a.target_platforms is None,
{
    let table = run_specs();
    match parse_args(&table, argv) {
        Some(v) => {
            let a = run_args(&v);
            proof {
                let t = run_table();
                let m = cli::value_models(v@);
                assert(t[5].conflicts[0] == t[6].id);
                assert(t[5].conflicts.contains(t[6].id));
                assert(cli::is_absent(m[5]) || cli::is_absent(m[6]));
                assert(cli::value_fits(t[5].kind, m[5]));
                assert(cli::value_fits(t[6].kind, m[6]));
            }
            Some(a)
        },
        None => None,
    }
}

/// A target of the package in question.
#[derive(Debug)]
pub struct BuckTargetEntry {
    pub name: String,
    pub label: String,
    pub kind: TargetKind,
}

/// The names of the binaries among the targets, in order.
pub open spec fn binary_names(targets: Seq<BuckTargetEntry>) -> Seq<Seq<char>>
    decreases targets.len(),
{
    if targets.len() == 0 {
        Seq::empty()
    } else {
        let before = binary_names(targets.drop_last());
        if targets.last().kind == TargetKind::Bin {
            before.push(targets.last().name@)
        } else {
            before
        }
    }
}

/// The labels of the binaries among the targets, in order.
pub open spec fn binary_labels(targets: Seq<BuckTargetEntry>) -> Seq<Seq<char>>
    decreases targets.len(),
{
    if targets.len() == 0 {
        Seq::empty()
    } else {
        let before = binary_labels(targets.drop_last());
        if targets.last().kind == TargetKind::Bin {
            before.push(targets.last().label@)
        } else {
            before
        }
    }
}

/// The position of the first `name` in `names`, or their number.
pub open spec fn name_at(names: Seq<Seq<char>>, name: Seq<char>) -> int
    decreases names.len(),
{
    if names.len() == 0 || names[0] == name {
        0
    } else {
        1 + name_at(names.drop_first(), name)
    }
}

/// The binary to run, of those with these names and labels: the first with the
/// name that is asked for, or the only one there is.
pub open spec fn binary_selected(
    names: Seq<Seq<char>>,
    labels: Seq<Seq<char>>,
    bin_name: Option<Seq<char>>,
) -> Result<Seq<char>, plan::FailureModel> {
    match bin_name {
        Some(name) => if name_at(names, name) < names.len() {
            Ok(labels[name_at(names, name)])
        } else {
            Err(
                plan::FailureModel {
                    error: "no bin target named `"@ + name + "` in the current package"@,
                    note: None,
                },
            )
        },
        None => if names.len() == 0 {
            Err(
                plan::FailureModel {
                    error: "no binary targets found in the current package"@,
                    note: None,
                },
            )
        } else if names.len() == 1 {
            Ok(labels[0])
        } else {
            Err(
                plan::FailureModel {
                    error: "multiple binary targets found; specify one with `--bin <NAME>`:\n    "@
                        + text::joined(names, "\n    "@),
                    note: None,
                },
            )
        },
    }
}

proof fn lemma_name_at(names: Seq<Seq<char>>, name: Seq<char>, i: int)
    requires
        0 <= i <= names.len(),
        forall|j: int| 0 <= j < i ==> #[trigger] names[j] != name,
        i < names.len() ==> names[i] == name,
    ensures
        name_at(names, name) == i,
    decreases i,
{
    if i > 0 {
        assert(names[0] != name);
        let rest = names.drop_first();
        assert forall|j: int| 0 <= j < i - 1 implies #[trigger] rest[j] != name by {
            assert(rest[j] == names[j + 1]);
        }
        lemma_name_at(rest, name, i - 1);
    }
}

proof fn lemma_same_number(targets: Seq<BuckTargetEntry>)
    ensures
        binary_names(targets).len() == binary_labels(targets).len(),
    decreases targets.len(),
{
    if targets.len() > 0 {
        lemma_same_number(targets.drop_last());
    }
}

/// The names of a list of targets.
pub open spec fn entry_names(v: Seq<&BuckTargetEntry>) -> Seq<Seq<char>> {
    v.map_values(|t: &BuckTargetEntry| t.name@)
}

/// The labels of a list of targets.
pub open spec fn entry_labels(v: Seq<&BuckTargetEntry>) -> Seq<Seq<char>> {
    v.map_values(|t: &BuckTargetEntry| t.label@)
}

/// The outcome of choosing a target.
pub open spec fn label_outcome(r: Result<String, CommandError>) -> Result<
    Seq<char>,
    plan::FailureModel,
> {
    match r {
        Ok(label) => Ok(label@),
        Err(e) => Err(e@),
    }
}

/// The binary to run: the one with the name that is asked for, or the only one
/// there is.
pub fn select_binary(binaries: &[&BuckTargetEntry], bin_name: Option<&str>) -> (r: Result<
    String,
    CommandError,
>)
    ensures
        label_outcome(r) == binary_selected(
            entry_names(binaries@),
            entry_labels(binaries@),
            text::view_opt_str(bin_name),
        ),
{
    let ghost names = entry_names(binaries@);
    if let Some(name) = bin_name {
        let mut i: usize = 0;
        while i < binaries.len()
            invariant
                i <= binaries@.len(),
                names == entry_names(binaries@),
                bin_name == Some(name),
                forall|j: int| 0 <= j < i ==> #[trigger] names[j] != name@,
            decreases binaries@.len() - i,
        {
            if same_text(binaries[i].name.as_str(), name) {
                proof {
                    lemma_name_at(names, name@, i as int);
                }
                return Ok(binaries[i].label.clone());
            }
            i = i + 1;
        }
        proof {
            lemma_name_at(names, name@, i as int);
        }
        let mut error = "no bin target named `".to_owned();
        error.append(name);
        error.append("` in the current package");
        return Err(CommandError { error, note: None });
    }
    if binaries.len() == 0 {
        return Err(
            CommandError {
                error: "no binary targets found in the current package".to_owned(),
                note: None,
            },
        );
    }
    if binaries.len() == 1 {
        return Ok(binaries[0].label.clone());
    }
    let mut listed: Vec<String> = Vec::new();
    let mut i: usize = 0;
    while i < binaries.len()
        invariant
            i <= binaries@.len(),
            listed@.len() == i,
            forall|j: int| 0 <= j < i ==> (#[trigger] listed@[j])@ == binaries@[j].name@,
        decreases binaries@.len() - i,
    {
        listed.push(binaries[i].name.clone());
        i = i + 1;
    }
    proof {
        assert(text::views(listed@) =~= names);
    }
    let mut error =
        "multiple binary targets found; specify one with `--bin <NAME>`:\n    ".to_owned();
    error.append(join(&listed, "\n    ").as_str());
    Err(CommandError { error, note: None })
}

/// The target to run: the example that is asked for, or else a binary among the
/// targets of the package at `relative`.
pub open spec fn run_target(
    example: Option<Seq<char>>,
    bin: Option<Seq<char>>,
    relative: Seq<char>,
    targets: Seq<BuckTargetEntry>,
) -> Result<Seq<char>, plan::FailureModel> {
    match example {
        Some(name) => Ok("//"@ + relative + ":"@ + name),
        None => binary_selected(binary_names(targets), binary_labels(targets), bin),
    }
}

/// The target to run. `available` are the targets of the package at `relative`;
/// for an example they are not needed.
pub fn resolve_run_target(
    args: &RunArgs,
    relative: &str,
    available: &Vec<BuckTargetEntry>,
) -> (r: Result<String, CommandError>)
    ensures
        label_outcome(r) == run_target(
            text::view_opt(args.example),
            text::view_opt(args.bin),
            relative@,
            available@,
        ),
{
    if let Some(name) = &args.example {
        let mut label = "//".to_owned();
        label.append(relative);
        label.append(":");
        label.append(name.as_str());
        return Ok(label);
    }
    let mut binaries: Vec<&BuckTargetEntry> = Vec::new();
    let mut i: usize = 0;
    proof {
        assert(entry_names(binaries@) =~= Seq::<Seq<char>>::empty());
        assert(entry_labels(binaries@) =~= Seq::<Seq<char>>::empty());
    }
    while i < available.len()
        invariant
            i <= available@.len(),
            entry_names(binaries@) == binary_names(available@.take(i as int)),
            entry_labels(binaries@) == binary_labels(available@.take(i as int)),
        decreases available@.len() - i,
    {
        proof {
            assert(available@.take(i + 1).drop_last() =~= available@.take(i as int));
        }
        if available[i].kind == TargetKind::Bin {
            let ghost before = binaries@;
            binaries.push(&available[i]);
            proof {
                assert(entry_names(binaries@) =~= entry_names(before).push(
                    available@[i as int].name@,
                ));
                assert(entry_labels(binaries@) =~= entry_labels(before).push(
                    available@[i as int].label@,
                ));
            }
        }
        i = i + 1;
    }
    proof {
        assert(available@.take(i as int) =~= available@);
        lemma_same_number(available@);
    }
    let bin: Option<&str> = match &args.bin {
        Some(name) => Some(name.as_str()),
        None => None,
    };
    select_binary(binaries.as_slice(), bin)
}

/// The arguments with which Buck2 runs a target.
pub open spec fn run_arguments(
    target: Seq<char>,
    release: bool,
    platform: Option<Seq<char>>,
    args: Seq<Seq<char>>,
) -> Seq<Seq<char>> {
    seq![target] + plan::release_args(release) + plan::platform_args(platform) + plan::passed_args(
        args,
    )
}

/// What `run` asks of Buck2.
pub fn plan_run(args: &RunArgs, target: &str, platform: Option<&str>) -> (r: Buck2Plan)
    ensures
        r.verb == Buck2Verb::Run,
        r.verbosity == args.verbose,
        text::views(r.args@) == run_arguments(
            target@,
            args.release,
            text::view_opt_str(platform),
            text::views(args.args@),
        ),
        text::views(r.args@) == seq![target@] + plan::release_args(args.release)
            + plan::platform_args(text::view_opt_str(platform)) + plan::passed_args(
            text::views(args.args@),
        ),
{
    let mut out: Vec<String> = Vec::new();
    proof {
        assert(text::views(out@) =~= Seq::<Seq<char>>::empty());
    }
    push_arg(&mut out, target);
    proof {
        assert(text::views(out@) =~= seq![target@]);
    }
    push_release(&mut out, args.release);
    push_platform(&mut out, platform);
    push_passed(&mut out, &args.args);
    Buck2Plan { verb: Buck2Verb::Run, verbosity: args.verbose, args: out }
}

/// The binaries of two lists of targets are those of the first and then those of the
/// second; the name and the label of a binary stand at the same place.
pub proof fn law_binaries_are_listed(
    a: Seq<BuckTargetEntry>,
    b: Seq<BuckTargetEntry>,
    t: BuckTargetEntry,
)
    ensures
        binary_names(a + b) == binary_names(a) + binary_names(b),
        binary_labels(a + b) == binary_labels(a) + binary_labels(b),
        t.kind == TargetKind::Bin ==> binary_names(seq![t]) == seq![t.name@] && binary_labels(
            seq![t],
        ) == seq![t.label@],
        t.kind != TargetKind::Bin ==> binary_names(seq![t]).len() == 0 && binary_labels(
            seq![t],
        ).len() == 0,
        binary_names(a).len() == binary_labels(a).len(),
    decreases b.len(),
{
    lemma_same_number(a);
    let one = seq![t];
    let none = Seq::<Seq<char>>::empty();
    assert(one.drop_last() =~= Seq::<BuckTargetEntry>::empty());
    assert(binary_names(one.drop_last()) =~= none);
    assert(binary_labels(one.drop_last()) =~= none);
    assert(one.last() == t);
    assert(none.push(t.name@) =~= seq![t.name@]);
    assert(none.push(t.label@) =~= seq![t.label@]);
    if b.len() == 0 {
        assert(a + b =~= a);
        assert(binary_names(a) + binary_names(b) =~= binary_names(a));
        assert(binary_labels(a) + binary_labels(b) =~= binary_labels(a));
    } else {
        law_binaries_are_listed(a, b.drop_last(), t);
        assert((a + b).drop_last() =~= a + b.drop_last());
        assert((a + b).last() == b.last());
        assert(binary_names(a + b) =~= binary_names(a) + binary_names(b));
        assert(binary_labels(a + b) =~= binary_labels(a) + binary_labels(b));
    }
}

/// A binary that is asked for by name is the first with that name, and it is an
/// error where there is none. Without a name there has to be just one binary; where
/// there are several, all of them are told.
pub proof fn law_which_binary_is_run(
    names: Seq<Seq<char>>,
    labels: Seq<Seq<char>>,
    name: Seq<char>,
    i: int,
)
    ensures
        0 <= i < names.len() && names[i] == name && (forall|j: int|
            0 <= j < i ==> #[trigger] names[j] != name) ==> binary_selected(
            names,
            labels,
            Some(name),
        ) == Ok::<Seq<char>, plan::FailureModel>(labels[i]),
        (forall|j: int| 0 <= j < names.len() ==> #[trigger] names[j] != name) ==> (binary_selected(
            names,
            labels,
            Some(name),
        ) matches Err(e) && e.error == "no bin target named `"@ + name
            + "` in the current package"@),
        names.len() == 1 ==> binary_selected(names, labels, None) == Ok::<
            Seq<char>,
            plan::FailureModel,
        >(labels[0]),
        names.len() == 0 ==> (binary_selected(names, labels, None) matches Err(e) && e.error
            == "no binary targets found in the current package"@),
        names.len() > 1 ==> (binary_selected(names, labels, None) matches Err(e) && e.error
            == "multiple binary targets found; specify one with `--bin <NAME>`:\n    "@
            + text::joined(names, "\n    "@)),
{
    if 0 <= i < names.len() && names[i] == name && (forall|j: int|
        0 <= j < i ==> #[trigger] names[j] != name) {
        lemma_name_at(names, name, i);
    }
    if forall|j: int| 0 <= j < names.len() ==> #[trigger] names[j] != name {
        lemma_name_at(names, name, names.len() as int);
    }
}

/// An example is run under its own label, whatever binaries there are; without one a
/// binary is run.
pub proof fn law_examples_come_first(
    example: Seq<char>,
    bin: Option<Seq<char>>,
    relative: Seq<char>,
    targets: Seq<BuckTargetEntry>,
)
    ensures
        run_target(Some(example), bin, relative, targets) == Ok::<Seq<char>, plan::FailureModel>(
            "//"@ + relative + ":"@ + example,
        ),
        run_target(None, bin, relative, targets) == binary_selected(
            binary_names(targets),
            binary_labels(targets),
            bin,
        ),
{
}

/// Each argument of the table has the value that was given for it, by its name.
pub proof fn law_run_arguments_by_name(a: RunArgs, v: Seq<cli::ValueModel>)
    requires
        is_run_args(a, v),
    ensures
        exists|x: cli::ValueModel| #[trigger]
            cli::is_value_of(run_table(), v, "release"@, x) && a.release == cli::flag_of(x),
        exists|x: cli::ValueModel| #[trigger]
            cli::is_value_of(run_table(), v, "verbose"@, x) && a.verbose == cli::count_of(x),
        exists|x: cli::ValueModel| #[trigger]
            cli::is_value_of(run_table(), v, "package"@, x) && text::view_opt(a.package) == cli::text_of(x),
        exists|x: cli::ValueModel| #[trigger]
            cli::is_value_of(run_table(), v, "bin"@, x) && text::view_opt(a.bin) == cli::text_of(x),
        exists|x: cli::ValueModel| #[trigger]
            cli::is_value_of(run_table(), v, "example"@, x) && text::view_opt(a.example) == cli::text_of(x),
        exists|x: cli::ValueModel| #[trigger]
            cli::is_value_of(run_table(), v, "target"@, x) && text::view_opt(a.target) == cli::text_of(x),
        exists|x: cli::ValueModel| #[trigger]
            cli::is_value_of(run_table(), v, "target_platforms"@, x) && text::view_opt(a.target_platforms) == cli::text_of(x),
        exists|x: cli::ValueModel| #[trigger]
            cli::is_value_of(run_table(), v, "args"@, x) && text::views(a.args@) == cli::texts_of(x),
{
    let t = run_table();
    assert(t[0].id == "release"@);
    assert(cli::is_value_of(t, v, "release"@, v[0]));
    assert(t[1].id == "verbose"@);
    assert(cli::is_value_of(t, v, "verbose"@, v[1]));
    assert(t[2].id == "package"@);
    assert(cli::is_value_of(t, v, "package"@, v[2]));
    assert(t[3].id == "bin"@);
    assert(cli::is_value_of(t, v, "bin"@, v[3]));
    assert(t[4].id == "example"@);
    assert(cli::is_value_of(t, v, "example"@, v[4]));
    assert(t[5].id == "target"@);
    assert(cli::is_value_of(t, v, "target"@, v[5]));
    assert(t[6].id == "target_platforms"@);
    assert(cli::is_value_of(t, v, "target_platforms"@, v[6]));
    assert(t[7].id == "args"@);
    assert(cli::is_value_of(t, v, "args"@, v[7]));
}

/// Each argument of the table with a long form is known by its name, with a hyphen
/// for each underscore; and a target triple and a platform exclude each other.
pub proof fn law_run_table(i: int)
    requires
        0 <= i < run_table().len(),
    ensures
        cli::named_by_its_id(run_table()[i]),
        run_table()[i].id == "target"@ ==> run_table()[i].conflicts == seq!["target_platforms"@],
        run_table()[i].id == "target_platforms"@ ==> run_table()[i].conflicts == seq!["target"@],
{
    reveal_strlit("args");
    reveal_strlit("bin");
    reveal_strlit("example");
    reveal_strlit("package");
    reveal_strlit("release");
    reveal_strlit("target");
    reveal_strlit("target-platforms");
    reveal_strlit("target_platforms");
    reveal_strlit("verbose");
    let t = run_table();
    assert(cli::named_by_its_id(t[0]));
    assert(cli::named_by_its_id(t[1]));
    assert(cli::named_by_its_id(t[2]));
    assert(cli::named_by_its_id(t[3]));
    assert(cli::named_by_its_id(t[4]));
    assert(cli::named_by_its_id(t[5]));
    assert(cli::named_by_its_id(t[6]));
    assert(cli::named_by_its_id(t[7]));
}

/// The target comes first, and what is handed on comes last, as it was given and
/// behind two hyphens; the mode and the platform stand between them, where they are
/// asked for.
pub proof fn law_run_arguments(
    target: Seq<char>,
    release: bool,
    platform: Option<Seq<char>>,
    args: Seq<Seq<char>>,
)
    ensures
        ({
            let all = run_arguments(target, release, platform, args);
            let options = all.len() - 1 - if args.len() > 0 {
                args.len() as int + 1
            } else {
                0
            };
            &&& all[0] == target
            &&& options == (if release {
                2int
            } else {
                0
            }) + (if platform is Some {
                2int
            } else {
                0
            })
            &&& args.len() > 0 ==> all[1 + options] == "--"@ && all.skip(2 + options) == args
            &&& release ==> all[1] == "-m"@ && all[2] == "release"@
            &&& platform matches Some(p) ==> all[options - 1] == "--target-platforms"@
                && all[options] == p
        }),
{
    let all = run_arguments(target, release, platform, args);
    if args.len() > 0 {
        assert(all.skip(all.len() - args.len()) =~= args);
    }
}

} // verus!
