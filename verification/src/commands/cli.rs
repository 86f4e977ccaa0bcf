//! The arguments of a subcommand, as a table.

use vstd::prelude::*;

use clap::{Arg, ArgAction, ArgMatches, Command};

use crate::commands::clippy::{parse_clippy, ClippyArgs};
use crate::commands::clippy;
use crate::commands::run::{parse_run, RunArgs};
use crate::commands::run;
use crate::commands::test::{parse_test, TestArgs};
use crate::text::same_text;
use crate::text;

verus! {

/// What an argument takes.
#[derive(Debug, Clone, Copy, PartialEq, Eq, Structural)]
pub enum ArgKind {
    /// Nothing; it counts how often it is given.
    Count,
    /// Nothing; it is given or not.
    Flag,
    /// One value.
    One,
    /// A value each time that it is given.
    Many,
    /// Everything behind `--`.
    Trailing,
}

/// An argument of a subcommand. One without a short or a long form is known by
/// its place.
#[derive(Debug)]
pub struct ArgSpec {
    pub id: &'static str,
    pub short: Option<char>,
    pub long: Option<&'static str>,
    pub kind: ArgKind,
    /// The arguments that it cannot be given together with.
    pub conflicts: Vec<&'static str>,
    /// Whether its value may start with a hyphen.
    pub hyphens: bool,
}

/// The model of an [`ArgSpec`].
pub ghost struct ArgModel {
    pub id: Seq<char>,
    pub short: Option<char>,
    pub long: Option<Seq<char>>,
    pub kind: ArgKind,
    pub conflicts: Seq<Seq<char>>,
    pub hyphens: bool,
}

impl View for ArgSpec {
    type V = ArgModel;

    open spec fn view(&self) -> ArgModel {
        ArgModel {
            id: self.id@,
            short: self.short,
            long: text::view_opt_str(self.long),
            kind: self.kind,
            conflicts: self.conflicts@.map_values(|s: &'static str| s@),
            hyphens: self.hyphens,
        }
    }
}

/// The models of a table.
pub open spec fn table_model(v: Seq<ArgSpec>) -> Seq<ArgModel> {
    v.map_values(|a: ArgSpec| a@)
}

/// What was given for an argument.
#[derive(Debug)]
pub enum ArgValue {
    Count(u8),
    Flag(bool),
    Texts(Vec<String>),
}

/// The model of an [`ArgValue`].
pub ghost enum ValueModel {
    Count(u8),
    Flag(bool),
    Texts(Seq<Seq<char>>),
}

impl View for ArgValue {
    type V = ValueModel;

    open spec fn view(&self) -> ValueModel {
        match *self {
            ArgValue::Count(n) => ValueModel::Count(n),
            ArgValue::Flag(b) => ValueModel::Flag(b),
            ArgValue::Texts(v) => ValueModel::Texts(text::views(v@)),
        }
    }
}

/// The models of a sequence of values.
pub open spec fn value_models(v: Seq<ArgValue>) -> Seq<ValueModel> {
    v.map_values(|a: ArgValue| a@)
}

/// Whether a value is one that an argument of this kind has.
pub open spec fn value_fits(kind: ArgKind, value: ValueModel) -> bool {
    match kind {
        ArgKind::Count => value is Count,
        ArgKind::Flag => value is Flag,
        _ => value is Texts,
    }
}

/// Whether these are values for the arguments of the table, one for each.
pub open spec fn values_fit(table: Seq<ArgModel>, values: Seq<ValueModel>) -> bool {
    &&& values.len() == table.len()
    &&& forall|i: int| 0 <= i < table.len() ==> value_fits(table[i].kind, #[trigger] values[i])
}

/// Whether no value is given for an argument.
pub open spec fn is_absent(value: ValueModel) -> bool {
    match value {
        ValueModel::Count(n) => n == 0,
        ValueModel::Flag(b) => !b,
        ValueModel::Texts(v) => v.len() == 0,
    }
}

/// Whether no two arguments are given that cannot be given together.
pub open spec fn conflict_free(table: Seq<ArgModel>, values: Seq<ValueModel>) -> bool {
    forall|i: int, j: int|
        #![trigger values[i], values[j]]
        0 <= i < table.len() && 0 <= j < table.len() && table[i].conflicts.contains(table[j].id)
            ==> is_absent(values[i]) || is_absent(values[j])
}

/// What `clap` found for the arguments of a command.
#[verifier::external_type_specification]
#[verifier::external_body]
pub struct ExArgMatches(ArgMatches);

/// The values that `clap` found, by argument.
pub uninterp spec fn found_values(found: ArgMatches) -> Map<Seq<char>, ValueModel>;

/// The values that `clap` finds in `argv` for the arguments of a table, by
/// argument, or nothing where it refuses `argv`.
pub uninterp spec fn clap_values(
    table: Seq<ArgModel>,
    argv: Seq<Seq<char>>,
) -> Option<Map<Seq<char>, ValueModel>>;

/// The values of the arguments of a table, in its order.
pub open spec fn in_table_order(
    table: Seq<ArgModel>,
    values: Map<Seq<char>, ValueModel>,
) -> Seq<ValueModel> {
    table.map_values(|a: ArgModel| values[a.id])
}

/// The values that `argv` gives the arguments of a table, in its order, or
/// nothing where `clap` refuses `argv`.
pub open spec fn given(table: Seq<ArgModel>, argv: Seq<Seq<char>>) -> Option<Seq<ValueModel>> {
    match clap_values(table, argv) {
        Some(values) => Some(in_table_order(table, values)),
        None => None,
    }
}

/// Whether this is the table of a subcommand.
pub open spec fn is_command_table(table: Seq<ArgModel>) -> bool {
    table == clippy::clippy_table() || table == run::run_table() || table
        == crate::commands::test::test_table()
}

/// `clap::Command::try_get_matches_from`, on a command with the arguments of a
/// table. The claim is that the outcome depends on the table and on `argv` alone,
/// that there is a value for each argument and of its kind, and that arguments
/// that conflict are not both given; how `clap` reads `argv` is left unsaid. A
/// table that does not make sense would make `clap` panic, so the table has to be
/// that of a subcommand.
#[verifier::external_body]
fn find_values(table: &Vec<ArgSpec>, argv: &Vec<String>) -> (r: Option<ArgMatches>)
    requires
        is_command_table(table_model(table@)),
    ensures
        clap_values(table_model(table@), text::views(argv@)) == match r {
            Some(found) => Some(found_values(found)),
            None => None,
        },
        r matches Some(found) ==> forall|i: int|
            0 <= i < table@.len() ==> found_values(found).contains_key(
                (#[trigger] table@[i]).id@,
            ),
        r matches Some(found) ==> ({
            let values = in_table_order(table_model(table@), found_values(found));
            &&& values_fit(table_model(table@), values)
            &&& conflict_free(table_model(table@), values)
        }),
{
    let args = table.iter().map(|s| {
        let arg = Arg::new(s.id).short(s.short).long(s.long).allow_hyphen_values(s.hyphens);
        let arg = arg.conflicts_with_all(s.conflicts.clone());
        match s.kind {
            ArgKind::Count => arg.action(ArgAction::Count),
            ArgKind::Flag => arg.action(ArgAction::SetTrue),
            ArgKind::One => arg.action(ArgAction::Set),
            ArgKind::Many => arg.action(ArgAction::Append),
            ArgKind::Trailing => arg.action(ArgAction::Append).num_args(1..).last(true),
        }
    });
    Command::new("buckal").args(args).try_get_matches_from(argv).ok()
}

/// `clap::ArgMatches::get_count`, `get_flag` and `get_many`, as the kind of the
/// argument asks: the value that was found for it.
#[verifier::external_body]
fn found_value(found: &ArgMatches, id: &'static str, kind: ArgKind) -> (r: ArgValue)
    requires
        found_values(*found).contains_key(id@),
        value_fits(kind, found_values(*found)[id@]),
    ensures
        r@ == found_values(*found)[id@],
{
    match kind {
        ArgKind::Count => ArgValue::Count(found.get_count(id)),
        ArgKind::Flag => ArgValue::Flag(found.get_flag(id)),
        _ => ArgValue::Texts(found.get_many::<String>(id).into_iter().flatten().cloned().collect()),
    }
}

/// The values that `argv` gives the arguments of a table, in its order.
pub(crate) fn parse_args(table: &Vec<ArgSpec>, argv: &Vec<String>) -> (r: Option<Vec<ArgValue>>)
    requires
        is_command_table(table_model(table@)),
    ensures
        given(table_model(table@), text::views(argv@)) == match r {
            Some(v) => Some(value_models(v@)),
            None => None,
        },
        r matches Some(v) ==> values_fit(table_model(table@), value_models(v@)),
        r matches Some(v) ==> conflict_free(table_model(table@), value_models(v@)),
{
    let found = match find_values(table, argv) {
        Some(found) => found,
        None => {
            return None;
        },
    };
    let ghost model = table_model(table@);
    let ghost values = in_table_order(model, found_values(found));
    let mut out: Vec<ArgValue> = Vec::new();
    let mut i: usize = 0;
    while i < table.len()
        invariant
            i <= table@.len(),
            model == table_model(table@),
            values == in_table_order(model, found_values(found)),
            values_fit(model, values),
            forall|j: int|
                0 <= j < table@.len() ==> found_values(found).contains_key(
                    (#[trigger] table@[j]).id@,
                ),
            out@.len() == i,
            forall|j: int| 0 <= j < i ==> (#[trigger] out@[j])@ == values[j],
        decreases table@.len() - i,
    {
        proof {
            assert(model[i as int] == table@[i as int]@);
            assert(values[i as int] == found_values(found)[table@[i as int].id@]);
            assert(value_fits(model[i as int].kind, values[i as int]));
        }
        out.push(found_value(&found, table[i].id, table[i].kind));
        i = i + 1;
    }
    proof {
        assert(value_models(out@) =~= values);
    }
    Some(out)
}

/// How often an argument was given.
pub open spec fn count_of(value: ValueModel) -> u8 {
    match value {
        ValueModel::Count(n) => n,
        _ => 0,
    }
}

/// Whether a flag was given.
pub open spec fn flag_of(value: ValueModel) -> bool {
    value matches ValueModel::Flag(b) && b
}

/// The values that were given.
pub open spec fn texts_of(value: ValueModel) -> Seq<Seq<char>> {
    match value {
        ValueModel::Texts(v) => v,
        _ => Seq::empty(),
    }
}

/// The value that was given, if any.
pub open spec fn text_of(value: ValueModel) -> Option<Seq<char>> {
    if texts_of(value).len() > 0 {
        Some(texts_of(value)[0])
    } else {
        None
    }
}

/// How often an argument was given.
pub fn as_count(value: &ArgValue) -> (r: u8)
    ensures
        r == count_of(value@),
{
    match value {
        ArgValue::Count(n) => *n,
        _ => 0,
    }
}

/// Whether a flag was given.
pub fn as_flag(value: &ArgValue) -> (r: bool)
    ensures
        r == flag_of(value@),
{
    match value {
        ArgValue::Flag(b) => *b,
        _ => false,
    }
}

/// The values that were given.
pub fn as_texts(value: &ArgValue) -> (r: Vec<String>)
    ensures
        text::views(r@) == texts_of(value@),
{
    match value {
        ArgValue::Texts(v) => crate::text::copy_texts(v),
        _ => {
            let out: Vec<String> = Vec::new();
            proof {
                assert(text::views(out@) =~= Seq::<Seq<char>>::empty());
            }
            out
        },
    }
}

/// The value that was given, if any.
pub fn as_text(value: &ArgValue) -> (r: Option<String>)
    ensures
        text::view_opt(r) == text_of(value@),
{
    match value {
        ArgValue::Texts(v) => if v.len() > 0 {
            proof {
                assert(text::views(v@)[0] == v@[0]@);
            }
            Some(v[0].clone())
        } else {
            None
        },
        _ => None,
    }
}

/// An argument that counts how often it is given.
pub open spec fn count_model(id: Seq<char>, short: char) -> ArgModel {
    ArgModel {
        id,
        short: Some(short),
        long: None,
        kind: ArgKind::Count,
        conflicts: Seq::empty(),
        hyphens: false,
    }
}

/// An argument with a long form.
pub open spec fn long_model(
    id: Seq<char>,
    short: Option<char>,
    long: Seq<char>,
    kind: ArgKind,
) -> ArgModel {
    ArgModel { id, short, long: Some(long), kind, conflicts: Seq::empty(), hyphens: false }
}

/// An argument that cannot be given together with another.
pub open spec fn either_model(id: Seq<char>, long: Seq<char>, other: Seq<char>) -> ArgModel {
    ArgModel {
        id,
        short: None,
        long: Some(long),
        kind: ArgKind::One,
        conflicts: seq![other],
        hyphens: false,
    }
}

/// An argument that is known by its place.
pub open spec fn placed_model(id: Seq<char>, kind: ArgKind) -> ArgModel {
    ArgModel { id, short: None, long: None, kind, conflicts: Seq::empty(), hyphens: false }
}

/// An argument that counts how often it is given.
pub fn counted(id: &'static str, short: char) -> (r: ArgSpec)
    ensures
        r@ == count_model(id@, short),
{
    let conflicts: Vec<&'static str> = Vec::new();
    let r = ArgSpec {
        id,
        short: Some(short),
        long: None,
        kind: ArgKind::Count,
        conflicts,
        hyphens: false,
    };
    proof {
        assert(r@.conflicts =~= Seq::<Seq<char>>::empty());
    }
    r
}

/// An argument with a long form.
pub fn long_form(id: &'static str, short: Option<char>, long: &'static str, kind: ArgKind) -> (r:
    ArgSpec)
    ensures
        r@ == long_model(id@, short, long@, kind),
{
    let conflicts: Vec<&'static str> = Vec::new();
    let r = ArgSpec { id, short, long: Some(long), kind, conflicts, hyphens: false };
    proof {
        assert(r@.conflicts =~= Seq::<Seq<char>>::empty());
    }
    r
}

/// An argument that cannot be given together with another.
pub fn either_form(id: &'static str, long: &'static str, other: &'static str) -> (r: ArgSpec)
    ensures
        r@ == either_model(id@, long@, other@),
{
    let mut conflicts: Vec<&'static str> = Vec::new();
    conflicts.push(other);
    let r = ArgSpec {
        id,
        short: None,
        long: Some(long),
        kind: ArgKind::One,
        conflicts,
        hyphens: false,
    };
    proof {
        assert(r@.conflicts =~= seq![other@]);
    }
    r
}

/// An argument that is known by its place.
pub fn placed(id: &'static str, kind: ArgKind) -> (r: ArgSpec)
    ensures
        r@ == placed_model(id@, kind),
{
    let conflicts: Vec<&'static str> = Vec::new();
    let r = ArgSpec { id, short: None, long: None, kind, conflicts, hyphens: false };
    proof {
        assert(r@.conflicts =~= Seq::<Seq<char>>::empty());
    }
    r
}

/// A subcommand, with its arguments.
#[derive(Debug)]
pub enum Subcommand {
    Clippy(ClippyArgs),
    Run(RunArgs),
    Test(TestArgs),
}

/// The texts from the position `from` on.
fn rest_of(argv: &Vec<String>, from: usize) -> (r: Vec<String>)
    requires
        from <= argv@.len(),
    ensures
        text::views(r@) == text::views(argv@).skip(from as int),
{
    let mut out: Vec<String> = Vec::new();
    let mut i: usize = from;
    while i < argv.len()
        invariant
            from <= i <= argv@.len(),
            out@.len() == i - from,
            forall|j: int| 0 <= j < i - from ==> (#[trigger] out@[j])@ == argv@[from + j]@,
        decreases argv@.len() - i,
    {
        out.push(argv[i].clone());
        i = i + 1;
    }
    proof {
        assert(text::views(out@) =~= text::views(argv@).skip(from as int));
    }
    out
}

/// Whether `argv` is a call of the subcommand `name`: the program, `buckal`, and
/// the name of the subcommand come first.
pub open spec fn calls(argv: Seq<Seq<char>>, name: Seq<char>) -> bool {
    argv.len() >= 3 && argv[1] == "buckal"@ && argv[2] == name
}

/// The subcommand that `argv` calls, if its arguments are in order.
pub fn parse_command(argv: &Vec<String>) -> (r: Option<Subcommand>)
    ensures
        ({
            let all = text::views(argv@);
            let own = all.skip(2);
            &&& calls(all, "clippy"@) ==> match given(clippy::clippy_table(), own) {
                Some(v) => r matches Some(Subcommand::Clippy(a)) && clippy::is_clippy_args(a, v),
                None => r is None,
            }
            &&& calls(all, "run"@) ==> match given(run::run_table(), own) {
                Some(v) => r matches Some(Subcommand::Run(a)) && run::is_run_args(a, v),
                None => r is None,
            }
            &&& calls(all, "test"@) ==> match given(
                crate::commands::test::test_table(),
                own,
            ) {
                Some(v) => match crate::commands::test::threads_of(v[15]) {
                    Ok(n) => r matches Some(Subcommand::Test(a))
                        && crate::commands::test::is_test_args(a, v) && a.num_threads == n,
                    Err(_) => r is None,
                },
                None => r is None,
            }
            &&& !calls(all, "clippy"@) && !calls(all, "run"@) && !calls(all, "test"@) ==> r is None
        }),
{
    if argv.len() < 3 || !same_text(argv[1].as_str(), "buckal") {
        return None;
    }
    proof {
        reveal_strlit("clippy");
        reveal_strlit("run");
        reveal_strlit("test");
        assert("clippy"@.len() != "run"@.len());
        assert("clippy"@.len() != "test"@.len());
        assert("run"@.len() != "test"@.len());
    }
    let name = argv[2].as_str();
    let own = rest_of(argv, 2);
    if same_text(name, "clippy") {
        match parse_clippy(&own) {
            Some(a) => Some(Subcommand::Clippy(a)),
            None => None,
        }
    } else if same_text(name, "run") {
        match parse_run(&own) {
            Some(a) => Some(Subcommand::Run(a)),
            None => None,
        }
    } else if same_text(name, "test") {
        match parse_test(&own) {
            Some(a) => Some(Subcommand::Test(a)),
            None => None,
        }
    } else {
        None
    }
}

/// A value is read as what it is, and as nothing where it is something else.
pub proof fn law_values_are_read(n: u8, b: bool, v: Seq<Seq<char>>)
    ensures
        count_of(ValueModel::Count(n)) == n,
        count_of(ValueModel::Flag(b)) == 0 && count_of(ValueModel::Texts(v)) == 0,
        flag_of(ValueModel::Flag(b)) == b,
        !flag_of(ValueModel::Count(n)) && !flag_of(ValueModel::Texts(v)),
        texts_of(ValueModel::Texts(v)) == v,
        texts_of(ValueModel::Count(n)).len() == 0 && texts_of(ValueModel::Flag(b)).len() == 0,
        v.len() > 0 ==> text_of(ValueModel::Texts(v)) == Some(v[0]),
        v.len() == 0 ==> text_of(ValueModel::Texts(v)) is None,
        text_of(ValueModel::Count(n)) is None && text_of(ValueModel::Flag(b)) is None,
{
}

/// A subcommand is called by its name behind the program and `buckal`, whatever
/// follows.
pub proof fn law_subcommand_is_the_third_word(
    program: Seq<char>,
    name: Seq<char>,
    other: Seq<char>,
    rest: Seq<Seq<char>>,
)
    ensures
        calls(seq![program, "buckal"@, name] + rest, name),
        calls(seq![program, "buckal"@, name] + rest, other) <==> other == name,
        !calls(seq![program, "buckal"@], name),
        !calls(seq![program], name),
{
}

/// Whether an argument is known by its name with a hyphen for each underscore, if it
/// has a long form.
pub open spec fn named_by_its_id(a: ArgModel) -> bool {
    a.long is Some ==> a.long->0.len() == a.id.len() && forall|k: int|
        0 <= k < a.id.len() ==> #[trigger] a.long->0[k] == if a.id[k] == '_' {
            '-'
        } else {
            a.id[k]
        }
}

/// Whether `value` is the one at the place of the argument `id`.
pub open spec fn is_value_of(
    table: Seq<ArgModel>,
    values: Seq<ValueModel>,
    id: Seq<char>,
    value: ValueModel,
) -> bool {
    exists|i: int| 0 <= i < table.len() && (#[trigger] table[i]).id == id && values[i] == value
}

} // verus!
