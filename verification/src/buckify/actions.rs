//! The generated files: what is carried over from the file that was there, and
//! what is written.
//!
//! A generated file has two parts. The part above the ownership marker is the
//! generator's and is replaced; what stands below it is the user's.

use vstd::prelude::*;
use vstd::utf8::*;

use crate::buckify::starlark::{parse_statements, StarlarkArg, StarlarkStmt, StarlarkValue};
use crate::buckify::starlark;
use crate::buckify::windows::{
    patch_buildscript_windows_rustc_flags, patch_root_windows_rustc_flags, UnvendoredProvider,
};
use crate::buckify::windows;
use crate::cache::{BuckalChange, ChangeType};
use crate::error::{Error, Notice, NoticeModel};
use crate::error;
use crate::paths;
use crate::resolve::{BuckalDep, BuckalNode, NodeKind, PackageId};
use crate::sorted::StringSet;
use crate::sorted;
use crate::text::{
    chars_of, contains_text, find, is_text, join, number, same_text, text_between, trim, trim_end,
};
use crate::text;

verus! {

/// Whether `node` is a vendored package.
pub fn is_third_party(node: &BuckalNode) -> (r: bool)
    ensures
        r == node.third_party(),
{
    match node.kind {
        NodeKind::ThirdParty => true,
        NodeKind::FirstParty { .. } => false,
    }
}

/// A name that a `load` statement binds.
#[derive(Debug)]
pub struct LoadBinding {
    /// The name that the file uses.
    pub local: String,
    /// The name that the loaded module gives it.
    pub exported: String,
}

impl LoadBinding {
    /// Whether the file uses a name of its own.
    pub open spec fn aliases(&self) -> bool {
        self.local@ != self.exported@
    }

    /// Whether the file uses a name of its own.
    pub fn is_alias(&self) -> (r: bool)
        ensures
            r == self.aliases(),
    {
        !same_text(self.local.as_str(), self.exported.as_str())
    }
}

/// A statement at the top level of a BUCK file.
#[derive(Debug)]
pub struct BuckStatement {
    /// The source of the statement.
    pub text: String,
    /// The byte position at which it starts.
    pub start: usize,
    /// The byte position at which it ends.
    pub end: usize,
    pub is_load: bool,
    /// The module that a `load` statement names.
    pub load_module: Option<String>,
    /// The names that a `load` statement binds.
    pub load_bindings: Vec<LoadBinding>,
    /// The `name` that the statement gives a target.
    pub target_name: Option<String>,
    /// The name of the function that the statement calls.
    pub call_name: Option<String>,
}

/// Whether the generator writes `load` statements for this module.
pub open spec fn generated_module(module: Seq<char>) -> bool {
    module == "@buckal//:wrapper.bzl"@ || module == "@buckal//:cargo_manifest.bzl"@
}

/// Whether the generator writes `load` statements for this module.
pub fn is_generated_load_module(module: &str) -> (r: bool)
    ensures
        r == generated_module(module@),
{
    same_text(module, "@buckal//:wrapper.bzl") || same_text(module, "@buckal//:cargo_manifest.bzl")
}

/// Whether one of the bindings uses a name of its own.
pub open spec fn any_alias(bindings: Seq<LoadBinding>) -> bool {
    exists|i: int| 0 <= i < bindings.len() && (#[trigger] bindings[i]).aliases()
}

/// Whether a statement of a file without a marker is the user's. A `load`
/// statement is, unless the generator writes one for the module and the
/// statement binds no alias. So is every other statement but one that declares a
/// target that the generator declares now.
pub open spec fn is_users(stmt: BuckStatement, generated: Seq<Seq<char>>) -> bool {
    if stmt.is_load {
        !(stmt.load_module matches Some(m) && generated_module(m@)) || any_alias(
            stmt.load_bindings@,
        )
    } else {
        !(stmt.target_name matches Some(n) && generated.contains(n@))
    }
}

/// The texts of the user's statements, without the white space they end with.
pub open spec fn users_texts(
    statements: Seq<BuckStatement>,
    generated: Seq<Seq<char>>,
) -> Seq<Seq<char>>
    decreases statements.len(),
{
    if statements.len() == 0 {
        Seq::empty()
    } else {
        let before = users_texts(statements.drop_last(), generated);
        let stmt = statements.last();
        let source = text::trim_end_of(stmt.text@);
        if is_users(stmt, generated) && source.len() > 0 {
            before.push(source)
        } else {
            before
        }
    }
}

/// The warning for `count` statements that were moved below the marker.
pub open spec fn moved_warning(buck_path: Seq<char>, count: nat) -> Seq<char> {
    buck_path + ": "@ + text::decimal(count)
        + " statement(s) predating the manual-section marker were moved below it. Rules you added by hand belong there; delete any left over from a target this package no longer has."@
}

/// Whether a statement of a file without a marker is the user's.
fn users_statement(stmt: &BuckStatement, generated: &Vec<String>) -> (r: bool)
    ensures
        r == is_users(*stmt, text::views(generated@)),
{
    if stmt.is_load {
        let ours = match &stmt.load_module {
            Some(module) => is_generated_load_module(module.as_str()),
            None => false,
        };
        if !ours {
            return true;
        }
        let mut i: usize = 0;
        while i < stmt.load_bindings.len()
            invariant
                i <= stmt.load_bindings@.len(),
                stmt.is_load,
                forall|j: int| 0 <= j < i ==> !(#[trigger] stmt.load_bindings@[j]).aliases(),
            decreases stmt.load_bindings@.len() - i,
        {
            if stmt.load_bindings[i].is_alias() {
                proof {
                    assert(stmt.load_bindings@[i as int].aliases());
                    assert(any_alias(stmt.load_bindings@));
                }
                return true;
            }
            i = i + 1;
        }
        false
    } else {
        match &stmt.target_name {
            Some(name) => !contains_text(generated, name.as_str()),
            None => true,
        }
    }
}

/// The manual section of a file that was written before there was a marker: the
/// user's statements, with an empty line between them. `generated` are the names
/// of the targets that the generator declares.
pub fn bootstrap_manual_section(
    statements: &Vec<BuckStatement>,
    buck_path: &str,
    generated: &Vec<String>,
    notices: &mut Vec<Notice>,
) -> (r: String)
    ensures
        ({
            let kept = users_texts(statements@, text::views(generated@));
            &&& r@ == if kept.len() == 0 {
                Seq::empty()
            } else {
                text::joined(kept, "\n\n"@) + "\n"@
            }
            &&& error::notice_models(final(notices)@) == if kept.len() == 0 {
                error::notice_models(old(notices)@)
            } else {
                error::notice_models(old(notices)@).push(
                    NoticeModel::Warning(moved_warning(buck_path@, kept.len())),
                )
            }
        }),
{
    let mut kept: Vec<String> = Vec::new();
    let ghost names = text::views(generated@);
    let mut i: usize = 0;
    while i < statements.len()
        invariant
            i <= statements@.len(),
            names == text::views(generated@),
            text::views(kept@) == users_texts(statements@.take(i as int), names),
        decreases statements@.len() - i,
    {
        proof {
            assert(statements@.take(i + 1).drop_last() =~= statements@.take(i as int));
        }
        let ghost before = text::views(kept@);
        if users_statement(&statements[i], generated) {
            let source = trim_end(statements[i].text.as_str());
            if !source.as_str().is_empty() {
                kept.push(source);
                proof {
                    assert(text::views(kept@) =~= before.push(source@));
                }
            }
        }
        i = i + 1;
    }
    proof {
        assert(statements@.take(i as int) =~= statements@);
        assert(text::views(kept@).len() == kept@.len());
    }
    if kept.len() == 0 {
        return String::new();
    }
    let mut message = buck_path.to_owned();
    message.append(": ");
    message.append(number(kept.len()).as_str());
    message.append(
        " statement(s) predating the manual-section marker were moved below it. Rules you added by hand belong there; delete any left over from a target this package no longer has.",
    );
    let notice = Notice::Warning(message);
    let ghost n = notice@;
    notices.push(notice);
    proof {
        assert(error::notice_models(notices@) =~= error::notice_models(old(notices)@).push(n));
    }
    let mut out = join(&kept, "\n\n");
    out.append("\n");
    out
}

/// The names that the `load` statements bind.
pub open spec fn bound_names(statements: Seq<BuckStatement>) -> Set<Seq<char>> {
    Set::new(
        |name: Seq<char>|
            exists|i: int, j: int|
                0 <= i < statements.len() && statements[i].is_load && 0 <= j
                    < statements[i].load_bindings@.len() && (
                #[trigger] statements[i].load_bindings@[j]).local@ == name,
    )
}

/// Whether one of the statements binds `name`.
fn binds(statements: &Vec<BuckStatement>, name: &str) -> (r: bool)
    ensures
        r == bound_names(statements@).contains(name@),
{
    let mut i: usize = 0;
    while i < statements.len()
        invariant
            i <= statements@.len(),
            forall|k: int, j: int|
                0 <= k < i && statements@[k].is_load && 0 <= j
                    < statements@[k].load_bindings@.len() ==> (
                #[trigger] statements@[k].load_bindings@[j]).local@ != name@,
        decreases statements@.len() - i,
    {
        if statements[i].is_load {
            let bindings = &statements[i].load_bindings;
            let mut j: usize = 0;
            while j < bindings.len()
                invariant
                    i < statements@.len(),
                    statements@[i as int].is_load,
                    bindings@ == statements@[i as int].load_bindings@,
                    j <= bindings@.len(),
                    forall|k: int| 0 <= k < j ==> (#[trigger] bindings@[k]).local@ != name@,
                decreases bindings@.len() - j,
            {
                if same_text(bindings[j].local.as_str(), name) {
                    proof {
                        assert(statements@[i as int].load_bindings@[j as int].local@ == name@);
                    }
                    return true;
                }
                j = j + 1;
            }
        }
        i = i + 1;
    }
    false
}

/// The symbols to load for a manual section: those of `symbols` that it refers
/// to and does not bind. Of a section that does not parse nothing is known, and
/// nothing is loaded for it.
pub open spec fn loads_needed(
    statements: Option<Seq<BuckStatement>>,
    referenced: Option<Seq<Seq<char>>>,
    symbols: Seq<Seq<char>>,
) -> Set<Seq<char>> {
    match (statements, referenced) {
        (Some(statements), Some(referenced)) => referenced.to_set().filter(
            |name: Seq<char>| symbols.contains(name) && !bound_names(statements).contains(name),
        ),
        _ => Set::empty(),
    }
}

/// The symbols to load for a manual section. `statements` are its statements and
/// `referenced` the identifiers that it refers to, if it parses; `symbols` are
/// the symbols that the generator can load.
pub fn loads_for(
    statements: Option<&Vec<BuckStatement>>,
    referenced: Option<&Vec<String>>,
    symbols: &Vec<String>,
) -> (r: StringSet)
    ensures
        r@ == loads_needed(
            match statements {
                Some(s) => Some(s@),
                None => None,
            },
            match referenced {
                Some(names) => Some(text::views(names@)),
                None => None,
            },
            text::views(symbols@),
        ),
{
    let mut out = StringSet::new();
    let (statements, referenced) = match (statements, referenced) {
        (Some(statements), Some(referenced)) => (statements, referenced),
        _ => {
            return out;
        },
    };
    let ghost wanted = |name: Seq<char>|
        text::views(symbols@).contains(name) && !bound_names(statements@).contains(name);
    let ghost all = text::views(referenced@);
    let mut i: usize = 0;
    proof {
        assert(out@ =~= all.take(0).to_set().filter(wanted));
    }
    while i < referenced.len()
        invariant
            i <= referenced@.len(),
            all == text::views(referenced@),
            wanted == (|name: Seq<char>|
                text::views(symbols@).contains(name) && !bound_names(statements@).contains(name)),
            out@ == all.take(i as int).to_set().filter(wanted),
        decreases referenced@.len() - i,
    {
        let name = referenced[i].as_str();
        let ghost before = out@;
        if contains_text(symbols, name) && !binds(statements, name) {
            out.insert(name.to_owned());
        }
        proof {
            sorted::lemma_take_to_set(all, i as int);
            assert(all[i as int] == name@);
            assert(all.take(i + 1).to_set().filter(wanted) =~= if wanted(name@) {
                before.insert(name@)
            } else {
                before
            });
        }
        i = i + 1;
    }
    proof {
        assert(all.take(i as int) =~= all);
    }
    out
}

/// A rule of a generated file.
#[derive(Debug)]
pub struct Rule {
    pub kind: RuleKind,
    /// The name of the target that the rule declares.
    pub name: Option<String>,
    /// The source of the rule.
    pub text: String,
}

/// The kinds of rules that are told apart here.
#[derive(Debug, Clone, Copy, PartialEq, Eq, Structural)]
pub enum RuleKind {
    Load,
    ExportFile,
    Other,
}

/// Whether a rule exports the workspace manifest.
pub open spec fn is_workspace_export(rule: Rule) -> bool {
    rule.kind == RuleKind::ExportFile && (rule.name matches Some(n) && n@ == "workspace"@)
}

/// The position of the first rule that exports the workspace manifest, or the
/// number of rules.
pub open spec fn workspace_export_at(rules: Seq<Rule>) -> int
    decreases rules.len(),
{
    if rules.len() == 0 || is_workspace_export(rules[0]) {
        0
    } else {
        1 + workspace_export_at(rules.drop_first())
    }
}

proof fn lemma_workspace_export_at(rules: Seq<Rule>, i: int)
    requires
        0 <= i <= rules.len(),
        forall|j: int| 0 <= j < i ==> !is_workspace_export(#[trigger] rules[j]),
        i < rules.len() ==> is_workspace_export(rules[i]),
    ensures
        workspace_export_at(rules) == i,
    decreases i,
{
    if i > 0 {
        assert(!is_workspace_export(rules[0]));
        let rest = rules.drop_first();
        assert forall|j: int| 0 <= j < i - 1 implies !is_workspace_export(#[trigger] rest[j]) by {
            assert(rest[j] == rules[j + 1]);
        }
        lemma_workspace_export_at(rest, i - 1);
    }
}

/// A list of rules with the export of the workspace manifest.
pub open spec fn with_export(rules: Seq<Rule>, export: Rule) -> Seq<Rule> {
    let at = workspace_export_at(rules);
    if at < rules.len() {
        rules.update(at, export)
    } else {
        rules.push(export)
    }
}

/// Puts the export of the workspace manifest into a list of rules: in the place
/// of the first one that is there, or else at the end.
pub fn upsert_workspace_export(rules: &mut Vec<Rule>, export: Rule)
    ensures
        final(rules)@ == with_export(old(rules)@, export),
        ({
            let at = workspace_export_at(old(rules)@);
            final(rules)@ == if at < old(rules)@.len() {
                old(rules)@.update(at, export)
            } else {
                old(rules)@.push(export)
            }
        }),
{
    let mut i: usize = 0;
    while i < rules.len()
        invariant
            i <= rules@.len(),
            rules@ == old(rules)@,
            forall|j: int| 0 <= j < i ==> !is_workspace_export(#[trigger] rules@[j]),
        decreases rules@.len() - i,
    {
        if rules[i].kind == RuleKind::ExportFile && is_text(&rules[i].name, "workspace") {
            proof {
                lemma_workspace_export_at(old(rules)@, i as int);
            }
            rules.set(i, export);
            return;
        }
        i = i + 1;
    }
    proof {
        lemma_workspace_export_at(old(rules)@, i as int);
    }
    rules.push(export);
}

/// The position of the first statement that exports the workspace manifest, or
/// the number of statements.
pub open spec fn export_statement_at(statements: Seq<BuckStatement>) -> int
    decreases statements.len(),
{
    if statements.len() == 0 || exports_workspace(statements[0]) {
        0
    } else {
        1 + export_statement_at(statements.drop_first())
    }
}

/// Whether a statement exports the workspace manifest.
pub open spec fn exports_workspace(stmt: BuckStatement) -> bool {
    &&& stmt.call_name matches Some(c) && c@ == "export_file"@
    &&& stmt.target_name matches Some(n) && n@ == "workspace"@
}

proof fn lemma_export_statement_at(statements: Seq<BuckStatement>, i: int)
    requires
        0 <= i <= statements.len(),
        forall|j: int| 0 <= j < i ==> !exports_workspace(#[trigger] statements[j]),
        i < statements.len() ==> exports_workspace(statements[i]),
    ensures
        export_statement_at(statements) == i,
    decreases i,
{
    if i > 0 {
        assert(!exports_workspace(statements[0]));
        let rest = statements.drop_first();
        assert forall|j: int| 0 <= j < i - 1 implies !exports_workspace(#[trigger] rest[j]) by {
            assert(rest[j] == statements[j + 1]);
        }
        lemma_export_statement_at(rest, i - 1);
    }
}

/// Whether the statement stands in `content`, between characters.
pub open spec fn stands_in(stmt: BuckStatement, content: Seq<char>) -> bool {
    let bytes = encode_utf8(content);
    &&& stmt.start <= stmt.end <= bytes.len()
    &&& is_char_boundary(bytes, stmt.start as int)
    &&& is_char_boundary(bytes, stmt.end as int)
}

/// `content` with the export `rendered` of the workspace manifest. Where a
/// statement exports it already, the bytes of that statement are replaced and
/// every other byte stays. Else the export comes at the end.
pub open spec fn with_workspace_export(
    content: Seq<char>,
    rendered: Seq<char>,
    statements: Seq<BuckStatement>,
) -> Seq<u8> {
    let bytes = encode_utf8(content);
    let at = export_statement_at(statements);
    let export = text::trim_end_of(rendered);
    if at < statements.len() {
        let stmt = statements[at];
        bytes.take(stmt.start as int) + encode_utf8(export) + bytes.skip(stmt.end as int)
    } else {
        encode_utf8(text::trim_end_of(content) + "\n\n"@ + export + "\n"@)
    }
}

/// The encoding of two texts is that of the first and then that of the second.
pub proof fn lemma_encode_concat(a: Seq<char>, b: Seq<char>)
    ensures
        encode_utf8(a + b) == encode_utf8(a) + encode_utf8(b),
    decreases a.len(),
{
    if a.len() == 0 {
        assert(a + b =~= b);
    } else {
        lemma_encode_concat(a.drop_first(), b);
        assert((a + b).drop_first() =~= a.drop_first() + b);
        assert((a + b)[0] == a[0]);
    }
}

/// Puts the export of the workspace manifest into a file that the generator does
/// not own, and leaves everything else in it alone. `statements` are those of
/// `content`.
pub fn splice_workspace_export(
    content: &str,
    rendered: &str,
    statements: &Vec<BuckStatement>,
) -> (r: String)
    requires
        export_statement_at(statements@) < statements@.len() ==> stands_in(
            statements@[export_statement_at(statements@)],
            content@,
        ),
    ensures
        encode_utf8(r@) == with_workspace_export(content@, rendered@, statements@),
{
    let export = trim_end(rendered);
    let mut i: usize = 0;
    while i < statements.len()
        invariant
            i <= statements@.len(),
            export_statement_at(statements@) < statements@.len() ==> stands_in(
                statements@[export_statement_at(statements@)],
                content@,
            ),
            export@ == text::trim_end_of(rendered@),
            forall|j: int| 0 <= j < i ==> !exports_workspace(#[trigger] statements@[j]),
        decreases statements@.len() - i,
    {
        let stmt = &statements[i];
        if is_text(&stmt.call_name, "export_file") && is_text(&stmt.target_name, "workspace") {
            proof {
                lemma_export_statement_at(statements@, i as int);
            }
            let head = content.split_at(stmt.start).0;
            let tail = content.split_at(stmt.end).1;
            let mut out = head.to_owned();
            out.append(export.as_str());
            out.append(tail);
            proof {
                lemma_encode_concat(head@, export@);
                lemma_encode_concat(head@ + export@, tail@);
                let bytes = encode_utf8(content@);
                assert(bytes.take(stmt.start as int) =~= bytes.subrange(0, stmt.start as int));
                assert(bytes.skip(stmt.end as int) =~= bytes.subrange(
                    stmt.end as int,
                    bytes.len() as int,
                ));
            }
            return out;
        }
        i = i + 1;
    }
    proof {
        lemma_export_statement_at(statements@, i as int);
    }
    let mut out = trim_end(content);
    out.append("\n\n");
    out.append(export.as_str());
    out.append("\n");
    out
}

/// The name that a call with these arguments gives a target: that of its first
/// `name` argument with a text.
pub open spec fn name_argument(args: Seq<starlark::ArgModel>) -> Option<Seq<char>>
    decreases args.len(),
{
    if args.len() == 0 {
        None
    } else if args[0].name == Some("name"@) && args[0].value is Text {
        Some(args[0].value->Text_0)
    } else {
        name_argument(args.drop_first())
    }
}

/// The name that a statement gives a target.
pub open spec fn declared_name(stmt: starlark::StmtModel) -> Option<Seq<char>> {
    match stmt {
        starlark::StmtModel::Call(_, args) => name_argument(args),
        starlark::StmtModel::Other => None,
    }
}

/// The names that the statements give targets and that stand in `generated` too,
/// in the order of the statements.
pub open spec fn clashes(
    statements: Seq<starlark::StmtModel>,
    generated: Seq<Seq<char>>,
) -> Seq<Seq<char>>
    decreases statements.len(),
{
    if statements.len() == 0 {
        Seq::empty()
    } else {
        let before = clashes(statements.drop_last(), generated);
        match declared_name(statements.last()) {
            Some(name) if generated.contains(name) => before.push(name),
            _ => before,
        }
    }
}

/// The names of the targets that a manual section declares and the generator
/// declares too. Of a section that does not parse nothing is known.
pub open spec fn section_clashes(
    statements: Option<Seq<starlark::StmtModel>>,
    generated: Seq<Seq<char>>,
) -> Seq<Seq<char>> {
    match statements {
        Some(statements) => clashes(statements, generated),
        None => Seq::empty(),
    }
}

/// The models of a sequence of arguments.
pub open spec fn arg_models(args: Seq<StarlarkArg>) -> Seq<starlark::ArgModel> {
    Seq::new(args.len(), |i: int| args[i]@)
}

/// The name that a call with these arguments gives a target.
fn find_name(args: &Vec<StarlarkArg>) -> (r: Option<&String>)
    ensures
        name_argument(arg_models(args@)) == match r {
            Some(s) => Some(s@),
            None => None,
        },
{
    let mut i: usize = 0;
    let ghost models = arg_models(args@);
    proof {
        assert(models.skip(0) =~= models);
    }
    while i < args.len()
        invariant
            i <= args@.len(),
            models == arg_models(args@),
            name_argument(models) == name_argument(models.skip(i as int)),
        decreases args@.len() - i,
    {
        proof {
            assert(models.skip(i as int)[0] == args@[i as int]@);
            assert(models.skip(i as int).drop_first() =~= models.skip(i + 1));
        }
        if is_text(&args[i].name, "name") {
            if let StarlarkValue::Text(s) = &args[i].value {
                return Some(s);
            }
        }
        i = i + 1;
    }
    None
}

/// The names of the targets that the statements of a manual section declare and
/// that are among `generated` too.
pub fn colliding_in(statements: &Vec<StarlarkStmt>, generated: &Vec<String>) -> (r: Vec<String>)
    ensures
        text::views(r@) == clashes(starlark::stmt_models(statements@), text::views(generated@)),
{
    let mut out: Vec<String> = Vec::new();
    let mut i: usize = 0;
    let ghost models = starlark::stmt_models(statements@);
    let ghost names = text::views(generated@);
    while i < statements.len()
        invariant
            i <= statements@.len(),
            models == starlark::stmt_models(statements@),
            names == text::views(generated@),
            text::views(out@) == clashes(models.take(i as int), names),
        decreases statements@.len() - i,
    {
        proof {
            assert(models.take(i + 1).drop_last() =~= models.take(i as int));
            assert(models[i as int] == statements@[i as int]@);
        }
        if let StarlarkStmt::Call(_, args) = &statements[i] {
            proof {
                assert(arg_models(args@) =~= Seq::new(args@.len(), |k: int| args@[k]@));
            }
            if let Some(name) = find_name(args) {
                if contains_text(generated, name.as_str()) {
                    let ghost before = text::views(out@);
                    out.push(name.clone());
                    proof {
                        assert(text::views(out@) =~= before.push(name@));
                    }
                }
            }
        }
        i = i + 1;
    }
    proof {
        assert(models.take(i as int) =~= models);
    }
    out
}

/// The names of the targets that the manual section `manual` declares and that
/// are among `generated` too.
pub fn colliding_target_names(manual: &str, generated: &Vec<String>) -> (r: Vec<String>)
    ensures
        text::views(r@) == section_clashes(
            starlark::statements_of(manual@),
            text::views(generated@),
        ),
{
    match parse_statements(manual) {
        Some(statements) => colliding_in(&statements, generated),
        None => {
            let out: Vec<String> = Vec::new();
            proof {
                assert(text::views(out@) =~= Seq::<Seq<char>>::empty());
            }
            out
        },
    }
}

/// The message for a manual section that declares targets of the generator.
pub open spec fn collision_message(buck_path: Seq<char>, names: Seq<Seq<char>>) -> Seq<char> {
    buck_path + ": the manual section declares target(s) "@ + text::joined(names, ", "@)
        + " that cargo-buckal now generates. Buck target names are unique within a package, so this file was left unchanged. Rename the target(s) below the manual marker and re-run."@
}

/// Fails where there are names that a manual section shares with the generator.
pub fn reject_names(names: &Vec<String>, buck_path: &str) -> (r: Result<(), Error>)
    ensures
        r is Ok <==> names@.len() == 0,
        r matches Err(e) ==> e@ == seq![collision_message(buck_path@, text::views(names@))],
{
    if names.len() == 0 {
        return Ok(());
    }
    let mut message = buck_path.to_owned();
    message.append(": the manual section declares target(s) ");
    message.append(join(names, ", ").as_str());
    message.append(
        " that cargo-buckal now generates. Buck target names are unique within a package, so this file was left unchanged. Rename the target(s) below the manual marker and re-run.",
    );
    Err(Error::new(message))
}

/// Fails where the manual section declares a target that is among `generated`
/// too: a package with both could not be loaded.
pub fn reject_name_collisions(manual: &str, buck_path: &str, generated: &Vec<String>) -> (r: Result<
    (),
    Error,
>)
    ensures
        ({
            let names = section_clashes(
                starlark::statements_of(manual@),
                text::views(generated@),
            );
            &&& r is Ok <==> names.len() == 0
            &&& r matches Err(e) ==> e@ == seq![collision_message(buck_path@, names)]
        }),
{
    let names = colliding_target_names(manual, generated);
    proof {
        assert(text::views(names@).len() == names@.len());
    }
    reject_names(&names, buck_path)
}

/// The two parts of a file: what stands before the first marker, and what stands
/// behind it. A file without a marker has no such parts.
pub open spec fn sections(content: Seq<char>, marker: Seq<char>) -> Option<(Seq<char>, Seq<char>)> {
    match text::first_at(content, marker) {
        Some(i) => Some((content.take(i), content.skip(i + marker.len()))),
        None => None,
    }
}

/// The two parts of a file, if it has a marker.
pub fn split_sections(content: &str, marker: &str) -> (r: Option<(String, String)>)
    ensures
        sections(content@, marker@) == match r {
            Some((generated, manual)) => Some((generated@, manual@)),
            None => None,
        },
{
    let chars = chars_of(content);
    let pattern = chars_of(marker);
    match find(&chars, &pattern) {
        Some(i) => {
            let end = chars.len();
            assert(i + pattern@.len() <= end);
            let generated = text_between(&chars, 0, i);
            let manual = text_between(&chars, i + pattern.len(), end);
            proof {
                assert(chars@.subrange(0, i as int) =~= chars@.take(i as int));
                assert(chars@.subrange(i + pattern@.len(), chars@.len() as int) =~= chars@.skip(
                    i + pattern@.len(),
                ));
            }
            Some((generated, manual))
        },
        None => None,
    }
}

/// A generated file: the generated content, the marker, and the manual section,
/// if there is one. The marker is always there.
pub open spec fn closed_with(
    content: Seq<char>,
    manual: Seq<char>,
    marker: Seq<char>,
) -> Seq<char> {
    text::trim_end_of(content) + "\n\n"@ + marker + "\n"@ + if text::trim_of(manual).len() == 0 {
        Seq::empty()
    } else {
        "\n"@ + text::trim_end_of(manual) + "\n"@
    }
}

/// Closes the generated content with the marker, and puts the manual section
/// below it.
pub fn append_manual_section(buck_content: &str, manual: &str, marker: &str) -> (r: String)
    ensures
        r@ == closed_with(buck_content@, manual@, marker@),
{
    let mut out = trim_end(buck_content);
    out.append("\n\n");
    out.append(marker);
    out.append("\n");
    if !trim(manual).as_str().is_empty() {
        out.append("\n");
        out.append(trim_end(manual).as_str());
        out.append("\n");
    }
    proof {
        assert(out@ =~= closed_with(buck_content@, manual@, marker@));
    }
    out
}

/// The manual section that a run of the generator carries over, or why it stops.
/// `statements` are those of the whole file, or the messages of the error where it
/// does not parse.
pub open spec fn carried(
    existing: Option<Seq<char>>,
    no_merge: bool,
    marker: Seq<char>,
    statements: Result<Seq<BuckStatement>, Seq<Seq<char>>>,
    buck_path: Seq<char>,
    generated: Seq<Seq<char>>,
) -> Result<Seq<char>, Seq<Seq<char>>> {
    match existing {
        None => Ok(Seq::empty()),
        Some(content) => if no_merge {
            Ok(Seq::empty())
        } else {
            match sections(content, marker) {
                Some((_, manual)) => {
                    let section = text::trim_of(manual);
                    let names = section_clashes(starlark::statements_of(section), generated);
                    if names.len() == 0 {
                        Ok(section)
                    } else {
                        Err(seq![collision_message(buck_path, names)])
                    }
                },
                None => match statements {
                    Err(cause) => Err(seq!["Failed to parse "@ + buck_path] + cause),
                    Ok(statements) => {
                        let kept = users_texts(statements, generated);
                        if kept.len() == 0 {
                            Ok(Seq::empty())
                        } else {
                            Ok(text::joined(kept, "\n\n"@) + "\n"@)
                        }
                    },
                },
            }
        },
    }
}

/// What there is to tell the user about what is carried over.
pub open spec fn carried_notices(
    existing: Option<Seq<char>>,
    no_merge: bool,
    marker: Seq<char>,
    statements: Result<Seq<BuckStatement>, Seq<Seq<char>>>,
    buck_path: Seq<char>,
    generated: Seq<Seq<char>>,
) -> Seq<NoticeModel> {
    if let (Some(content), Ok(statements)) = (existing, statements) {
        let kept = users_texts(statements, generated);
        if !no_merge && sections(content, marker) is None && kept.len() > 0 {
            seq![NoticeModel::Warning(moved_warning(buck_path, kept.len()))]
        } else {
            Seq::empty()
        }
    } else {
        Seq::empty()
    }
}

/// The statements of a file, or the messages of the error where it does not parse.
pub open spec fn parsed_file(statements: Result<Vec<BuckStatement>, Error>) -> Result<
    Seq<BuckStatement>,
    Seq<Seq<char>>,
> {
    match statements {
        Ok(statements) => Ok(statements@),
        Err(e) => Err(e@),
    }
}

/// The manual section to carry over. Of a file that is not there, or where
/// nothing is to be merged, that is nothing. Of a file with a marker it is what
/// stands below it, unless that clashes with `generated`. Of a file without one
/// it is inferred.
pub fn merge_rules(
    existing: Option<&str>,
    no_merge: bool,
    marker: &str,
    statements: Result<Vec<BuckStatement>, Error>,
    buck_path: &str,
    generated: &Vec<String>,
    notices: &mut Vec<Notice>,
) -> (r: Result<String, Error>)
    ensures
        ({
            let parsed = parsed_file(statements);
            let file = text::view_opt_str(existing);
            let names = text::views(generated@);
            &&& carried(file, no_merge, marker@, parsed, buck_path@, names) == match r {
                Ok(manual) => Ok::<Seq<char>, Seq<Seq<char>>>(manual@),
                Err(e) => Err(e@),
            }
            &&& error::notice_models(final(notices)@) == error::notice_models(old(notices)@)
                + carried_notices(file, no_merge, marker@, parsed, buck_path@, names)
        }),
{
    let content = match existing {
        None => {
            return Ok(String::new());
        },
        Some(content) => content,
    };
    if no_merge {
        return Ok(String::new());
    }
    if let Some((_, manual)) = split_sections(content, marker) {
        let section = trim(manual.as_str());
        match reject_name_collisions(section.as_str(), buck_path, generated) {
            Ok(_) => {
                return Ok(section);
            },
            Err(e) => {
                return Err(e);
            },
        }
    }
    match statements {
        Err(cause) => {
            let mut message = "Failed to parse ".to_owned();
            message.append(buck_path);
            Err(cause.context(message))
        },
        Ok(statements) => Ok(bootstrap_manual_section(&statements, buck_path, generated, notices)),
    }
}

/// What a run finds where it has to write the export of the workspace manifest
/// into a file of its own.
#[derive(Debug)]
pub enum WorkspaceFile {
    /// A generated file: its generated part, and its manual section.
    Owned { generated: String, manual: String },
    /// No file, or one with nothing in it.
    Fresh,
    /// A file that the generator did not write, or not in this form.
    Legacy,
}

/// What a run finds there.
pub fn workspace_file(content: &str, marker: &str) -> (r: WorkspaceFile)
    ensures
        match sections(content@, marker@) {
            Some((g, m)) => r matches WorkspaceFile::Owned { generated, manual } && generated@ == g
                && manual@ == text::trim_of(m),
            None => if text::trim_of(content@).len() == 0 {
                r is Fresh
            } else {
                r is Legacy
            },
        },
        fallback_section(content@, marker@) == match r {
            WorkspaceFile::Owned { manual, .. } => Some(manual@),
            WorkspaceFile::Fresh => Some(Seq::empty()),
            WorkspaceFile::Legacy => None,
        },
{
    match split_sections(content, marker) {
        Some((generated, manual)) => WorkspaceFile::Owned {
            generated,
            manual: trim(manual.as_str()),
        },
        None => if trim(content).as_str().is_empty() {
            WorkspaceFile::Fresh
        } else {
            WorkspaceFile::Legacy
        },
    }
}

/// The rules but for the `load` statements, in order.
pub open spec fn loads_dropped(rules: Seq<Rule>) -> Seq<Rule>
    decreases rules.len(),
{
    if rules.len() == 0 {
        Seq::empty()
    } else if rules[0].kind == RuleKind::Load {
        loads_dropped(rules.drop_first())
    } else {
        seq![rules[0]] + loads_dropped(rules.drop_first())
    }
}

/// The rules but for the `load` statements, which are written anew for them.
pub fn without_loads(rules: Vec<Rule>) -> (r: Vec<Rule>)
    ensures
        r@ == loads_dropped(rules@),
{
    let mut rest = rules;
    let mut out: Vec<Rule> = Vec::new();
    while rest.len() > 0
        invariant
            out@ + loads_dropped(rest@) == loads_dropped(rules@),
        decreases rest@.len(),
    {
        let ghost before = rest@;
        let ghost kept = out@;
        let rule = rest.remove(0);
        proof {
            assert(rest@ =~= before.drop_first());
        }
        if rule.kind != RuleKind::Load {
            out.push(rule);
            proof {
                assert(out@ + loads_dropped(rest@) =~= kept + loads_dropped(before));
            }
        }
    }
    proof {
        assert(out@ + loads_dropped(rest@) =~= out@);
    }
    out
}

/// The place of the marker that closes the generated content.
pub open spec fn marker_place(content: Seq<char>) -> int {
    text::trim_end_of(content).len() as int + 2
}

/// Every generated file holds the marker, whether or not there is a manual
/// section.
pub proof fn law_marker_is_always_written(
    content: Seq<char>,
    manual: Seq<char>,
    marker: Seq<char>,
)
    ensures
        text::occurs_at(closed_with(content, manual, marker), marker, marker_place(content)),
        sections(closed_with(content, manual, marker), marker) is Some,
{
    reveal_strlit("\n\n");
    let file = closed_with(content, manual, marker);
    let at = marker_place(content);
    assert(file.subrange(at, at + marker.len()) =~= marker);
    text::lemma_first_at(file, marker, 0, at);
}

/// The manual section that was written comes back when the file is read, but for
/// white space at its ends: provided that the generated content does not hold the
/// marker itself.
pub proof fn law_manual_section_comes_back(
    content: Seq<char>,
    manual: Seq<char>,
    marker: Seq<char>,
)
    requires
        text::first_at(closed_with(content, manual, marker), marker) == Some(
            marker_place(content),
        ),
    ensures
        sections(closed_with(content, manual, marker), marker) matches Some((generated, section))
            && generated == text::trim_end_of(content) + "\n\n"@ && text::trim_of(section)
            == text::trim_of(manual),
{
    reveal_strlit("\n\n");
    reveal_strlit("\n");
    let file = closed_with(content, manual, marker);
    let at = marker_place(content);
    assert(file.take(at) =~= text::trim_end_of(content) + "\n\n"@);
    let section = file.skip(at + marker.len());
    let inner = text::trim_end_of(manual);
    text::lemma_trim_both(manual);
    if text::trim_of(manual).len() == 0 {
        assert(section =~= "\n"@);
        text::lemma_trim_start_blank("\n"@, Seq::empty());
        assert("\n"@ + Seq::<char>::empty() =~= "\n"@);
        assert(text::trim_start_of(Seq::<char>::empty()) =~= Seq::<char>::empty());
        assert(text::trim_of(section) =~= text::trim_of(manual));
    } else {
        assert(section =~= "\n\n"@ + (inner + "\n"@));
        text::lemma_trim_start_blank("\n\n"@, inner + "\n"@);
        text::lemma_trim_end(manual);
        text::lemma_trim_start_some(inner);
        text::lemma_trim_start_concat(inner, "\n"@);
        text::lemma_trim_end_blank(text::trim_start_of(inner), "\n"@);
    }
}

/// Writing the file again from the same generated content and the manual section
/// that was read from it gives the same file: provided that the generated content
/// does not hold the marker, and that the manual section did not start with
/// white space.
pub proof fn law_writing_again_changes_nothing(
    content: Seq<char>,
    manual: Seq<char>,
    marker: Seq<char>,
)
    requires
        text::first_at(closed_with(content, manual, marker), marker) == Some(
            marker_place(content),
        ),
        text::trim_start_of(manual) == manual,
    ensures
        sections(closed_with(content, manual, marker), marker) matches Some((_, section))
            && closed_with(content, text::trim_of(section), marker) == closed_with(
            content,
            manual,
            marker,
        ),
{
    law_manual_section_comes_back(content, manual, marker);
    text::lemma_trim_both(manual);
    text::lemma_trim_both(text::trim_of(manual));
}

/// Whether a text is empty or starts with something else than white space.
pub open spec fn starts_bare(s: Seq<char>) -> bool {
    text::trim_start_of(s) == s
}

/// The section that is inferred for a file without a marker starts without white
/// space: provided that no statement of the file starts with any.
pub proof fn law_inferred_section_starts_bare(
    content: Seq<char>,
    marker: Seq<char>,
    statements: Seq<BuckStatement>,
    buck_path: Seq<char>,
    generated: Seq<Seq<char>>,
)
    requires
        sections(content, marker) is None,
        forall|i: int|
            0 <= i < statements.len() ==> starts_bare((#[trigger] statements[i]).text@),
    ensures
        carried(Some(content), false, marker, Ok(statements), buck_path, generated) matches Ok(
            manual,
        ) && starts_bare(manual),
{
    let kept = users_texts(statements, generated);
    if kept.len() > 0 {
        lemma_users_texts_start_bare(statements, generated);
        let manual = text::joined(kept, "\n\n"@) + "\n"@;
        lemma_joined_starts_bare(kept, "\n\n"@);
        assert(manual[0] == text::joined(kept, "\n\n"@)[0]);
    }
}

proof fn lemma_users_texts_start_bare(statements: Seq<BuckStatement>, generated: Seq<Seq<char>>)
    requires
        forall|i: int|
            0 <= i < statements.len() ==> starts_bare((#[trigger] statements[i]).text@),
    ensures
        forall|i: int|
            0 <= i < users_texts(statements, generated).len() ==> {
                let part = #[trigger] users_texts(statements, generated)[i];
                part.len() > 0 && !text::is_space(part[0])
            },
    decreases statements.len(),
{
    if statements.len() > 0 {
        let head = statements.drop_last();
        assert forall|i: int| 0 <= i < head.len() implies starts_bare(
            (#[trigger] head[i]).text@,
        ) by {
            assert(head[i] == statements[i]);
        }
        lemma_users_texts_start_bare(head, generated);
        let all = statements[statements.len() - 1].text@;
        assert(starts_bare(all));
        text::lemma_trim_start(all);
        text::lemma_trim_end(all);
        let source = text::trim_end_of(all);
        if source.len() > 0 {
            assert(source[0] == all[0]);
        }
        let before = users_texts(head, generated);
        let now = users_texts(statements, generated);
        assert forall|i: int| 0 <= i < now.len() implies {
            let part = #[trigger] now[i];
            part.len() > 0 && !text::is_space(part[0])
        } by {
            if i < before.len() {
                assert(now[i] == before[i]);
            }
        }
    }
}

proof fn lemma_joined_starts_bare(parts: Seq<Seq<char>>, sep: Seq<char>)
    requires
        parts.len() > 0,
        parts[0].len() > 0,
        !text::is_space(parts[0][0]),
    ensures
        text::joined(parts, sep).len() > 0,
        !text::is_space(text::joined(parts, sep)[0]),
    decreases parts.len(),
{
    if parts.len() > 1 {
        lemma_joined_starts_bare(parts.drop_last(), sep);
    }
}

/// A second run of the generator, on the file that the first run left, writes the
/// same file again and has nothing to tell: provided that the generated content,
/// which `content` gives for a manual section, does not hold the marker. Where the
/// first run found no marker, the section that it wrote must not start with white
/// space, must lead to the same content without the white space it ends with, and
/// must not declare a target that the generator declares too, which would stop the
/// second run.
pub proof fn law_second_run_changes_nothing(
    existing: Option<Seq<char>>,
    marker: Seq<char>,
    statements: Result<Seq<BuckStatement>, Seq<Seq<char>>>,
    statements_then: Result<Seq<BuckStatement>, Seq<Seq<char>>>,
    buck_path: Seq<char>,
    generated: Seq<Seq<char>>,
    content: spec_fn(Seq<char>) -> Seq<char>,
)
    requires
        carried(existing, false, marker, statements, buck_path, generated) is Ok,
        ({
            let manual = carried(
                existing,
                false,
                marker,
                statements,
                buck_path,
                generated,
            )->Ok_0;
            let marked = existing matches Some(c) && sections(c, marker) is Some;
            &&& text::first_at(closed_with(content(manual), manual, marker), marker) == Some(
                marker_place(content(manual)),
            )
            &&& marked || starts_bare(manual)
            &&& marked || content(text::trim_of(manual)) == content(manual)
            &&& marked || section_clashes(
                starlark::statements_of(text::trim_of(manual)),
                generated,
            ).len() == 0
        }),
    ensures
        ({
            let manual = carried(
                existing,
                false,
                marker,
                statements,
                buck_path,
                generated,
            )->Ok_0;
            let file = closed_with(content(manual), manual, marker);
            &&& carried(Some(file), false, marker, statements_then, buck_path, generated) matches Ok(
                section,
            ) && closed_with(content(section), section, marker) == file
            &&& carried_notices(
                Some(file),
                false,
                marker,
                statements_then,
                buck_path,
                generated,
            ).len() == 0
        }),
{
    let manual = carried(existing, false, marker, statements, buck_path, generated)->Ok_0;
    if let Some(c) = existing {
        if let Some((_, below)) = sections(c, marker) {
            text::lemma_trim_again(below);
        }
    }
    assert(starts_bare(manual));
    law_manual_section_comes_back(content(manual), manual, marker);
    law_writing_again_changes_nothing(content(manual), manual, marker);
}

/// The manual section of the file at the workspace's root, or nothing where the
/// file is not in the generator's form.
pub open spec fn fallback_section(content: Seq<char>, marker: Seq<char>) -> Option<Seq<char>> {
    match sections(content, marker) {
        Some((_, manual)) => Some(text::trim_of(manual)),
        None => if text::trim_of(content).len() == 0 {
            Some(Seq::empty())
        } else {
            None
        },
    }
}

/// Writing the export of the workspace manifest a second time into a file in the
/// generator's form, or where there was none, finds the same manual section and
/// so writes the same file: provided that the generated content, which `content`
/// gives for a manual section, does not hold the marker.
pub proof fn law_second_fallback_changes_nothing(
    existing: Seq<char>,
    marker: Seq<char>,
    content: spec_fn(Seq<char>) -> Seq<char>,
)
    requires
        fallback_section(existing, marker) is Some,
        ({
            let manual = fallback_section(existing, marker)->0;
            text::first_at(closed_with(content(manual), manual, marker), marker) == Some(
                marker_place(content(manual)),
            )
        }),
    ensures
        ({
            let manual = fallback_section(existing, marker)->0;
            let file = closed_with(content(manual), manual, marker);
            fallback_section(file, marker) matches Some(section) && section == manual
                && closed_with(content(section), section, marker) == file
        }),
{
    let manual = fallback_section(existing, marker)->0;
    if let Some((_, below)) = sections(existing, marker) {
        text::lemma_trim_again(below);
    }
    law_manual_section_comes_back(content(manual), manual, marker);
}

/// The place at which the export of the workspace manifest starts in a file that
/// it was put into.
pub open spec fn export_place(content: Seq<char>, statements: Seq<BuckStatement>) -> int {
    let at = export_statement_at(statements);
    if at < statements.len() {
        statements[at].start as int
    } else {
        encode_utf8(text::trim_end_of(content) + "\n\n"@).len() as int
    }
}

/// Putting the same export a second time into a file that the generator does not
/// own changes no byte: provided that the statement that exports the manifest is
/// then found where the export was put.
pub proof fn law_splicing_again_changes_nothing(
    content: Seq<char>,
    rendered: Seq<char>,
    statements: Seq<BuckStatement>,
    file: Seq<char>,
    statements_then: Seq<BuckStatement>,
)
    requires
        export_statement_at(statements) < statements.len() ==> stands_in(
            statements[export_statement_at(statements)],
            content,
        ),
        encode_utf8(file) == with_workspace_export(content, rendered, statements),
        export_statement_at(statements_then) < statements_then.len(),
        ({
            let stmt = statements_then[export_statement_at(statements_then)];
            &&& stmt.start == export_place(content, statements)
            &&& stmt.end == stmt.start + encode_utf8(text::trim_end_of(rendered)).len()
        }),
    ensures
        with_workspace_export(file, rendered, statements_then) == encode_utf8(file),
{
    let export = text::trim_end_of(rendered);
    let at = export_statement_at(statements);
    let bytes = encode_utf8(file);
    lemma_workspace_statement_is_first(statements);
    lemma_workspace_statement_is_first(statements_then);
    if at >= statements.len() {
        let head = text::trim_end_of(content) + "\n\n"@;
        lemma_encode_concat(head, export);
        lemma_encode_concat(head + export, "\n"@);
    }
    let start = export_place(content, statements);
    let end = start + encode_utf8(export).len();
    assert(bytes.take(start) + encode_utf8(export) + bytes.skip(end) =~= bytes);
}

proof fn lemma_workspace_statement_is_first(statements: Seq<BuckStatement>)
    ensures
        0 <= export_statement_at(statements) <= statements.len(),
    decreases statements.len(),
{
    if statements.len() > 0 && !exports_workspace(statements[0]) {
        lemma_workspace_statement_is_first(statements.drop_first());
    }
}

/// Putting the same export into a list of rules a second time changes nothing.
pub proof fn law_export_is_put_in_once(rules: Seq<Rule>, export: Rule)
    requires
        is_workspace_export(export),
    ensures
        ({
            let at = workspace_export_at(rules);
            let once = if at < rules.len() {
                rules.update(at, export)
            } else {
                rules.push(export)
            };
            &&& workspace_export_at(once) == at
            &&& once.update(at, export) == once
        }),
{
    let at = workspace_export_at(rules);
    lemma_workspace_export_is_first(rules);
    let once = if at < rules.len() {
        rules.update(at, export)
    } else {
        rules.push(export)
    };
    assert forall|j: int| 0 <= j < at implies !is_workspace_export(#[trigger] once[j]) by {
        assert(once[j] == rules[j]);
    }
    lemma_workspace_export_at(once, at);
    assert(once.update(at, export) =~= once);
}

proof fn lemma_workspace_export_is_first(rules: Seq<Rule>)
    ensures
        0 <= workspace_export_at(rules) <= rules.len(),
        forall|j: int|
            0 <= j < workspace_export_at(rules) ==> !is_workspace_export(#[trigger] rules[j]),
    decreases rules.len(),
{
    if rules.len() > 0 && !is_workspace_export(rules[0]) {
        let rest = rules.drop_first();
        lemma_workspace_export_is_first(rest);
        assert forall|j: int| 0 <= j < workspace_export_at(rules) implies !is_workspace_export(
            #[trigger] rules[j],
        ) by {
            if j > 0 {
                assert(rules[j] == rest[j - 1]);
            }
        }
    }
}

/// What is done about a package that is new or has changed.
#[derive(Debug)]
pub struct UpdatePlan {
    /// The word that the user is told.
    pub verb: &'static str,
    /// The package that the user is told of.
    pub title: String,
    pub third_party: bool,
    /// Whether its file exports the manifest of the workspace.
    pub export_workspace: bool,
}

/// The name and the version of a package, as the user is told.
pub open spec fn title_of(name: Seq<char>, version: Seq<char>) -> Seq<char> {
    name + " v"@ + version
}

/// The name and the version of a package, as the user is told.
fn title(name: &str, version: &str) -> (r: String)
    ensures
        r@ == title_of(name@, version@),
{
    let mut out = name.to_owned();
    out.append(" v");
    out.append(version);
    out
}

/// Whether `p` is what is done about a package that is new or has changed. The
/// first package whose manifest is that of the workspace exports it, where
/// packages inherit from the workspace: `owns_manifest` tells whether the package
/// has that manifest, and `emitted` whether another has exported it before.
pub open spec fn update_given(
    change: ChangeType,
    node: BuckalNode,
    owns_manifest: bool,
    workspace_inherit: bool,
    emitted: bool,
    p: UpdatePlan,
) -> bool {
    &&& p.verb@ == if change == ChangeType::Added {
        "Adding"@
    } else {
        "Flushing"@
    }
    &&& p.title@ == title_of(node.name@, node.version@)
    &&& p.third_party == node.third_party()
    &&& p.export_workspace == (workspace_inherit && !emitted && owns_manifest)
}

/// Whether `owns` can come of asking whether the manifest of `node` is that of the
/// workspace. How paths are compared that are not uniform depends on the platform.
pub open spec fn ownership_found(node: BuckalNode, workspace_root: Seq<char>, owns: bool) -> bool {
    let manifest = node.manifest_path@;
    &&& paths::is_file_found(manifest, workspace_root, "Cargo.toml"@, owns)
    &&& paths::rooted(manifest) && paths::rooted(workspace_root) ==> owns == (manifest
        == paths::file_in(workspace_root, "Cargo.toml"@))
}

/// Whether `p` is what is done about a package that is new or has changed.
pub open spec fn update_planned(
    change: ChangeType,
    node: BuckalNode,
    workspace_root: Seq<char>,
    workspace_inherit: bool,
    emitted: bool,
    p: UpdatePlan,
) -> bool {
    exists|owns: bool| #[trigger]
        ownership_found(node, workspace_root, owns) && update_given(
            change,
            node,
            owns,
            workspace_inherit,
            emitted,
            p,
        )
}

proof fn lemma_manifest_name()
    ensures
        paths::file_name("Cargo.toml"@),
{
    reveal_strlit("Cargo.toml");
    reveal_strlit(".");
    assert("Cargo.toml"@.len() != "."@.len());
}

/// Whether the manifest of `node` is that of the workspace.
fn owns_manifest(node: &BuckalNode, workspace_root: &str) -> (r: bool)
    ensures
        ownership_found(*node, workspace_root@, r),
{
    proof {
        lemma_manifest_name();
        if paths::rooted(node.manifest_path@) && paths::rooted(workspace_root@) {
            paths::lemma_rooted_is_uniform(node.manifest_path@);
            paths::lemma_rooted_is_uniform(workspace_root@);
        }
    }
    paths::is_file_in(node.manifest_path.as_str(), workspace_root, "Cargo.toml")
}

/// What is done about a package that is new or has changed, if `owns_manifest`
/// tells whether its manifest is that of the workspace.
pub fn plan_update_given(
    change: ChangeType,
    node: &BuckalNode,
    owns_manifest: bool,
    workspace_inherit: bool,
    emitted: bool,
) -> (r: UpdatePlan)
    ensures
        update_given(change, *node, owns_manifest, workspace_inherit, emitted, r),
{
    let verb = if change == ChangeType::Added {
        "Adding"
    } else {
        "Flushing"
    };
    UpdatePlan {
        verb,
        title: title(node.name.as_str(), node.version.as_str()),
        third_party: is_third_party(node),
        export_workspace: workspace_inherit && !emitted && owns_manifest,
    }
}

/// What is done about a package that is new or has changed.
pub fn plan_update(
    change: ChangeType,
    node: &BuckalNode,
    workspace_root: &str,
    workspace_inherit: bool,
    emitted: bool,
) -> (r: UpdatePlan)
    ensures
        update_planned(change, *node, workspace_root@, workspace_inherit, emitted, r),
{
    let owns = owns_manifest(node, workspace_root);
    let r = plan_update_given(change, node, owns, workspace_inherit, emitted);
    proof {
        assert(ownership_found(*node, workspace_root@, owns));
    }
    r
}

/// The form of the identifier of a package that comes from elsewhere: a kind and
/// a source, the name of the package, and its version.
pub const PACKAGE_ID_PATTERN: &'static str =
    "^([^+#]+)\\+([^#]+)#([^@]+)@([^+#]+)(?:\\+(.+))?$";

/// The name and the version in the identifier of a package: what stands between
/// the first `#` and the `@` behind it, and what stands behind that, up to a `+`.
/// A kind has to come before the `#`, and a source behind the first `+`.
pub open spec fn name_and_version(id: Seq<char>) -> Option<(Seq<char>, Seq<char>)> {
    let plus = text::first_char(id, '+');
    let hash = text::first_char(id, '#');
    let rest = id.skip(hash + 1);
    let at = text::first_char(rest, '@');
    let tail = rest.skip(at + 1);
    let end = text::first_char(tail, '+');
    if !(0 < plus && plus + 1 < hash && hash < id.len()) || !(0 < at < rest.len()) || end == 0
        || text::first_char(tail, '#') < end || tail.len() == 0 {
        None
    } else if end == tail.len() {
        Some((rest.take(at), tail))
    } else if end + 1 < tail.len() && !tail.skip(end + 1).contains('\n') {
        Some((rest.take(at), tail.take(end)))
    } else {
        None
    }
}

/// `regex::Regex::captures`, of the pattern of an identifier: its third and its
/// fourth group. No group of the pattern can take over what belongs to the next,
/// so there is one way to match it at most, and the claim is which.
#[verifier::external_body]
fn capture_name_and_version(pattern: &str, id: &str) -> (r: Option<(String, String)>)
    requires
        pattern@ == PACKAGE_ID_PATTERN@,
    ensures
        name_and_version(id@) == match r {
            Some((name, version)) => Some((name@, version@)),
            None => None,
        },
{
    let re = regex::Regex::new(pattern).ok()?;
    re.captures(id).map(|c| (c[3].to_owned(), c[4].to_owned()))
}

/// What is done about a package that is gone.
#[derive(Debug)]
pub enum Removal {
    /// Nothing: its sources are the user's own.
    Keep,
    /// The directory that it was vendored in is removed.
    Remove { title: String },
    /// Its identifier has not the form that it must have.
    Malformed,
}

/// Whether `r` is what is done about a package that is gone. `path_source` tells
/// whether the package is read from a path.
pub open spec fn removal_planned(id: Seq<char>, path_source: bool, r: Removal) -> bool {
    if path_source {
        r is Keep
    } else {
        match name_and_version(id) {
            Some((name, version)) => r matches Removal::Remove { title } && title@ == title_of(
                name,
                version,
            ),
            None => r is Malformed,
        }
    }
}

/// What is done about a package that is gone.
pub fn plan_removal(id: &PackageId, path_source: bool) -> (r: Removal)
    ensures
        removal_planned(id@, path_source, r),
{
    if path_source {
        return Removal::Keep;
    }
    match capture_name_and_version(PACKAGE_ID_PATTERN, id.repr.as_str()) {
        Some((name, version)) => Removal::Remove {
            title: title(name.as_str(), version.as_str()),
        },
        None => Removal::Malformed,
    }
}

/// The generated content of a package with the search paths of import libraries:
/// those of the rules of a first-party package, and then that of the build
/// script of any package.
pub open spec fn flags_patched(
    content: Seq<char>,
    nodes: Seq<BuckalNode>,
    deps: Seq<BuckalDep>,
    node: BuckalNode,
) -> Result<Seq<char>, Seq<char>> {
    let rules = if node.third_party() {
        Ok(content)
    } else {
        windows::root_patched(content, nodes, node.targets@)
    };
    match rules {
        Err(package) => Err(package),
        Ok(patched) => windows::buildscript_patched(patched, nodes, deps, node),
    }
}

/// Adds the search paths of import libraries to the generated content of `node`.
/// `nodes` are the packages of the graph, and `deps` the dependencies of `node`.
pub fn patch_windows_flags(
    buck_content: String,
    nodes: &Vec<BuckalNode>,
    deps: &Vec<BuckalDep>,
    node: &BuckalNode,
) -> (r: Result<String, UnvendoredProvider>)
    ensures
        windows::outcome(r) == flags_patched(buck_content@, nodes@, deps@, *node),
{
    let content = if is_third_party(node) {
        buck_content
    } else {
        match patch_root_windows_rustc_flags(buck_content, nodes, node) {
            Ok(content) => content,
            Err(e) => {
                return Err(e);
            },
        }
    };
    patch_buildscript_windows_rustc_flags(content, nodes, deps, node)
}

/// What is done about one package.
#[derive(Debug)]
pub enum ChangeAction {
    /// The file of the package at this position is written.
    Update { node: usize, plan: UpdatePlan },
    /// Nothing: the package is not in the graph.
    Ignore,
    /// The package is gone.
    Gone(Removal),
}

/// What is done about the packages that differ between two runs.
#[derive(Debug)]
pub struct ApplyPlan {
    /// What is done about each of them, in the order of their identifiers.
    pub steps: Vec<ChangeAction>,
    /// Whether the export of the workspace manifest has to be written into a file
    /// of its own at the end.
    pub fallback: bool,
}

/// The position of the first package with this identifier, or the number of
/// packages.
pub open spec fn node_at(nodes: Seq<BuckalNode>, id: Seq<char>) -> int
    decreases nodes.len(),
{
    if nodes.len() == 0 || nodes[0].package_id@ == id {
        0
    } else {
        1 + node_at(nodes.drop_first(), id)
    }
}

/// Whether a step exports the workspace manifest.
pub open spec fn step_exports(step: ChangeAction) -> bool {
    step matches ChangeAction::Update { plan, .. } && plan.export_workspace
}

/// Whether one of the first `n` steps exports the workspace manifest.
pub open spec fn exported_before(steps: Seq<ChangeAction>, n: int) -> bool {
    exists|j: int| 0 <= j < n && step_exports(#[trigger] steps[j])
}

/// Whether `step` is what is done about the package `id`, if `owners` tells which
/// packages have the manifest of the workspace, and `emitted` whether a step
/// before it exports that manifest.
pub open spec fn step_planned(
    id: Seq<char>,
    change: ChangeType,
    nodes: Seq<BuckalNode>,
    path_sources: Set<Seq<char>>,
    owners: Seq<bool>,
    workspace_inherit: bool,
    emitted: bool,
    step: ChangeAction,
) -> bool {
    let at = node_at(nodes, id);
    if change == ChangeType::Removed {
        step matches ChangeAction::Gone(r) && removal_planned(id, path_sources.contains(id), r)
    } else if at < nodes.len() {
        step matches ChangeAction::Update { node, plan } && node == at && update_given(
            change,
            nodes[at],
            owners[at],
            workspace_inherit,
            emitted,
            plan,
        )
    } else {
        step is Ignore
    }
}

/// Whether `steps` are what is done about the packages `ids`, if `owners` tells
/// which packages have the manifest of the workspace.
pub open spec fn steps_planned(
    ids: Seq<Seq<char>>,
    changes: Map<Seq<char>, ChangeType>,
    nodes: Seq<BuckalNode>,
    path_sources: Set<Seq<char>>,
    owners: Seq<bool>,
    workspace_inherit: bool,
    steps: Seq<ChangeAction>,
) -> bool {
    &&& steps.len() == ids.len()
    &&& forall|i: int|
        0 <= i < steps.len() ==> step_planned(
            ids[i],
            changes[ids[i]],
            nodes,
            path_sources,
            owners,
            workspace_inherit,
            exported_before(steps, i),
            #[trigger] steps[i],
        )
}

/// Whether `owners` can come of asking which packages have the manifest of the
/// workspace.
pub open spec fn owners_found(
    nodes: Seq<BuckalNode>,
    workspace_root: Seq<char>,
    owners: Seq<bool>,
) -> bool {
    &&& owners.len() == nodes.len()
    &&& forall|i: int|
        0 <= i < owners.len() ==> ownership_found(nodes[i], workspace_root, #[trigger] owners[i])
}

/// Whether `plan` is what is done about the packages that differ, if `owners` tells
/// which packages have the manifest of the workspace.
pub open spec fn plan_for(
    changes: Map<Seq<char>, ChangeType>,
    nodes: Seq<BuckalNode>,
    path_sources: Set<Seq<char>>,
    owners: Seq<bool>,
    workspace_inherit: bool,
    plan: ApplyPlan,
) -> bool {
    &&& steps_planned(
        sorted::in_order(changes.dom()),
        changes,
        nodes,
        path_sources,
        owners,
        workspace_inherit,
        plan.steps@,
    )
    &&& plan.fallback == (workspace_inherit && !exported_before(
        plan.steps@,
        plan.steps@.len() as int,
    ))
}

/// Whether `plan` can be what is done about the packages that differ.
pub open spec fn plan_found(
    changes: Map<Seq<char>, ChangeType>,
    nodes: Seq<BuckalNode>,
    path_sources: Set<Seq<char>>,
    workspace_root: Seq<char>,
    workspace_inherit: bool,
    plan: ApplyPlan,
) -> bool {
    exists|owners: Seq<bool>| #[trigger]
        owners_found(nodes, workspace_root, owners) && plan_for(
            changes,
            nodes,
            path_sources,
            owners,
            workspace_inherit,
            plan,
        )
}

proof fn lemma_node_at(nodes: Seq<BuckalNode>, id: Seq<char>, i: int)
    requires
        0 <= i <= nodes.len(),
        forall|j: int| 0 <= j < i ==> (#[trigger] nodes[j]).package_id@ != id,
        i < nodes.len() ==> nodes[i].package_id@ == id,
    ensures
        node_at(nodes, id) == i,
    decreases i,
{
    if i > 0 {
        assert(nodes[0].package_id@ != id);
        let rest = nodes.drop_first();
        assert forall|j: int| 0 <= j < i - 1 implies (#[trigger] rest[j]).package_id@ != id by {
            assert(rest[j] == nodes[j + 1]);
        }
        lemma_node_at(rest, id, i - 1);
    }
}

/// The position of the first package with this identifier, or the number of
/// packages.
fn find_node(nodes: &Vec<BuckalNode>, id: &str) -> (r: usize)
    ensures
        r == node_at(nodes@, id@),
        r <= nodes@.len(),
{
    let mut i: usize = 0;
    while i < nodes.len()
        invariant
            i <= nodes@.len(),
            forall|j: int| 0 <= j < i ==> (#[trigger] nodes@[j]).package_id@ != id@,
        decreases nodes@.len() - i,
    {
        if same_text(nodes[i].package_id.repr.as_str(), id) {
            proof {
                lemma_node_at(nodes@, id@, i as int);
            }
            return i;
        }
        i = i + 1;
    }
    proof {
        lemma_node_at(nodes@, id@, i as int);
    }
    i
}

impl BuckalChange {
    /// What is done about the packages that differ: `nodes` are the packages of
    /// the graph, and `path_sources` the identifiers of those that are read from
    /// a path.
    pub fn plan(
        &self,
        nodes: &Vec<BuckalNode>,
        path_sources: &StringSet,
        workspace_root: &str,
        workspace_inherit: bool,
    ) -> (r: ApplyPlan)
        ensures
            plan_found(
                self.changes@,
                nodes@,
                path_sources@,
                workspace_root@,
                workspace_inherit,
                r,
            ),
    {
        let mut owners: Vec<bool> = Vec::new();
        let mut i: usize = 0;
        while i < nodes.len()
            invariant
                i <= nodes@.len(),
                owners@.len() == i,
                forall|j: int|
                    0 <= j < i ==> ownership_found(
                        nodes@[j],
                        workspace_root@,
                        #[trigger] owners@[j],
                    ),
            decreases nodes@.len() - i,
        {
            owners.push(owns_manifest(&nodes[i], workspace_root));
            i = i + 1;
        }
        proof {
            assert(owners_found(nodes@, workspace_root@, owners@));
        }
        self.plan_given(nodes, path_sources, &owners, workspace_inherit)
    }

    /// What is done about the packages that differ, if `owners` tells which of
    /// `nodes` have the manifest of the workspace.
    pub fn plan_given(
        &self,
        nodes: &Vec<BuckalNode>,
        path_sources: &StringSet,
        owners: &Vec<bool>,
        workspace_inherit: bool,
    ) -> (r: ApplyPlan)
        requires
            owners@.len() == nodes@.len(),
        ensures
            plan_for(
                self.changes@,
                nodes@,
                path_sources@,
                owners@,
                workspace_inherit,
                r,
            ),
    {
        let n = self.changes.len();
        let ghost ids = self.changes.keys();
        proof {
            sorted::lemma_in_order(ids);
        }
        let mut steps: Vec<ChangeAction> = Vec::new();
        let mut emitted = false;
        let mut i: usize = 0;
        while i < n
            invariant
                i <= n,
                owners@.len() == nodes@.len(),
                n == ids.len(),
                ids == self.changes.keys(),
                steps@.len() == i,
                emitted == exported_before(steps@, i as int),
                forall|k: int|
                    0 <= k < steps@.len() ==> step_planned(
                        ids[k],
                        self.changes@[ids[k]],
                        nodes@,
                        path_sources@,
                        owners@,
                        workspace_inherit,
                        exported_before(steps@, k),
                        #[trigger] steps@[k],
                    ),
            decreases n - i,
        {
            let id = self.changes.key_at(i);
            let change = *self.changes.value_at(i);
            let step = if change == ChangeType::Removed {
                let package = PackageId { repr: id.clone() };
                ChangeAction::Gone(plan_removal(&package, path_sources.contains(id.as_str())))
            } else {
                let at = find_node(nodes, id.as_str());
                if at < nodes.len() {
                    let plan = plan_update_given(
                        change,
                        &nodes[at],
                        owners[at],
                        workspace_inherit,
                        emitted,
                    );
                    ChangeAction::Update { node: at, plan }
                } else {
                    ChangeAction::Ignore
                }
            };
            let exports = match &step {
                ChangeAction::Update { plan, .. } => plan.export_workspace,
                _ => false,
            };
            let ghost before = steps@;
            let ghost last = step;
            steps.push(step);
            proof {
                let now = steps@;
                assert forall|k: int| 0 <= k <= i implies exported_before(now, k)
                    == exported_before(before, k) by {
                    if exported_before(now, k) {
                        let j = choose|j: int| 0 <= j < k && step_exports(#[trigger] now[j]);
                        assert(before[j] == now[j]);
                    }
                    if exported_before(before, k) {
                        let j = choose|j: int| 0 <= j < k && step_exports(#[trigger] before[j]);
                        assert(before[j] == now[j]);
                    }
                }
                assert forall|k: int| 0 <= k < now.len() implies step_planned(
                    ids[k],
                    self.changes@[ids[k]],
                    nodes@,
                    path_sources@,
                    owners@,
                    workspace_inherit,
                    exported_before(now, k),
                    #[trigger] now[k],
                ) by {
                    if k < i {
                        assert(now[k] == before[k]);
                    }
                }
                assert(now[i as int] == last);
                if exported_before(now, i + 1) && !exported_before(now, i as int) {
                    let j = choose|j: int| 0 <= j < i + 1 && step_exports(#[trigger] now[j]);
                    assert(j == i);
                }
                if exported_before(now, i as int) {
                    let j = choose|j: int| 0 <= j < i && step_exports(#[trigger] now[j]);
                    assert(0 <= j < i + 1 && step_exports(now[j]));
                }
                assert(exported_before(now, i + 1) == (exported_before(before, i as int)
                    || step_exports(last)));
            }
            emitted = emitted || exports;
            i = i + 1;
        }
        ApplyPlan { steps, fallback: workspace_inherit && !emitted }
    }
}

/// The workspace manifest is exported by one step at most, and where none does
/// so, by the file that is written at the end.
pub proof fn law_workspace_is_exported_once(
    ids: Seq<Seq<char>>,
    changes: Map<Seq<char>, ChangeType>,
    nodes: Seq<BuckalNode>,
    path_sources: Set<Seq<char>>,
    owners: Seq<bool>,
    workspace_inherit: bool,
    steps: Seq<ChangeAction>,
    i: int,
    j: int,
)
    requires
        steps_planned(
            ids,
            changes,
            nodes,
            path_sources,
            owners,
            workspace_inherit,
            steps,
        ),
        0 <= i < steps.len(),
        0 <= j < steps.len(),
        step_exports(steps[i]),
        step_exports(steps[j]),
    ensures
        i == j,
        workspace_inherit,
{
    if i < j {
        assert(exported_before(steps, j));
    } else if j < i {
        assert(exported_before(steps, i));
    }
}

/// Whether a statement is kept when it is not known which statements of a file are
/// the user's, whatever it calls: a `load` statement of another module or with a
/// name of its own, and any other statement that does not declare a target that
/// the generator declares.
pub open spec fn stays(stmt: BuckStatement, generated: Seq<Seq<char>>) -> bool {
    if stmt.is_load {
        ||| stmt.load_module is None
        ||| stmt.load_module->0@ != "@buckal//:wrapper.bzl"@ && stmt.load_module->0@
            != "@buckal//:cargo_manifest.bzl"@
        ||| exists|j: int|
            0 <= j < stmt.load_bindings@.len() && (#[trigger] stmt.load_bindings@[j]).local@
                != stmt.load_bindings@[j].exported@
    } else {
        ||| stmt.target_name is None
        ||| forall|k: int|
            0 <= k < generated.len() ==> #[trigger] generated[k] != stmt.target_name->0@
    }
}

proof fn lemma_stays(stmt: BuckStatement, generated: Seq<Seq<char>>)
    ensures
        is_users(stmt, generated) == stays(stmt, generated),
{
    let bindings = stmt.load_bindings@;
    if any_alias(bindings) {
        let i = choose|i: int| 0 <= i < bindings.len() && (#[trigger] bindings[i]).aliases();
        assert(bindings[i].local@ != bindings[i].exported@);
    }
    if exists|j: int|
        0 <= j < bindings.len() && (#[trigger] bindings[j]).local@ != bindings[j].exported@ {
        let j = choose|j: int|
            0 <= j < bindings.len() && (#[trigger] bindings[j]).local@ != bindings[j].exported@;
        assert(bindings[j].aliases());
    }
    if let Some(n) = stmt.target_name {
        if generated.contains(n@) {
            let k = choose|k: int| 0 <= k < generated.len() && generated[k] == n@;
            assert(generated[k] == n@);
        }
        if exists|k: int| 0 <= k < generated.len() && #[trigger] generated[k] == n@ {
            assert(generated.contains(n@));
        }
    }
}

/// The statements that stay of two lists are those of the first and then those of
/// the second. Of one statement that is its text without the white space behind
/// it, if it stays and there is anything of it.
pub proof fn law_statements_stay(
    a: Seq<BuckStatement>,
    b: Seq<BuckStatement>,
    generated: Seq<Seq<char>>,
    stmt: BuckStatement,
)
    ensures
        users_texts(a + b, generated) == users_texts(a, generated) + users_texts(b, generated),
        stays(stmt, generated) && text::trim_end_of(stmt.text@).len() > 0 ==> users_texts(
            seq![stmt],
            generated,
        ) == seq![text::trim_end_of(stmt.text@)],
        !stays(stmt, generated) || text::trim_end_of(stmt.text@).len() == 0 ==> users_texts(
            seq![stmt],
            generated,
        ).len() == 0,
    decreases b.len(),
{
    lemma_stays(stmt, generated);
    let one = seq![stmt];
    assert(one.drop_last() =~= Seq::<BuckStatement>::empty());
    assert(one.last() == stmt);
    assert(users_texts(one.drop_last(), generated) =~= Seq::<Seq<char>>::empty());
    assert(Seq::<Seq<char>>::empty().push(text::trim_end_of(stmt.text@))
        =~= seq![text::trim_end_of(stmt.text@)]);
    if b.len() == 0 {
        assert(a + b =~= a);
        assert(users_texts(a, generated) + users_texts(b, generated) =~= users_texts(a, generated));
    } else {
        law_statements_stay(a, b.drop_last(), generated, stmt);
        assert((a + b).drop_last() =~= a + b.drop_last());
        assert((a + b).last() == b.last());
        assert(users_texts(a + b, generated) =~= users_texts(a, generated) + users_texts(
            b,
            generated,
        ));
    }
}

proof fn lemma_kept_somewhere(
    statements: Seq<BuckStatement>,
    generated: Seq<Seq<char>>,
    i: int,
) -> (k: int)
    requires
        0 <= i < statements.len(),
        stays(statements[i], generated),
        text::trim_end_of(statements[i].text@).len() > 0,
    ensures
        0 <= k < users_texts(statements, generated).len(),
        users_texts(statements, generated)[k] == text::trim_end_of(statements[i].text@),
{
    let a = statements.take(i);
    let b = statements.skip(i + 1);
    let stmt = statements[i];
    law_statements_stay(a + seq![stmt], b, generated, stmt);
    law_statements_stay(a, seq![stmt], generated, stmt);
    assert(statements =~= a + seq![stmt] + b);
    users_texts(a, generated).len() as int
}

proof fn lemma_part_of_joined(parts: Seq<Seq<char>>, sep: Seq<char>, k: int) -> (p: int)
    requires
        0 <= k < parts.len(),
    ensures
        text::reads(text::joined(parts, sep), parts[k], p),
    decreases parts.len(),
{
    let all = text::joined(parts, sep);
    if parts.len() == 1 {
        0
    } else if k == parts.len() - 1 {
        let p = all.len() - parts[k].len();
        assert forall|q: int| 0 <= q < parts[k].len() implies all[p + q]
            == #[trigger] parts[k][q] by {}
        p
    } else {
        let head = parts.drop_last();
        let p = lemma_part_of_joined(head, sep, k);
        let before = text::joined(head, sep);
        assert forall|q: int| 0 <= q < parts[k].len() implies all[p + q]
            == #[trigger] parts[k][q] by {
            assert(head[k][q] == parts[k][q]);
            assert(before[p + q] == head[k][q]);
        }
        p
    }
}

/// Whether `part` reads somewhere in `s`.
pub open spec fn holds_text(s: Seq<char>, part: Seq<char>) -> bool {
    exists|p: int| #[trigger] text::reads(s, part, p)
}

/// Of a file without a marker every statement of the user's is carried over,
/// whatever it calls: the section that is carried over holds its text.
pub proof fn law_users_statements_are_carried_over(
    content: Seq<char>,
    marker: Seq<char>,
    statements: Seq<BuckStatement>,
    buck_path: Seq<char>,
    generated: Seq<Seq<char>>,
    i: int,
)
    requires
        forall|p: int| !#[trigger] text::reads(content, marker, p),
        0 <= i < statements.len(),
        !statements[i].is_load,
        statements[i].target_name is None || !generated.contains(statements[i].target_name->0@),
        text::trim_end_of(statements[i].text@).len() > 0,
    ensures
        users_texts(statements, generated).contains(text::trim_end_of(statements[i].text@)),
        carried(Some(content), false, marker, Ok(statements), buck_path, generated) matches Ok(
            manual,
        ) && holds_text(manual, text::trim_end_of(statements[i].text@)),
{
    text::law_first_place(content, marker);
    lemma_stays(statements[i], generated);
    let k = lemma_kept_somewhere(statements, generated, i);
    let kept = users_texts(statements, generated);
    let source = text::trim_end_of(statements[i].text@);
    assert(kept[k] == source);
    let p = lemma_part_of_joined(kept, "\n\n"@, k);
    let whole = text::joined(kept, "\n\n"@);
    let manual = whole + "\n"@;
    assert(text::reads(manual, source, p)) by {
        assert forall|q: int| 0 <= q < source.len() implies manual[p + q]
            == #[trigger] source[q] by {
            assert(whole[p + q] == kept[k][q]);
        }
    }
}

/// Of a file without a marker what is carried over is made of texts of statements
/// that stay, with an empty line between them; and the user is told how many there
/// are, where there are any.
pub proof fn law_inferred_section(
    content: Seq<char>,
    marker: Seq<char>,
    statements: Seq<BuckStatement>,
    buck_path: Seq<char>,
    generated: Seq<Seq<char>>,
    k: int,
)
    requires
        forall|p: int| !#[trigger] text::reads(content, marker, p),
    ensures
        ({
            let kept = users_texts(statements, generated);
            let notices = carried_notices(
                Some(content),
                false,
                marker,
                Ok(statements),
                buck_path,
                generated,
            );
            &&& kept.len() > 0 ==> carried(
                Some(content),
                false,
                marker,
                Ok(statements),
                buck_path,
                generated,
            ) == Ok::<Seq<char>, Seq<Seq<char>>>(
                text::joined(kept, seq!['\n', '\n']) + seq!['\n'],
            )
            &&& kept.len() == 0 ==> carried(
                Some(content),
                false,
                marker,
                Ok(statements),
                buck_path,
                generated,
            ) == Ok::<Seq<char>, Seq<Seq<char>>>(Seq::empty())
            &&& kept.len() == 0 ==> notices.len() == 0
            &&& kept.len() > 0 ==> notices.len() == 1 && (notices[0] matches NoticeModel::Warning(
                message,
            ) && text::reads(
                message,
                buck_path + ": "@ + text::decimal(kept.len()) + " statement(s) "@,
                0,
            ))
            &&& 0 <= k < kept.len() ==> exists|i: int|
                0 <= i < statements.len() && stays(#[trigger] statements[i], generated) && kept[k]
                    == text::trim_end_of(statements[i].text@) && kept[k].len() > 0
        }),
{
    text::law_first_place(content, marker);
    let kept = users_texts(statements, generated);
    reveal_strlit("\n\n");
    reveal_strlit("\n");
    assert("\n\n"@ =~= seq!['\n', '\n']);
    assert("\n"@ =~= seq!['\n']);
    if kept.len() > 0 {
        lemma_moved_warning(buck_path, kept.len());
    }
    if 0 <= k < kept.len() {
        lemma_kept_from(statements, generated, k);
    }
}

proof fn lemma_moved_warning(buck_path: Seq<char>, count: nat)
    ensures
        text::reads(
            moved_warning(buck_path, count),
            buck_path + ": "@ + text::decimal(count) + " statement(s) "@,
            0,
        ),
{
    let rest =
        " statement(s) predating the manual-section marker were moved below it. Rules you added by hand belong there; delete any left over from a target this package no longer has."@;
    let short = " statement(s) "@;
    reveal_strlit(
        " statement(s) predating the manual-section marker were moved below it. Rules you added by hand belong there; delete any left over from a target this package no longer has.",
    );
    reveal_strlit(" statement(s) ");
    assert(short.len() == 14 && rest.len() > 14);
    assert(rest.take(14) =~= short);
    let head = buck_path + ": "@ + text::decimal(count);
    let all = moved_warning(buck_path, count);
    let start = head + short;
    assert(all == head + rest);
    assert forall|q: int| 0 <= q < start.len() implies all[0 + q] == #[trigger] start[q] by {
        if q >= head.len() {
            assert(rest.take(14)[q - head.len()] == short[q - head.len()]);
        }
    }
}

proof fn lemma_kept_from(statements: Seq<BuckStatement>, generated: Seq<Seq<char>>, k: int)
    requires
        0 <= k < users_texts(statements, generated).len(),
    ensures
        exists|i: int|
            0 <= i < statements.len() && stays(#[trigger] statements[i], generated) && users_texts(
                statements,
                generated,
            )[k] == text::trim_end_of(statements[i].text@) && users_texts(
                statements,
                generated,
            )[k].len() > 0,
    decreases statements.len(),
{
    let head = statements.drop_last();
    let before = users_texts(head, generated);
    let n = statements.len() - 1;
    lemma_stays(statements[n], generated);
    if k < before.len() {
        lemma_kept_from(head, generated, k);
        let i = choose|i: int|
            0 <= i < head.len() && stays(#[trigger] head[i], generated) && before[k]
                == text::trim_end_of(head[i].text@) && before[k].len() > 0;
        assert(statements[i] == head[i]);
    } else {
        assert(stays(statements[n], generated));
    }
}

/// A file is cut at the first marker in it: what stands before that is the
/// generator's and what stands behind it the user's. A file in which the marker
/// stands nowhere is not cut.
pub proof fn law_file_is_cut_at_the_first_marker(
    generated: Seq<char>,
    marker: Seq<char>,
    manual: Seq<char>,
    content: Seq<char>,
)
    ensures
        (forall|i: int|
            i < generated.len() ==> !#[trigger] text::reads(
                generated + marker + manual,
                marker,
                i,
            )) ==> sections(generated + marker + manual, marker) == Some((generated, manual)),
        sections(content, marker) is None <==> forall|i: int| !#[trigger]
            text::reads(content, marker, i),
        sections(content, marker) matches Some((g, m)) ==> content == g + marker + m,
{
    let file = generated + marker + manual;
    let n = generated.len() as int;
    text::law_first_place(content, marker);
    if forall|i: int|
        i < generated.len() ==> !#[trigger] text::reads(generated + marker + manual, marker, i) {
        text::law_first_place(file, marker);
        assert(text::reads(file, marker, n)) by {
            assert forall|k: int| 0 <= k < marker.len() implies file[n + k]
                == #[trigger] marker[k] by {}
        }
        assert(text::first_at(file, marker) == Some(n));
        assert(file.take(n) =~= generated);
        assert(file.skip(n + marker.len()) =~= manual);
    }
    if let Some((g, m)) = sections(content, marker) {
        let j = text::first_at(content, marker)->0;
        assert forall|k: int| 0 <= k < marker.len() implies content[j + k] == marker[k] by {
            assert(text::reads(content, marker, j));
            let c = marker[k];
        }
        assert(content =~= g + marker + m);
    }
}

/// Of a file with a marker the section behind the first one is carried over, without
/// the white space round it, unless a target in it is one of the generator's.
/// Nothing is carried over where there is no file or nothing is to be merged; and a
/// file without a marker that does not parse stops the run.
pub proof fn law_what_is_carried_over(
    generated: Seq<char>,
    marker: Seq<char>,
    manual: Seq<char>,
    before: Seq<char>,
    behind: Seq<char>,
    no_merge: bool,
    statements: Result<Seq<BuckStatement>, Seq<Seq<char>>>,
    buck_path: Seq<char>,
    names: Seq<Seq<char>>,
)
    requires
        text::blank(before),
        text::blank(behind),
        manual.len() > 0 ==> !text::is_space(manual[0]) && !text::is_space(manual.last()),
        forall|i: int|
            i < generated.len() ==> !#[trigger] text::reads(
                generated + marker + (before + manual + behind),
                marker,
                i,
            ),
    ensures
        ({
            let file = Some(generated + marker + (before + manual + behind));
            let r = carried(file, false, marker, statements, buck_path, names);
            let clashing = section_clashes(starlark::statements_of(manual), names);
            &&& clashing.len() == 0 ==> r == Ok::<Seq<char>, Seq<Seq<char>>>(manual)
            &&& clashing.len() > 0 ==> r is Err
            &&& carried_notices(file, false, marker, statements, buck_path, names).len() == 0
            &&& carried(file, true, marker, statements, buck_path, names) == Ok::<
                Seq<char>,
                Seq<Seq<char>>,
            >(Seq::empty())
            &&& carried(None, no_merge, marker, statements, buck_path, names) == Ok::<
                Seq<char>,
                Seq<Seq<char>>,
            >(Seq::empty())
            &&& carried_notices(None, no_merge, marker, statements, buck_path, names).len() == 0
            &&& carried_notices(file, true, marker, statements, buck_path, names).len() == 0
        }),
{
    law_file_is_cut_at_the_first_marker(
        generated,
        marker,
        before + manual + behind,
        Seq::empty(),
    );
    text::law_trimmed(before, manual, behind);
}

/// A file without a marker that does not parse stops the run, with the file and
/// what is wrong with it.
pub proof fn law_unreadable_file_stops_the_run(
    content: Seq<char>,
    marker: Seq<char>,
    cause: Seq<Seq<char>>,
    buck_path: Seq<char>,
    names: Seq<Seq<char>>,
)
    requires
        forall|p: int| !#[trigger] text::reads(content, marker, p),
    ensures
        carried(Some(content), false, marker, Err(cause), buck_path, names) matches Err(messages)
            && messages == seq!["Failed to parse "@ + buck_path] + cause,
{
    text::law_first_place(content, marker);
}

/// A file that is written is the generated content, an empty line and the marker,
/// and, where there is a manual section, an empty line and that section. White
/// space at the end of either part does not count.
pub proof fn law_file_is_written(
    content: Seq<char>,
    marker: Seq<char>,
    manual: Seq<char>,
    w: Seq<char>,
    v: Seq<char>,
)
    requires
        text::blank(w),
        text::blank(v),
        content.len() > 0 ==> !text::is_space(content.last()),
        manual.len() > 0,
        !text::is_space(manual.last()),
    ensures
        closed_with(content + w, v, marker) == content + seq!['\n', '\n'] + marker + seq!['\n'],
        closed_with(content + w, manual + v, marker) == content + seq!['\n', '\n'] + marker
            + seq!['\n', '\n'] + manual + seq!['\n'],
{
    reveal_strlit("\n\n");
    reveal_strlit("\n");
    assert("\n\n"@ =~= seq!['\n', '\n']);
    assert("\n"@ =~= seq!['\n']);
    text::lemma_trim_end_blank(content, w);
    text::lemma_trim_end_blank(manual, v);
    text::lemma_trim_both(manual + v);
    text::lemma_trim_both(v);
    assert(Seq::<char>::empty() + v =~= v);
    text::lemma_trim_end_blank(Seq::empty(), v);
    assert(text::trim_end_of(Seq::<char>::empty()) =~= Seq::<char>::empty());
    assert(closed_with(content + w, v, marker) =~= content + seq!['\n', '\n'] + marker
        + seq!['\n']);
    assert(closed_with(content + w, manual + v, marker) =~= content + seq!['\n', '\n'] + marker
        + seq!['\n', '\n'] + manual + seq!['\n']);
}

/// A symbol is loaded for a manual section if and only if the section refers to it,
/// the generator can load it, and no `load` statement of the section binds it.
pub proof fn law_loads_are_what_is_needed(
    statements: Seq<BuckStatement>,
    referenced: Seq<Seq<char>>,
    symbols: Seq<Seq<char>>,
    name: Seq<char>,
)
    ensures
        loads_needed(Some(statements), Some(referenced), symbols).contains(name) <==> (exists|k: int|
            0 <= k < referenced.len() && #[trigger] referenced[k] == name) && (exists|k: int|
            0 <= k < symbols.len() && #[trigger] symbols[k] == name) && (forall|i: int, j: int|
            0 <= i < statements.len() && statements[i].is_load && 0 <= j
                < statements[i].load_bindings@.len() ==> (
            #[trigger] statements[i].load_bindings@[j]).local@ != name),
        loads_needed(None, Some(referenced), symbols) == Set::<Seq<char>>::empty(),
        loads_needed(Some(statements), None, symbols) == Set::<Seq<char>>::empty(),
{
    assert(referenced.to_set().contains(name) <==> referenced.contains(name));
}

/// The first rule that exports the workspace manifest is an `export_file` rule with
/// that name, and none comes before it.
pub proof fn law_first_export_rule(rules: Seq<Rule>)
    ensures
        ({
            let at = workspace_export_at(rules);
            &&& 0 <= at <= rules.len()
            &&& at < rules.len() ==> rules[at].kind == RuleKind::ExportFile && text::view_opt(
                rules[at].name,
            ) == Some("workspace"@)
            &&& forall|j: int|
                0 <= j < at ==> !((#[trigger] rules[j]).kind == RuleKind::ExportFile
                    && text::view_opt(rules[j].name) == Some("workspace"@))
        }),
    decreases rules.len(),
{
    if rules.len() > 0 && !is_workspace_export(rules[0]) {
        let rest = rules.drop_first();
        law_first_export_rule(rest);
        let at = workspace_export_at(rules);
        assert forall|j: int| 0 <= j < at implies !((#[trigger] rules[j]).kind
            == RuleKind::ExportFile && text::view_opt(rules[j].name) == Some("workspace"@)) by {
            if j > 0 {
                assert(rest[j - 1] == rules[j]);
            }
        }
    }
}

/// The first statement that exports the workspace manifest calls `export_file` with
/// that name, and none comes before it.
pub proof fn law_first_export_statement(statements: Seq<BuckStatement>)
    ensures
        ({
            let at = export_statement_at(statements);
            &&& 0 <= at <= statements.len()
            &&& at < statements.len() ==> text::view_opt(statements[at].call_name) == Some(
                "export_file"@,
            ) && text::view_opt(statements[at].target_name) == Some("workspace"@)
            &&& forall|j: int|
                0 <= j < at ==> !(text::view_opt((#[trigger] statements[j]).call_name) == Some(
                    "export_file"@,
                ) && text::view_opt(statements[j].target_name) == Some("workspace"@))
        }),
    decreases statements.len(),
{
    if statements.len() > 0 && !exports_workspace(statements[0]) {
        let rest = statements.drop_first();
        law_first_export_statement(rest);
        let at = export_statement_at(statements);
        assert forall|j: int| 0 <= j < at implies !(text::view_opt(
            (#[trigger] statements[j]).call_name,
        ) == Some("export_file"@) && text::view_opt(statements[j].target_name) == Some(
            "workspace"@,
        )) by {
            if j > 0 {
                assert(rest[j - 1] == statements[j]);
            }
        }
    }
}

/// Putting the export into a file leaves every byte before and behind the statement
/// that it replaces. Where there is none, it leaves the whole file, but for the
/// white space at its end.
pub proof fn law_splicing_keeps_the_rest(
    content: Seq<char>,
    w: Seq<char>,
    rendered: Seq<char>,
    v: Seq<char>,
    statements: Seq<BuckStatement>,
    i: int,
)
    requires
        text::blank(w),
        text::blank(v),
        content.len() > 0 ==> !text::is_space(content.last()),
        rendered.len() > 0 ==> !text::is_space(rendered.last()),
        0 <= i <= statements.len(),
        forall|j: int| 0 <= j < i ==> !exports_workspace(#[trigger] statements[j]),
        i < statements.len() ==> exports_workspace(statements[i]) && stands_in(
            statements[i],
            content + w,
        ),
    ensures
        ({
            let out = with_workspace_export(content + w, rendered + v, statements);
            let bytes = encode_utf8(content + w);
            let export = encode_utf8(rendered);
            &&& i < statements.len() ==> {
                let start = statements[i].start as int;
                let end = statements[i].end as int;
                &&& out.len() == bytes.len() - (end - start) + export.len()
                &&& forall|k: int| 0 <= k < start ==> out[k] == bytes[k]
                &&& forall|k: int| 0 <= k < export.len() ==> out[start + k] == #[trigger] export[k]
                &&& forall|k: int|
                    end <= k < bytes.len() ==> out[k - end + start + export.len()]
                        == #[trigger] bytes[k]
            }
            &&& i == statements.len() ==> out == encode_utf8(
                content + seq!['\n', '\n'] + rendered + seq!['\n'],
            )
        }),
{
    lemma_export_statement_at(statements, i);
    text::lemma_trim_end_blank(content, w);
    text::lemma_trim_end_blank(rendered, v);
    reveal_strlit("\n\n");
    reveal_strlit("\n");
    assert("\n\n"@ =~= seq!['\n', '\n']);
    assert("\n"@ =~= seq!['\n']);
}

/// The rules without the `load` statements keep their order, and none of the others
/// is lost.
pub proof fn law_only_loads_are_dropped(a: Seq<Rule>, b: Seq<Rule>, rule: Rule)
    ensures
        loads_dropped(a + b) == loads_dropped(a) + loads_dropped(b),
        rule.kind != RuleKind::Load ==> loads_dropped(seq![rule]) == seq![rule],
        rule.kind == RuleKind::Load ==> loads_dropped(seq![rule]).len() == 0,
    decreases a.len(),
{
    let one = seq![rule];
    assert(one.drop_first() =~= Seq::<Rule>::empty());
    assert(loads_dropped(one.drop_first()) =~= Seq::<Rule>::empty());
    assert(seq![rule] + Seq::<Rule>::empty() =~= seq![rule]);
    if a.len() == 0 {
        assert(a + b =~= b);
        assert(loads_dropped(a) + loads_dropped(b) =~= loads_dropped(b));
    } else {
        law_only_loads_are_dropped(a.drop_first(), b, rule);
        assert((a + b).drop_first() =~= a.drop_first() + b);
        assert((a + b)[0] == a[0]);
        assert(loads_dropped(a + b) =~= loads_dropped(a) + loads_dropped(b));
    }
}

/// Whether the `i`-th argument is a `name` with a text.
pub open spec fn names_target(args: Seq<starlark::ArgModel>, i: int, name: Seq<char>) -> bool {
    0 <= i < args.len() && args[i].name == Some("name"@) && args[i].value
        == starlark::ValueModel::Text(name)
}

/// Whether the `i`-th argument is the first `name` with a text.
pub open spec fn names_target_first(
    args: Seq<starlark::ArgModel>,
    i: int,
    name: Seq<char>,
) -> bool {
    &&& names_target(args, i, name)
    &&& forall|j: int, other: Seq<char>| j < i ==> !#[trigger] names_target(args, j, other)
}

/// A call gives a target the text of its first `name` argument that has one, and no
/// name where it has none.
pub proof fn law_first_name_counts(args: Seq<starlark::ArgModel>)
    ensures
        name_argument(args) is Some ==> exists|i: int| #[trigger]
            names_target_first(args, i, name_argument(args)->0),
        name_argument(args) is None ==> forall|j: int, other: Seq<char>| !#[trigger]
            names_target(args, j, other),
    decreases args.len(),
{
    if args.len() > 0 {
        if args[0].name == Some("name"@) && args[0].value is Text {
            let name = args[0].value->Text_0;
            assert(name_argument(args) == Some(name));
            assert(names_target_first(args, 0, name));
            assert(names_target_first(args, 0, name_argument(args)->0));
        } else {
            let rest = args.drop_first();
            law_first_name_counts(rest);
            assert forall|j: int, other: Seq<char>|
                j > 0 implies #[trigger] names_target(args, j, other) == names_target(
                rest,
                j - 1,
                other,
            ) by {
                if 0 < j < args.len() {
                    assert(rest[j - 1] == args[j]);
                }
            }
            if let Some(name) = name_argument(args) {
                let i = choose|i: int| #[trigger] names_target_first(rest, i, name);
                assert(names_target(args, i + 1, name));
                assert forall|j: int, other: Seq<char>| j < i + 1 implies !#[trigger] names_target(
                    args,
                    j,
                    other,
                ) by {
                    if j > 0 {
                        assert(!names_target(rest, j - 1, other));
                    }
                }
                assert(names_target_first(args, i + 1, name_argument(args)->0));
            } else {
                assert forall|j: int, other: Seq<char>| !#[trigger] names_target(
                    args,
                    j,
                    other,
                ) by {
                    if j > 0 {
                        assert(!names_target(rest, j - 1, other));
                    }
                }
            }
        }
    }
}

/// The clashing names of two lists of statements are those of the first and then
/// those of the second. A single call clashes if and only if its name is one of the
/// generator's.
pub proof fn law_every_clash_counts(
    a: Seq<starlark::StmtModel>,
    b: Seq<starlark::StmtModel>,
    generated: Seq<Seq<char>>,
    callee: Option<Seq<char>>,
    args: Seq<starlark::ArgModel>,
)
    ensures
        clashes(a + b, generated) == clashes(a, generated) + clashes(b, generated),
        ({
            let one = seq![starlark::StmtModel::Call(callee, args)];
            match name_argument(args) {
                Some(name) => clashes(one, generated) == if generated.contains(name) {
                    seq![name]
                } else {
                    Seq::empty()
                },
                None => clashes(one, generated).len() == 0,
            }
        }),
        clashes(seq![starlark::StmtModel::Other], generated).len() == 0,
        section_clashes(Some(a), generated) == clashes(a, generated),
        section_clashes(None, generated).len() == 0,
    decreases b.len(),
{
    let one = seq![starlark::StmtModel::Call(callee, args)];
    assert(one.drop_last() =~= Seq::<starlark::StmtModel>::empty());
    assert(one.last() == starlark::StmtModel::Call(callee, args));
    assert(clashes(one.drop_last(), generated) =~= Seq::<Seq<char>>::empty());
    let other = seq![starlark::StmtModel::Other];
    assert(other.drop_last() =~= Seq::<starlark::StmtModel>::empty());
    if let Some(name) = name_argument(args) {
        assert(Seq::<Seq<char>>::empty().push(name) =~= seq![name]);
    }
    if b.len() == 0 {
        assert(a + b =~= a);
        assert(clashes(a, generated) + clashes(b, generated) =~= clashes(a, generated));
    } else {
        law_every_clash_counts(a, b.drop_last(), generated, callee, args);
        assert((a + b).drop_last() =~= a + b.drop_last());
        assert((a + b).last() == b.last());
        assert(clashes(a + b, generated) =~= clashes(a, generated) + clashes(b, generated));
    }
}

/// Whether `id` is the identifier of a package that comes from elsewhere, made of
/// these parts; `build` is empty, or a plus sign and what follows it.
pub open spec fn identifier_of(
    id: Seq<char>,
    kind: Seq<char>,
    source: Seq<char>,
    name: Seq<char>,
    version: Seq<char>,
    build: Seq<char>,
) -> bool {
    &&& id == kind + seq!['+'] + source + seq!['#'] + name + seq!['@'] + version + build
    &&& kind.len() > 0 && !kind.contains('+') && !kind.contains('#')
    &&& source.len() > 0 && !source.contains('#')
    &&& name.len() > 0 && !name.contains('@')
    &&& version.len() > 0 && !version.contains('+') && !version.contains('#')
    &&& build.len() == 0 || (build.len() > 1 && build[0] == '+' && !build.skip(1).contains('\n'))
}

/// The name and the version of a package are read from its identifier, without the
/// build metadata; so a package that is gone is told of by them, unless it was read
/// from a path.
pub proof fn law_identifier_is_read(
    id: Seq<char>,
    kind: Seq<char>,
    source: Seq<char>,
    name: Seq<char>,
    version: Seq<char>,
    build: Seq<char>,
)
    requires
        identifier_of(id, kind, source, name, version, build),
    ensures
        name_and_version(id) == Some((name, version)),
        forall|r: Removal| #[trigger]
            removal_planned(id, false, r) <==> (r matches Removal::Remove { title } && title@ == name
                + " v"@ + version),
        forall|r: Removal| #[trigger] removal_planned(id, true, r) <==> r == Removal::Keep,
{
    let k = kind.len() as int;
    let h = k + 1 + source.len();
    let rest = name + seq!['@'] + version + build;
    let tail = version + build;
    assert(id[k] == '+');
    assert forall|j: int| 0 <= j < k implies id[j] != '+' by {
        assert(kind.contains(kind[j]));
    }
    text::lemma_first_char_is(id, '+', k);
    assert(id[h] == '#');
    assert forall|j: int| 0 <= j < h implies id[j] != '#' by {
        if j < k {
            assert(kind.contains(kind[j]));
        } else if j > k {
            assert(source.contains(source[j - k - 1]));
        }
    }
    text::lemma_first_char_is(id, '#', h);
    assert(id.skip(h + 1) =~= rest);
    let n = name.len() as int;
    assert(rest[n] == '@');
    assert forall|j: int| 0 <= j < n implies rest[j] != '@' by {
        assert(name.contains(name[j]));
    }
    text::lemma_first_char_is(rest, '@', n);
    assert(rest.take(n) =~= name);
    assert(rest.skip(n + 1) =~= tail);
    let v = version.len() as int;
    assert forall|j: int| 0 <= j < v implies tail[j] != '+' && tail[j] != '#' by {
        assert(version.contains(version[j]));
    }
    if build.len() > 0 {
        assert(tail[v] == '+');
    }
    text::lemma_first_char_is(tail, '+', v);
    text::lemma_first_char(tail, '#');
    let f = text::first_char(tail, '#');
    if f < v {
        assert(tail[f] == '#');
    }
    assert(tail.take(v) =~= version);
    if build.len() == 0 {
        assert(tail =~= version);
    } else {
        assert(tail.skip(v + 1) =~= build.skip(1));
    }
}

/// An identifier without a `#`, or with no `@` behind the first one, has not the
/// form that it must have.
pub proof fn law_other_identifiers_are_malformed(id: Seq<char>, left: Seq<char>, right: Seq<char>)
    ensures
        !id.contains('#') ==> name_and_version(id) is None,
        !left.contains('#') && !right.contains('@') ==> name_and_version(
            left + seq!['#'] + right,
        ) is None,
        name_and_version(id) is None ==> forall|r: Removal| #[trigger]
            removal_planned(id, false, r) <==> r == Removal::Malformed,
{
    text::lemma_first_char(id, '#');
    if !id.contains('#') && text::first_char(id, '#') < id.len() {
        assert(id.contains(id[text::first_char(id, '#')]));
    }
    if !left.contains('#') && !right.contains('@') {
        let s = left + seq!['#'] + right;
        let n = left.len() as int;
        assert forall|j: int| 0 <= j < n implies s[j] != '#' by {
            assert(left.contains(left[j]));
        }
        assert(s[n] == '#');
        text::lemma_first_char_is(s, '#', n);
        assert(s.skip(n + 1) =~= right);
        text::lemma_first_char(right, '@');
        let at = text::first_char(right, '@');
        if at < right.len() {
            assert(right.contains(right[at]));
        }
    }
}

/// Whether the step says that the file of a package with this identifier is written,
/// with the word and the title that the user is told.
pub open spec fn step_writes(
    step: ChangeAction,
    nodes: Seq<BuckalNode>,
    id: Seq<char>,
    verb: Seq<char>,
) -> bool {
    step matches ChangeAction::Update { node, plan } && node < nodes.len() && {
        let package = nodes[node as int];
        &&& package.package_id@ == id
        &&& plan.verb@ == verb
        &&& plan.title@ == package.name@ + " v"@ + package.version@
        &&& plan.third_party == (package.kind is ThirdParty)
    }
}

proof fn lemma_found(nodes: Seq<BuckalNode>, id: Seq<char>)
    ensures
        0 <= node_at(nodes, id) <= nodes.len(),
        node_at(nodes, id) < nodes.len() ==> nodes[node_at(nodes, id)].package_id@ == id,
        forall|j: int| 0 <= j < node_at(nodes, id) ==> (#[trigger] nodes[j]).package_id@ != id,
    decreases nodes.len(),
{
    if nodes.len() > 0 && nodes[0].package_id@ != id {
        let rest = nodes.drop_first();
        lemma_found(rest, id);
        assert forall|j: int| 0 <= j < node_at(nodes, id) implies (
        #[trigger] nodes[j]).package_id@ != id by {
            if j > 0 {
                assert(rest[j - 1] == nodes[j]);
            }
        }
    }
}

/// Every package that is new or has changed and is in the graph has its file
/// written, wherever it comes from; where several packages of the graph have the
/// identifier, that of the first. A package that is not in the graph is passed
/// over, and only such a one. There is one step for each package that differs.
pub proof fn law_changed_packages_are_written(
    changes: Map<Seq<char>, ChangeType>,
    nodes: Seq<BuckalNode>,
    path_sources: Set<Seq<char>>,
    owners: Seq<bool>,
    workspace_inherit: bool,
    plan: ApplyPlan,
    i: int,
    k: int,
)
    requires
        plan_for(changes, nodes, path_sources, owners, workspace_inherit, plan),
        0 <= i < sorted::in_order(changes.dom()).len(),
    ensures
        plan.steps@.len() == sorted::in_order(changes.dom()).len(),
        ({
            let id = sorted::in_order(changes.dom())[i];
            let step = plan.steps@[i];
            &&& changes[id] == ChangeType::Added && 0 <= k < nodes.len() && nodes[k].package_id@
                == id ==> step_writes(step, nodes, id, "Adding"@) && step->node <= k
            &&& changes[id] == ChangeType::Changed && 0 <= k < nodes.len() && nodes[k].package_id@
                == id ==> step_writes(step, nodes, id, "Flushing"@) && step->node <= k
            &&& step is Ignore <==> changes[id] != ChangeType::Removed && forall|j: int|
                0 <= j < nodes.len() ==> (#[trigger] nodes[j]).package_id@ != id
            &&& step is Gone <==> changes[id] == ChangeType::Removed
            &&& step matches ChangeAction::Gone(r) ==> removal_planned(
                id,
                path_sources.contains(id),
                r,
            )
        }),
{
    let id = sorted::in_order(changes.dom())[i];
    let step = plan.steps@[i];
    lemma_found(nodes, id);
    let at = node_at(nodes, id);
    if at < nodes.len() {
        assert(nodes[at].package_id@ == id);
    }
    if 0 <= k < at {
        assert(nodes[k].package_id@ != id);
    }
}

/// Every package that is new or has changed and is in the graph has its file
/// written, whichever it is.
pub proof fn law_each_change_is_written(
    changes: Map<Seq<char>, ChangeType>,
    nodes: Seq<BuckalNode>,
    path_sources: Set<Seq<char>>,
    owners: Seq<bool>,
    workspace_inherit: bool,
    plan: ApplyPlan,
    id: Seq<char>,
    k: int,
)
    requires
        plan_for(changes, nodes, path_sources, owners, workspace_inherit, plan),
        changes.dom().finite(),
        changes.contains_key(id),
        changes[id] != ChangeType::Removed,
        0 <= k < nodes.len(),
        nodes[k].package_id@ == id,
    ensures
        changes[id] == ChangeType::Added ==> exists|i: int|
            0 <= i < plan.steps@.len() && step_writes(
                #[trigger] plan.steps@[i],
                nodes,
                id,
                "Adding"@,
            ),
        changes[id] == ChangeType::Changed ==> exists|i: int|
            0 <= i < plan.steps@.len() && step_writes(
                #[trigger] plan.steps@[i],
                nodes,
                id,
                "Flushing"@,
            ),
        plan.steps@.len() == changes.dom().len(),
{
    sorted::law_members_in_order(changes.dom(), id, 0, 0);
    let ids = sorted::in_order(changes.dom());
    let i = choose|i: int| 0 <= i < ids.len() && ids[i] == id;
    law_changed_packages_are_written(
        changes,
        nodes,
        path_sources,
        owners,
        workspace_inherit,
        plan,
        i,
        k,
    );
    let verb = if changes[id] == ChangeType::Added {
        "Adding"@
    } else {
        "Flushing"@
    };
    assert(step_writes(plan.steps@[i], nodes, id, verb));
}

/// The first file that is written for a package with the workspace's manifest
/// exports that manifest, where packages inherit from the workspace, and no other
/// does. A file of its own is written for the export if and only if none does.
pub proof fn law_who_exports_the_workspace(
    changes: Map<Seq<char>, ChangeType>,
    nodes: Seq<BuckalNode>,
    path_sources: Set<Seq<char>>,
    owners: Seq<bool>,
    workspace_inherit: bool,
    plan: ApplyPlan,
    i: int,
)
    requires
        plan_for(changes, nodes, path_sources, owners, workspace_inherit, plan),
        owners.len() == nodes.len(),
        0 <= i < plan.steps@.len(),
    ensures
        step_exports(plan.steps@[i]) ==> workspace_inherit && owners[plan.steps@[i]->node as int]
            && !plan.fallback,
        plan.steps@[i] is Update && workspace_inherit && owners[plan.steps@[i]->node as int] ==>
            !plan.fallback && exists|j: int| 0 <= j <= i && step_exports(#[trigger] plan.steps@[j]),
        plan.fallback ==> workspace_inherit,
        workspace_inherit && !plan.fallback ==> exists|j: int|
            0 <= j < plan.steps@.len() && step_exports(#[trigger] plan.steps@[j]),
        step_exports(plan.steps@[i]) <==> (plan.steps@[i] matches ChangeAction::Update {
            plan: update,
            ..
        } && update.export_workspace),
{
    let steps = plan.steps@;
    let id = sorted::in_order(changes.dom())[i];
    lemma_found(nodes, id);
    assert(step_planned(
        id,
        changes[id],
        nodes,
        path_sources,
        owners,
        workspace_inherit,
        exported_before(steps, i),
        steps[i],
    ));
    if step_exports(steps[i]) {
        assert(exported_before(steps, steps.len() as int));
    }
    if exported_before(steps, i) {
        let j = choose|j: int| 0 <= j < i && step_exports(#[trigger] steps[j]);
        assert(0 <= j <= i && step_exports(steps[j]));
        assert(exported_before(steps, steps.len() as int));
    }
    if exported_before(steps, steps.len() as int) {
        let j = choose|j: int| 0 <= j < steps.len() && step_exports(#[trigger] steps[j]);
        assert(step_exports(steps[j]));
    }
}

/// The file of a package is written with the flags of its own rules, where it is a
/// first-party package, and then with those of its build script, whatever package it
/// is. The first provider that is not vendored stops it.
pub proof fn law_flags_of_rules_and_build_script(
    content: Seq<char>,
    nodes: Seq<BuckalNode>,
    deps: Seq<BuckalDep>,
    node: BuckalNode,
)
    ensures
        node.kind is ThirdParty ==> flags_patched(content, nodes, deps, node)
            == windows::buildscript_patched(content, nodes, deps, node),
        node.kind is FirstParty ==> match windows::root_patched(content, nodes, node.targets@) {
            Ok(patched) => flags_patched(content, nodes, deps, node)
                == windows::buildscript_patched(patched, nodes, deps, node),
            Err(package) => flags_patched(content, nodes, deps, node) == Err::<
                Seq<char>,
                Seq<char>,
            >(package),
        },
{
}

/// The first package at the root of the workspace exports its manifest, where
/// packages inherit from the workspace and none has exported it before; no other
/// package does.
pub proof fn law_root_package_exports_the_manifest(
    change: ChangeType,
    node: BuckalNode,
    root: Seq<char>,
    workspace_inherit: bool,
    emitted: bool,
    p: UpdatePlan,
)
    requires
        update_planned(change, node, root, workspace_inherit, emitted, p),
        paths::plain(root),
        paths::rooted(node.manifest_path@),
    ensures
        p.export_workspace <==> workspace_inherit && !emitted && node.manifest_path@ == root
            + "/Cargo.toml"@,
        p.verb@ == if change == ChangeType::Added {
            "Adding"@
        } else {
            "Flushing"@
        },
        p.title@ == node.name@ + " v"@ + node.version@,
        p.third_party <==> node.kind is ThirdParty,
{
    reveal_strlit("/");
    reveal_strlit("Cargo.toml");
    reveal_strlit("/Cargo.toml");
    let owns = choose|owns: bool| #[trigger]
        ownership_found(node, root, owns) && update_given(
            change,
            node,
            owns,
            workspace_inherit,
            emitted,
            p,
        );
    assert(ownership_found(node, root, owns));
    assert(root != "/"@);
    assert(root + "/"@ + "Cargo.toml"@ =~= root + "/Cargo.toml"@);
}

/// A manual section with clashing targets is refused with the file and the names.
pub proof fn law_clashes_are_told(buck_path: Seq<char>, names: Seq<Seq<char>>)
    ensures
        text::reads(
            collision_message(buck_path, names),
            buck_path + ": the manual section declares target(s) "@ + text::joined(names, ", "@),
            0,
        ),
{
    let head = buck_path + ": the manual section declares target(s) "@ + text::joined(
        names,
        ", "@,
    );
    let all = collision_message(buck_path, names);
    assert forall|k: int| 0 <= k < head.len() implies all[0 + k] == #[trigger] head[k] by {}
}

/// The export takes the place of the first rule that exports the manifest, or comes
/// behind all rules where there is none. Every other rule stays where it is.
pub proof fn law_export_takes_its_place(rules: Seq<Rule>, export: Rule, i: int)
    ensures
        ({
            let at = workspace_export_at(rules);
            let out = with_export(rules, export);
            &&& 0 <= at < out.len()
            &&& out[at] == export
            &&& out.len() == if at < rules.len() {
                rules.len()
            } else {
                rules.len() + 1
            }
            &&& 0 <= i < rules.len() && i != at ==> out[i] == rules[i]
        }),
{
    law_first_export_rule(rules);
}

/// A file at the workspace's root with a marker keeps the section behind the first
/// one; a blank file has an empty section; any other file has none.
pub proof fn law_section_of_the_root_file(
    generated: Seq<char>,
    marker: Seq<char>,
    before: Seq<char>,
    manual: Seq<char>,
    behind: Seq<char>,
    content: Seq<char>,
)
    requires
        text::blank(before),
        text::blank(behind),
        manual.len() > 0 ==> !text::is_space(manual[0]) && !text::is_space(manual.last()),
        forall|i: int|
            i < generated.len() ==> !#[trigger] text::reads(
                generated + marker + (before + manual + behind),
                marker,
                i,
            ),
        forall|i: int| !#[trigger] text::reads(content, marker, i),
    ensures
        fallback_section(generated + marker + (before + manual + behind), marker) == Some(manual),
        text::blank(content) ==> fallback_section(content, marker) == Some(Seq::<char>::empty()),
        !text::blank(content) ==> fallback_section(content, marker) is None,
{
    law_file_is_cut_at_the_first_marker(generated, marker, before + manual + behind, content);
    text::law_trimmed(before, manual, behind);
    text::lemma_trim_both(content);
    text::lemma_trim_end(content);
    if text::blank(content) {
        text::law_trimmed(content, Seq::empty(), Seq::empty());
        assert(content + Seq::<char>::empty() + Seq::<char>::empty() =~= content);
    }
    if text::trim_of(content).len() == 0 {
        assert(content.skip(0) =~= content);
    }
}

} // verus!
