//! Starlark source: the calls that a file makes, and the text of expressions.

use vstd::prelude::*;
use vstd::string::*;
use vstd::utf8::*;

use starlark_syntax::codemap::Spanned;
use starlark_syntax::syntax::ast::AstLiteral;
use starlark_syntax::syntax::ast::ExprP::{Call, Identifier, List, Literal};
use starlark_syntax::syntax::ast::StmtP::Expression;
use starlark_syntax::syntax::top_level_stmts::top_level_stmts;
use starlark_syntax::syntax::{AstModule, Dialect};

use crate::text;
use crate::text::chars_of;

verus! {

/// The value of a call's argument, as far as rules are looked up by it.
#[derive(Debug)]
pub enum StarlarkValue {
    /// A string literal, with its contents.
    Text(String),
    /// A list display, with the byte position just behind its closing bracket.
    List(u32),
    /// Any other expression.
    Other,
}

/// An argument of a call. Only a keyword argument has a name.
#[derive(Debug)]
pub struct StarlarkArg {
    pub name: Option<String>,
    pub value: StarlarkValue,
}

/// A statement at the top level of a file.
#[derive(Debug)]
pub enum StarlarkStmt {
    /// A call: the name that is called, where what is called is an identifier, and
    /// the arguments.
    Call(Option<String>, Vec<StarlarkArg>),
    /// Any other statement.
    Other,
}

/// The model of a [`StarlarkValue`].
pub ghost enum ValueModel {
    Text(Seq<char>),
    List(int),
    Other,
}

/// The model of a [`StarlarkArg`].
pub ghost struct ArgModel {
    pub name: Option<Seq<char>>,
    pub value: ValueModel,
}

/// The model of a [`StarlarkStmt`].
pub ghost enum StmtModel {
    Call(Option<Seq<char>>, Seq<ArgModel>),
    Other,
}

impl View for StarlarkValue {
    type V = ValueModel;

    open spec fn view(&self) -> ValueModel {
        match *self {
            StarlarkValue::Text(s) => ValueModel::Text(s@),
            StarlarkValue::List(end) => ValueModel::List(end as int),
            StarlarkValue::Other => ValueModel::Other,
        }
    }
}

impl View for StarlarkArg {
    type V = ArgModel;

    open spec fn view(&self) -> ArgModel {
        ArgModel { name: text::view_opt(self.name), value: self.value@ }
    }
}

impl View for StarlarkStmt {
    type V = StmtModel;

    open spec fn view(&self) -> StmtModel {
        match *self {
            StarlarkStmt::Call(callee, args) => StmtModel::Call(
                text::view_opt(callee),
                Seq::new(args@.len(), |i: int| args@[i]@),
            ),
            StarlarkStmt::Other => StmtModel::Other,
        }
    }
}

/// The models of a sequence of statements.
pub open spec fn stmt_models(s: Seq<StarlarkStmt>) -> Seq<StmtModel> {
    Seq::new(s.len(), |i: int| s[i]@)
}

/// A file that `starlark_syntax` has parsed.
#[verifier::external_type_specification]
#[verifier::external_body]
pub struct ExAstModule(AstModule);

/// The top-level statements that a parsed file holds.
pub uninterp spec fn held_statements(module: AstModule) -> Seq<StmtModel>;

/// The top-level statements that `starlark_syntax` finds in `source` under its
/// extended dialect, or nothing if it does not parse.
pub uninterp spec fn starlark_statements(source: Seq<char>) -> Option<Seq<StmtModel>>;

/// Whether the positions in `source` are numbers that `starlark_syntax` has.
pub open spec fn has_positions(source: Seq<char>) -> bool {
    encode_utf8(source).len() < u32::MAX
}

/// The top-level statements of `source`, or nothing if it does not parse. A source
/// that is too long for its positions does not.
pub open spec fn statements_of(source: Seq<char>) -> Option<Seq<StmtModel>> {
    if has_positions(source) {
        starlark_statements(source)
    } else {
        None
    }
}

/// `starlark_syntax::syntax::AstModule::parse`, under `Dialect::Extended`. The
/// claim is that the outcome depends on the source alone; what the grammar accepts
/// and where the parser puts its positions is left unsaid. Positions are counted
/// in thirty-two bits, and where they wrapped around the parser would panic.
#[verifier::external_body]
fn parse_module(source: &str) -> (r: Option<AstModule>)
    requires
        has_positions(source@),
    ensures
        starlark_statements(source@) == match r {
            Some(module) => Some(held_statements(module)),
            None => None,
        },
{
    AstModule::parse("BUCK", source.to_owned(), &Dialect::Extended).ok()
}

/// `starlark_syntax::syntax::top_level_stmts::top_level_stmts`: the statements
/// that a parsed file holds.
#[verifier::external_body]
fn list_statements(module: &AstModule) -> (r: Vec<StarlarkStmt>)
    ensures
        stmt_models(r@) == held_statements(*module),
{
    top_level_stmts(module.statement()).into_iter().map(|s| match &s.node {
        Expression(Spanned { node: Call(f, a), .. }) => StarlarkStmt::Call(
            match &f.node { Identifier(i) => Some(i.ident.clone()), _ => None },
            a.args.iter().map(|x| StarlarkArg {
                name: x.name().map(str::to_owned),
                value: match &x.expr().node {
                    Literal(AstLiteral::String(t)) => StarlarkValue::Text(t.node.clone()),
                    List(_) => StarlarkValue::List(x.expr().span.end().get()),
                    _ => StarlarkValue::Other }
            }).collect()),
        _ => StarlarkStmt::Other
    }).collect()
}

/// The top-level statements of `source`.
pub(crate) fn parse_statements(source: &str) -> (r: Option<Vec<StarlarkStmt>>)
    ensures
        r is Some <==> statements_of(source@) is Some,
        r matches Some(v) ==> statements_of(source@) == Some(stmt_models(v@)),
{
    if source.as_bytes().len() < u32::MAX as usize {
        match parse_module(source) {
            Some(module) => Some(list_statements(&module)),
            None => None,
        }
    } else {
        None
    }
}

/// An expression that is written out over several lines.
#[derive(Debug)]
pub enum StarlarkExpr {
    /// A string literal, with its contents.
    Text(String),
    /// A list display.
    List(Vec<StarlarkExpr>),
    /// A call of `select` on a dictionary display.
    Select(Vec<(StarlarkExpr, StarlarkExpr)>),
    /// Any other expression, in the form that `starlark_syntax` displays it.
    Raw(String),
}

/// `n` spaces.
pub open spec fn spaces(n: nat) -> Seq<char> {
    Seq::new(n, |i: int| ' ')
}

/// The characters that stand for `c` in a string literal.
pub open spec fn escaped_char(c: char) -> Seq<char> {
    if c == '\\' {
        "\\\\"@
    } else if c == '"' {
        "\\\""@
    } else if c == '\n' {
        "\\n"@
    } else if c == '\r' {
        "\\r"@
    } else if c == '\t' {
        "\\t"@
    } else {
        seq![c]
    }
}

/// The characters that stand for `s` in a string literal.
pub open spec fn escaped(s: Seq<char>) -> Seq<char>
    decreases s.len(),
{
    if s.len() == 0 {
        Seq::empty()
    } else {
        escaped(s.drop_last()) + escaped_char(s.last())
    }
}

/// The string literal whose contents are `s`.
pub open spec fn quoted(s: Seq<char>) -> Seq<char> {
    "\""@ + escaped(s) + "\""@
}

/// The text of an expression that starts in a line indented by `indent`. The
/// items of a list and the entries of a `select` stand in lines of their own,
/// indented by four more.
pub open spec fn pretty(e: StarlarkExpr, indent: nat) -> Seq<char>
    decreases e, 0nat,
{
    match e {
        StarlarkExpr::Text(s) => quoted(s@),
        StarlarkExpr::List(items) => if items@.len() == 0 {
            "[]"@
        } else {
            "[\n"@ + pretty_items(items@, indent, items@.len()) + spaces(indent) + "]"@
        },
        StarlarkExpr::Select(entries) => "select({\n"@ + pretty_entries(
            entries@,
            indent,
            entries@.len(),
        ) + spaces(indent) + "})"@,
        StarlarkExpr::Raw(s) => s@,
    }
}

/// The lines of the first `n` items of a list.
pub open spec fn pretty_items(items: Seq<StarlarkExpr>, indent: nat, n: nat) -> Seq<char>
    decreases items, n,
{
    if n == 0 || n > items.len() {
        Seq::empty()
    } else {
        pretty_items(items, indent, (n - 1) as nat) + spaces(indent + 4) + pretty(
            items[n - 1],
            indent + 4,
        ) + ",\n"@
    }
}

/// The lines of the first `n` entries of a `select`.
pub open spec fn pretty_entries(
    entries: Seq<(StarlarkExpr, StarlarkExpr)>,
    indent: nat,
    n: nat,
) -> Seq<char>
    decreases entries, n,
{
    if n == 0 || n > entries.len() {
        Seq::empty()
    } else {
        pretty_entries(entries, indent, (n - 1) as nat) + spaces(indent + 4) + pretty(
            entries[n - 1].0,
            indent + 4,
        ) + ": "@ + pretty(entries[n - 1].1, indent + 4) + ",\n"@
    }
}

/// Whether every indentation that the text of `e` needs is a machine number.
pub open spec fn indents_fit(e: StarlarkExpr, indent: nat) -> bool
    decreases e, 0nat,
{
    match e {
        StarlarkExpr::List(items) => indent + 4 <= usize::MAX && items_fit(
            items@,
            indent,
            items@.len(),
        ),
        StarlarkExpr::Select(entries) => indent + 4 <= usize::MAX && entries_fit(
            entries@,
            indent,
            entries@.len(),
        ),
        _ => true,
    }
}

/// Whether the indentations of the first `n` items of a list fit.
pub open spec fn items_fit(items: Seq<StarlarkExpr>, indent: nat, n: nat) -> bool
    decreases items, n,
{
    n == 0 || n > items.len() || (items_fit(items, indent, (n - 1) as nat) && indents_fit(
        items[n - 1],
        indent + 4,
    ))
}

/// Whether the indentations of the first `n` entries of a `select` fit.
pub open spec fn entries_fit(
    entries: Seq<(StarlarkExpr, StarlarkExpr)>,
    indent: nat,
    n: nat,
) -> bool
    decreases entries, n,
{
    n == 0 || n > entries.len() || (entries_fit(entries, indent, (n - 1) as nat) && indents_fit(
        entries[n - 1].0,
        indent + 4,
    ) && indents_fit(entries[n - 1].1, indent + 4))
}

proof fn lemma_item_fits(items: Seq<StarlarkExpr>, indent: nat, n: nat, i: int)
    requires
        items_fit(items, indent, n),
        0 <= i < n <= items.len(),
    ensures
        indents_fit(items[i], indent + 4),
    decreases n,
{
    if i < n - 1 {
        lemma_item_fits(items, indent, (n - 1) as nat, i);
    }
}

proof fn lemma_entry_fits(
    entries: Seq<(StarlarkExpr, StarlarkExpr)>,
    indent: nat,
    n: nat,
    i: int,
)
    requires
        entries_fit(entries, indent, n),
        0 <= i < n <= entries.len(),
    ensures
        indents_fit(entries[i].0, indent + 4),
        indents_fit(entries[i].1, indent + 4),
    decreases n,
{
    if i < n - 1 {
        lemma_entry_fits(entries, indent, (n - 1) as nat, i);
    }
}

/// Writes `n` spaces behind what `out` holds.
pub fn write_indent(out: &mut String, n: usize)
    ensures
        final(out)@ == old(out)@ + spaces(n as nat),
{
    let mut i: usize = 0;
    proof {
        assert(out@ =~= old(out)@ + spaces(0));
    }
    while i < n
        invariant
            i <= n,
            out@ == old(out)@ + spaces(i as nat),
        decreases n - i,
    {
        out.push(' ');
        i = i + 1;
        proof {
            assert(out@ =~= old(out)@ + spaces(i as nat));
        }
    }
}

/// Writes the string literal whose contents are `s` behind what `out` holds.
pub fn write_string_literal(out: &mut String, s: &str)
    ensures
        final(out)@ == old(out)@ + quoted(s@),
{
    let chars = chars_of(s);
    out.append("\"");
    let ghost start = out@;
    let mut i: usize = 0;
    proof {
        assert(out@ =~= start + escaped(chars@.take(0)));
    }
    while i < chars.len()
        invariant
            i <= chars@.len(),
            out@ == start + escaped(chars@.take(i as int)),
        decreases chars@.len() - i,
    {
        let c = chars[i];
        let ghost before = out@;
        if c == '\\' {
            out.append("\\\\");
        } else if c == '"' {
            out.append("\\\"");
        } else if c == '\n' {
            out.append("\\n");
        } else if c == '\r' {
            out.append("\\r");
        } else if c == '\t' {
            out.append("\\t");
        } else {
            out.push(c);
            proof {
                assert(out@ =~= before + seq![c]);
            }
        }
        proof {
            let head = chars@.take(i + 1);
            assert(head.drop_last() =~= chars@.take(i as int));
            assert(out@ =~= start + escaped(head));
        }
        i = i + 1;
    }
    out.append("\"");
    proof {
        assert(chars@.take(chars@.len() as int) =~= s@);
        assert(out@ =~= old(out)@ + quoted(s@));
    }
}

/// Writes the text of `expr`, which starts in a line indented by `indent`,
/// behind what `out` holds.
pub fn pretty_print_expr(expr: &StarlarkExpr, out: &mut String, indent: usize)
    requires
        indents_fit(*expr, indent as nat),
    ensures
        final(out)@ == old(out)@ + pretty(*expr, indent as nat),
    decreases expr,
{
    match expr {
        StarlarkExpr::Text(s) => {
            write_string_literal(out, s.as_str());
        },
        StarlarkExpr::List(items) => {
            pretty_print_list(items, out, indent);
        },
        StarlarkExpr::Select(entries) => {
            out.append("select(");
            pretty_print_dict(entries, out, indent);
            out.append(")");
            proof {
                reveal_strlit("select(");
                reveal_strlit("{\n");
                reveal_strlit("select({\n");
                reveal_strlit("}");
                reveal_strlit(")");
                reveal_strlit("})");
                assert("select({\n"@ =~= "select("@ + "{\n"@);
                assert("})"@ =~= "}"@ + ")"@);
                assert(out@ =~= old(out)@ + pretty(*expr, indent as nat));
            }
        },
        StarlarkExpr::Raw(s) => {
            out.append(s.as_str());
        },
    }
}

/// Writes the list display with these items, which starts in a line indented
/// by `indent`, behind what `out` holds.
pub fn pretty_print_list(items: &Vec<StarlarkExpr>, out: &mut String, indent: usize)
    requires
        indent + 4 <= usize::MAX,
        items_fit(items@, indent as nat, items@.len()),
    ensures
        final(out)@ == old(out)@ + (if items@.len() == 0 {
            "[]"@
        } else {
            "[\n"@ + pretty_items(items@, indent as nat, items@.len()) + spaces(indent as nat)
                + "]"@
        }),
    decreases items,
{
    if items.len() == 0 {
        out.append("[]");
        return;
    }
    out.append("[\n");
    let ghost start = out@;
    let mut i: usize = 0;
    proof {
        assert(out@ =~= start + pretty_items(items@, indent as nat, 0));
    }
    while i < items.len()
        invariant
            i <= items@.len(),
            indent + 4 <= usize::MAX,
            items_fit(items@, indent as nat, items@.len()),
            out@ == start + pretty_items(items@, indent as nat, i as nat),
        decreases items@.len() - i,
    {
        proof {
            lemma_item_fits(items@, indent as nat, items@.len(), i as int);
        }
        write_indent(out, indent + 4);
        pretty_print_expr(&items[i], out, indent + 4);
        out.append(",\n");
        i = i + 1;
        proof {
            assert(out@ =~= start + pretty_items(items@, indent as nat, i as nat));
        }
    }
    write_indent(out, indent);
    out.append("]");
    proof {
        assert(out@ =~= old(out)@ + ("[\n"@ + pretty_items(items@, indent as nat, items@.len())
            + spaces(indent as nat) + "]"@));
    }
}

/// Writes the dictionary display with these entries, which starts in a line
/// indented by `indent`, behind what `out` holds.
pub fn pretty_print_dict(
    entries: &Vec<(StarlarkExpr, StarlarkExpr)>,
    out: &mut String,
    indent: usize,
)
    requires
        indent + 4 <= usize::MAX,
        entries_fit(entries@, indent as nat, entries@.len()),
    ensures
        final(out)@ == old(out)@ + "{\n"@ + pretty_entries(
            entries@,
            indent as nat,
            entries@.len(),
        ) + spaces(indent as nat) + "}"@,
    decreases entries,
{
    out.append("{\n");
    let ghost start = out@;
    let mut i: usize = 0;
    proof {
        assert(out@ =~= start + pretty_entries(entries@, indent as nat, 0));
    }
    while i < entries.len()
        invariant
            i <= entries@.len(),
            indent + 4 <= usize::MAX,
            entries_fit(entries@, indent as nat, entries@.len()),
            out@ == start + pretty_entries(entries@, indent as nat, i as nat),
        decreases entries@.len() - i,
    {
        proof {
            lemma_entry_fits(entries@, indent as nat, entries@.len(), i as int);
        }
        write_indent(out, indent + 4);
        pretty_print_expr(&entries[i].0, out, indent + 4);
        out.append(": ");
        pretty_print_expr(&entries[i].1, out, indent + 4);
        out.append(",\n");
        i = i + 1;
        proof {
            assert(out@ =~= start + pretty_entries(entries@, indent as nat, i as nat));
        }
    }
    write_indent(out, indent);
    out.append("}");
}

/// Spaces are that many blanks.
pub proof fn law_spaces(n: nat, i: int)
    ensures
        spaces(n).len() == n,
        0 <= i < n ==> spaces(n)[i] == ' ',
{
}

/// Whether a character stands for itself in a string literal.
pub open spec fn bare(c: char) -> bool {
    c != '\\' && c != '"' && c != '\n' && c != '\r' && c != '\t'
}

/// The characters of a text are written one by one. A quote and a backslash get a
/// backslash before them, and line ends and tabs are written by their letters; any
/// other character stands for itself.
pub proof fn law_characters_are_escaped(a: Seq<char>, b: Seq<char>, c: char)
    ensures
        escaped(a + b) == escaped(a) + escaped(b),
        escaped(Seq::empty()) == Seq::<char>::empty(),
        escaped(seq!['\\']) == seq!['\\', '\\'],
        escaped(seq!['"']) == seq!['\\', '"'],
        escaped(seq!['\n']) == seq!['\\', 'n'],
        escaped(seq!['\r']) == seq!['\\', 'r'],
        escaped(seq!['\t']) == seq!['\\', 't'],
        bare(c) ==> escaped(seq![c]) == seq![c],
        quoted(a) == seq!['"'] + escaped(a) + seq!['"'],
    decreases b.len(),
{
    lemma_escaped_one('\\');
    lemma_escaped_one('"');
    lemma_escaped_one('\n');
    lemma_escaped_one('\r');
    lemma_escaped_one('\t');
    lemma_escaped_one(c);
    reveal_strlit("\\\\");
    reveal_strlit("\\\"");
    reveal_strlit("\\n");
    reveal_strlit("\\r");
    reveal_strlit("\\t");
    reveal_strlit("\"");
    assert("\\\\"@ =~= seq!['\\', '\\']);
    assert("\\\""@ =~= seq!['\\', '"']);
    assert("\\n"@ =~= seq!['\\', 'n']);
    assert("\\r"@ =~= seq!['\\', 'r']);
    assert("\\t"@ =~= seq!['\\', 't']);
    assert("\""@ =~= seq!['"']);
    if b.len() == 0 {
        assert(a + b =~= a);
        assert(escaped(a) + escaped(b) =~= escaped(a));
    } else {
        law_characters_are_escaped(a, b.drop_last(), c);
        assert((a + b).drop_last() =~= a + b.drop_last());
        assert((a + b).last() == b.last());
        assert(escaped(a + b) =~= escaped(a) + escaped(b));
    }
}

proof fn lemma_escaped_one(c: char)
    ensures
        escaped(seq![c]) == escaped_char(c),
{
    let one = seq![c];
    assert(one.drop_last() =~= Seq::<char>::empty());
    assert(escaped(one.drop_last()) =~= Seq::<char>::empty());
    assert(one.last() == c);
    assert(escaped(one) =~= escaped_char(c));
}

/// A text of characters that stand for themselves is written as it is, in quotes.
pub proof fn law_bare_text_is_quoted(s: Seq<char>)
    requires
        forall|i: int| 0 <= i < s.len() ==> bare(#[trigger] s[i]),
    ensures
        escaped(s) == s,
        quoted(s) == seq!['"'] + s + seq!['"'],
    decreases s.len(),
{
    law_characters_are_escaped(s, Seq::empty(), 'a');
    if s.len() > 0 {
        let head = s.drop_last();
        assert forall|i: int| 0 <= i < head.len() implies bare(#[trigger] head[i]) by {
            assert(head[i] == s[i]);
        }
        law_bare_text_is_quoted(head);
        assert(bare(s[s.len() - 1]));
        assert(head + seq![s.last()] =~= s);
    }
}

/// An item of a list stands in a line of its own, indented by four more than the
/// list, and the lines come in the order of the items; so do the entries of a
/// `select`, each with its key before it.
pub proof fn law_items_stand_in_lines(
    items: Seq<StarlarkExpr>,
    item: StarlarkExpr,
    entries: Seq<(StarlarkExpr, StarlarkExpr)>,
    entry: (StarlarkExpr, StarlarkExpr),
    indent: nat,
)
    ensures
        pretty_items(items.push(item), indent, items.len() + 1) == pretty_items(
            items,
            indent,
            items.len(),
        ) + spaces(indent + 4) + pretty(item, indent + 4) + ",\n"@,
        pretty_entries(entries.push(entry), indent, entries.len() + 1) == pretty_entries(
            entries,
            indent,
            entries.len(),
        ) + spaces(indent + 4) + pretty(entry.0, indent + 4) + ": "@ + pretty(
            entry.1,
            indent + 4,
        ) + ",\n"@,
{
    lemma_items_push(items, item, indent, items.len());
    lemma_entries_push(entries, entry, indent, entries.len());
    assert(items.push(item)[items.len() as int] == item);
    assert(entries.push(entry)[entries.len() as int] == entry);
}

proof fn lemma_items_push(items: Seq<StarlarkExpr>, item: StarlarkExpr, indent: nat, n: nat)
    requires
        n <= items.len(),
    ensures
        pretty_items(items.push(item), indent, n) == pretty_items(items, indent, n),
    decreases n,
{
    if n > 0 {
        lemma_items_push(items, item, indent, (n - 1) as nat);
        assert(items.push(item)[n - 1] == items[n - 1]);
    }
}

proof fn lemma_entries_push(
    entries: Seq<(StarlarkExpr, StarlarkExpr)>,
    entry: (StarlarkExpr, StarlarkExpr),
    indent: nat,
    n: nat,
)
    requires
        n <= entries.len(),
    ensures
        pretty_entries(entries.push(entry), indent, n) == pretty_entries(entries, indent, n),
    decreases n,
{
    if n > 0 {
        lemma_entries_push(entries, entry, indent, (n - 1) as nat);
        assert(entries.push(entry)[n - 1] == entries[n - 1]);
    }
}

/// A list without items is written as such; any other list opens and closes in
/// lines of its own, as a `select` does.
pub proof fn law_displays(
    items: Vec<StarlarkExpr>,
    entries: Vec<(StarlarkExpr, StarlarkExpr)>,
    s: String,
    indent: nat,
)
    ensures
        pretty(StarlarkExpr::Text(s), indent) == quoted(s@),
        pretty(StarlarkExpr::Raw(s), indent) == s@,
        items@.len() == 0 ==> pretty(StarlarkExpr::List(items), indent) == "[]"@,
        items@.len() > 0 ==> pretty(StarlarkExpr::List(items), indent) == "[\n"@ + pretty_items(
            items@,
            indent,
            items@.len(),
        ) + spaces(indent) + "]"@,
        pretty(StarlarkExpr::Select(entries), indent) == "select({\n"@ + pretty_entries(
            entries@,
            indent,
            entries@.len(),
        ) + spaces(indent) + "})"@,
{
}

} // verus!
