//! The diagnostics that Buck2's Rust rules write.
//!
//! The build of a `[clippy.json]` sub-target succeeds whatever clippy finds, so
//! the file that it writes has to be read. It holds one record of the compiler
//! on each line, with the text to show for it.

use vstd::prelude::*;

use std::collections::BTreeMap;

use crate::error::Error;
use crate::text::{
    contains_text, ends_with, is_text, lines, number, starts_with, trim, trim_end,
};
use crate::text;

verus! {

/// A record of the compiler, as far as it is needed here.
#[derive(Debug)]
pub struct Diagnostic {
    /// `error`, `warning`, `note`, `help` and so on. Some records have none.
    pub level: Option<String>,
    /// The text that the compiler would have printed.
    pub rendered: Option<String>,
    pub message: Option<String>,
}

impl Default for Diagnostic {
    /// A record with nothing in it.
    fn default() -> (r: Diagnostic)
        ensures
            r.level is None,
            r.rendered is None,
            r.message is None,
    {
        Diagnostic { level: None, rendered: None, message: None }
    }
}

/// Whether `s` ends with `p`.
pub open spec fn has_suffix(s: Seq<char>, p: Seq<char>) -> bool {
    p.len() <= s.len() && s.skip(s.len() - p.len()) == p
}

impl Diagnostic {
    /// Whether the record is an error. An error of the compiler itself has a
    /// level that goes on behind the word.
    pub open spec fn error(&self) -> bool {
        self.level matches Some(l) && "error"@.is_prefix_of(l@)
    }

    /// Whether the record is a warning.
    pub open spec fn warning(&self) -> bool {
        self.level matches Some(l) && l@ == "warning"@
    }

    /// Whether the record counts the records before it.
    pub open spec fn tally(&self) -> bool {
        self.message matches Some(m) && ("aborting due to"@.is_prefix_of(m@) || has_suffix(
            m@,
            "warning emitted"@,
        ) || has_suffix(m@, "warnings emitted"@))
    }

    /// Whether the record is an error.
    pub fn is_error(&self) -> (r: bool)
        ensures
            r == self.error(),
    {
        match &self.level {
            Some(level) => starts_with(level.as_str(), "error"),
            None => false,
        }
    }

    /// Whether the record is a warning.
    pub fn is_warning(&self) -> (r: bool)
        ensures
            r == self.warning(),
    {
        is_text(&self.level, "warning")
    }

    /// Whether the record counts the records before it.
    pub fn is_tally(&self) -> (r: bool)
        ensures
            r == self.tally(),
    {
        match &self.message {
            Some(message) => starts_with(message.as_str(), "aborting due to") || ends_with(
                message.as_str(),
                "warning emitted",
            ) || ends_with(message.as_str(), "warnings emitted"),
            None => false,
        }
    }
}

/// How many errors and warnings there are.
#[derive(Debug, Clone, Copy, PartialEq, Eq, Structural)]
pub struct DiagnosticSummary {
    pub errors: usize,
    pub warnings: usize,
}

impl Default for DiagnosticSummary {
    /// None at all.
    fn default() -> (r: DiagnosticSummary)
        ensures
            r.errors == 0,
            r.warnings == 0,
    {
        DiagnosticSummary { errors: 0, warnings: 0 }
    }
}

impl DiagnosticSummary {
    /// Whether there are none.
    pub fn is_clean(&self) -> (r: bool)
        ensures
            r == (self.errors == 0 && self.warnings == 0),
    {
        self.errors == 0 && self.warnings == 0
    }
}

/// The first of the lines that starts with a brace, once the white space around
/// it is gone.
pub open spec fn first_object(lines: Seq<Seq<char>>) -> Option<Seq<char>>
    decreases lines.len(),
{
    if lines.len() == 0 {
        None
    } else if "{"@.is_prefix_of(text::trim_of(lines[0])) {
        Some(text::trim_of(lines[0]))
    } else {
        first_object(lines.drop_first())
    }
}

/// The text of the map of outputs in what Buck2 printed: a line that starts with
/// a brace, or else all of it.
pub open spec fn map_text(stdout: Seq<char>) -> Seq<char> {
    match first_object(text::lines_of(stdout)) {
        Some(line) => line,
        None => text::trim_of(stdout),
    }
}

/// The entries of the JSON object from strings to strings that `serde_json`
/// reads from a text, in the order of their keys, or the message of its error.
pub uninterp spec fn json_string_map(s: Seq<char>) -> Result<
    Seq<(Seq<char>, Seq<char>)>,
    Seq<char>,
>;

/// The keys and values of a list of entries.
pub open spec fn entry_models(v: Seq<(String, String)>) -> Seq<(Seq<char>, Seq<char>)> {
    v.map_values(|e: (String, String)| (e.0@, e.1@))
}

/// `serde_json::from_str` into a `BTreeMap` from strings to strings. The claim is
/// that the outcome depends on the text alone; what it accepts is left unsaid.
#[verifier::external_body]
fn parse_string_map(s: &str) -> (r: Result<Vec<(String, String)>, String>)
    ensures
        json_string_map(s@) == match r {
            Ok(v) => Ok::<Seq<(Seq<char>, Seq<char>)>, Seq<char>>(entry_models(v@)),
            Err(e) => Err(e@),
        },
{
    match serde_json::from_str::<BTreeMap<String, String>>(s) {
        Ok(map) => Ok(map.into_iter().collect()),
        Err(e) => Err(e.to_string()),
    }
}

/// The values of the entries that are not empty, in order.
pub open spec fn outputs(entries: Seq<(Seq<char>, Seq<char>)>) -> Seq<Seq<char>>
    decreases entries.len(),
{
    if entries.len() == 0 {
        Seq::empty()
    } else {
        let before = outputs(entries.drop_last());
        if entries.last().1.len() == 0 {
            before
        } else {
            before.push(entries.last().1)
        }
    }
}

/// The text of the map of outputs in what Buck2 printed.
pub fn output_map_text(stdout: &str) -> (r: String)
    ensures
        r@ == map_text(stdout@),
{
    let list = lines(stdout);
    let ghost all = text::views(list@);
    let mut i: usize = 0;
    proof {
        assert(all.skip(0) =~= all);
    }
    while i < list.len()
        invariant
            i <= list@.len(),
            all == text::views(list@),
            all == text::lines_of(stdout@),
            first_object(all) == first_object(all.skip(i as int)),
        decreases list@.len() - i,
    {
        proof {
            assert(all.skip(i as int)[0] == list@[i as int]@);
            assert(all.skip(i as int).drop_first() =~= all.skip(i + 1));
        }
        let line = trim(list[i].as_str());
        if starts_with(line.as_str(), "{") {
            return line;
        }
        i = i + 1;
    }
    trim(stdout)
}

/// The paths that a map of outputs holds. A target without an output has none.
pub fn paths_in(entries: &Vec<(String, String)>) -> (r: Vec<String>)
    ensures
        text::views(r@) == outputs(entry_models(entries@)),
{
    let mut out: Vec<String> = Vec::new();
    let ghost all = entry_models(entries@);
    let mut i: usize = 0;
    proof {
        assert(text::views(out@) =~= outputs(all.take(0)));
    }
    while i < entries.len()
        invariant
            i <= entries@.len(),
            all == entry_models(entries@),
            text::views(out@) == outputs(all.take(i as int)),
        decreases entries@.len() - i,
    {
        proof {
            assert(all.take(i + 1).drop_last() =~= all.take(i as int));
            assert(all.take(i + 1).last() == (entries@[i as int].0@, entries@[i as int].1@));
        }
        if !entries[i].1.as_str().is_empty() {
            let ghost before = text::views(out@);
            out.push(entries[i].1.clone());
            proof {
                assert(text::views(out@) =~= before.push(entries@[i as int].1@));
            }
        }
        i = i + 1;
    }
    proof {
        assert(all.take(i as int) =~= all);
    }
    out
}

/// The paths of the files that `buck2 build --show-full-json-output` reports, or
/// why there are none.
pub open spec fn reported_paths(stdout: Seq<char>) -> Result<Seq<Seq<char>>, Seq<Seq<char>>> {
    let object = map_text(stdout);
    if object.len() == 0 {
        Err(seq!["`buck2 build --show-full-json-output` produced no output map"@])
    } else {
        match json_string_map(object) {
            Ok(entries) => Ok(outputs(entries)),
            Err(message) => Err(
                seq![
                    "failed to parse the output map from `buck2 build --show-full-json-output`"@,
                    message,
                ],
            ),
        }
    }
}

/// The paths of the files that `buck2 build --show-full-json-output` reports.
pub fn output_paths(stdout: &str) -> (r: Result<Vec<String>, Error>)
    ensures
        reported_paths(stdout@) == match r {
            Ok(paths) => Ok::<Seq<Seq<char>>, Seq<Seq<char>>>(text::views(paths@)),
            Err(e) => Err(e@),
        },
{
    let object = output_map_text(stdout);
    if object.as_str().is_empty() {
        let e = Error::new(
            "`buck2 build --show-full-json-output` produced no output map".to_owned(),
        );
        proof {
            assert(e@ =~= seq!["`buck2 build --show-full-json-output` produced no output map"@]);
        }
        return Err(e);
    }
    match parse_string_map(object.as_str()) {
        Ok(entries) => Ok(paths_in(&entries)),
        Err(message) => {
            let ghost m = message@;
            let e = Error::new(message).context(
                "failed to parse the output map from `buck2 build --show-full-json-output`".to_owned(),
            );
            proof {
                assert(e@ =~= seq![
                    "failed to parse the output map from `buck2 build --show-full-json-output`"@,
                    m,
                ]);
            }
            Err(e)
        },
    }
}

/// The lines that are not blank, in order.
pub open spec fn filled_lines(lines: Seq<Seq<char>>) -> Seq<Seq<char>>
    decreases lines.len(),
{
    if lines.len() == 0 {
        Seq::empty()
    } else {
        let before = filled_lines(lines.drop_last());
        if text::trim_of(lines.last()).len() == 0 {
            before
        } else {
            before.push(lines.last())
        }
    }
}

/// The lines of a file of diagnostics that hold a record.
pub fn record_lines(contents: &str) -> (r: Vec<String>)
    ensures
        text::views(r@) == filled_lines(text::lines_of(contents@)),
{
    let list = lines(contents);
    let ghost all = text::views(list@);
    let mut out: Vec<String> = Vec::new();
    let mut i: usize = 0;
    proof {
        assert(text::views(out@) =~= filled_lines(all.take(0)));
    }
    while i < list.len()
        invariant
            i <= list@.len(),
            all == text::views(list@),
            text::views(out@) == filled_lines(all.take(i as int)),
        decreases list@.len() - i,
    {
        proof {
            assert(all.take(i + 1).drop_last() =~= all.take(i as int));
            assert(all.take(i + 1).last() == list@[i as int]@);
        }
        if !trim(list[i].as_str()).as_str().is_empty() {
            let ghost before = text::views(out@);
            out.push(list[i].clone());
            proof {
                assert(text::views(out@) =~= before.push(list@[i as int]@));
            }
        }
        i = i + 1;
    }
    proof {
        assert(all.take(i as int) =~= all);
    }
    out
}

/// The records that could be read, in order.
pub open spec fn read_records(parsed: Seq<Option<Diagnostic>>) -> Seq<Diagnostic>
    decreases parsed.len(),
{
    if parsed.len() == 0 {
        Seq::empty()
    } else {
        (match parsed[0] {
            Some(d) => seq![d],
            None => Seq::empty(),
        }) + read_records(parsed.drop_first())
    }
}

/// The records of a file of diagnostics, from what came of reading each of its
/// lines. A line that could not be read costs its own record and no more.
pub fn parse_stream(parsed: Vec<Option<Diagnostic>>) -> (r: Vec<Diagnostic>)
    ensures
        r@ == read_records(parsed@),
{
    let mut rest = parsed;
    let mut out: Vec<Diagnostic> = Vec::new();
    while rest.len() > 0
        invariant
            out@ + read_records(rest@) == read_records(parsed@),
        decreases rest@.len(),
    {
        let ghost before = rest@;
        let ghost kept = out@;
        let record = rest.remove(0);
        proof {
            assert(rest@ =~= before.drop_first());
        }
        if let Some(d) = record {
            out.push(d);
            proof {
                assert(out@ + read_records(rest@) =~= kept + read_records(before));
            }
        } else {
            proof {
                assert(out@ + read_records(rest@) =~= kept + read_records(before));
            }
        }
    }
    proof {
        assert(out@ + read_records(rest@) =~= out@);
    }
    out
}

/// The blocks to print and the numbers of errors and warnings.
pub ghost struct RenderModel {
    pub blocks: Seq<Seq<char>>,
    pub errors: nat,
    pub warnings: nat,
}

/// The text of a record, if it has one that is not blank.
pub open spec fn block_of(d: Diagnostic) -> Option<Seq<char>> {
    match d.rendered {
        Some(s) if text::trim_end_of(s@).len() > 0 => Some(text::trim_end_of(s@)),
        _ => None,
    }
}

/// What the records come to. A text is printed and counted once, however many
/// targets report it; a record that counts others is printed and not counted.
pub open spec fn rendered(ds: Seq<Diagnostic>) -> RenderModel
    decreases ds.len(),
{
    if ds.len() == 0 {
        RenderModel { blocks: Seq::empty(), errors: 0, warnings: 0 }
    } else {
        let before = rendered(ds.drop_last());
        let d = ds.last();
        match block_of(d) {
            Some(block) if !before.blocks.contains(block) => RenderModel {
                blocks: before.blocks.push(block),
                errors: if !d.tally() && d.error() {
                    before.errors + 1
                } else {
                    before.errors
                },
                warnings: if !d.tally() && !d.error() && d.warning() {
                    before.warnings + 1
                } else {
                    before.warnings
                },
            },
            _ => before,
        }
    }
}

/// The blocks to print, in the order in which they come first, and how many
/// errors and warnings there are.
pub fn render(diagnostics: &Vec<Diagnostic>) -> (r: (Vec<String>, DiagnosticSummary))
    ensures
        ({
            let model = rendered(diagnostics@);
            &&& text::views(r.0@) == model.blocks
            &&& r.1.errors == model.errors
            &&& r.1.warnings == model.warnings
        }),
{
    let mut seen: Vec<String> = Vec::new();
    let mut errors: usize = 0;
    let mut warnings: usize = 0;
    let mut i: usize = 0;
    proof {
        assert(text::views(seen@) =~= Seq::<Seq<char>>::empty());
    }
    while i < diagnostics.len()
        invariant
            i <= diagnostics@.len(),
            errors <= i,
            warnings <= i,
            ({
                let model = rendered(diagnostics@.take(i as int));
                &&& text::views(seen@) == model.blocks
                &&& errors == model.errors
                &&& warnings == model.warnings
            }),
        decreases diagnostics@.len() - i,
    {
        let d = &diagnostics[i];
        proof {
            assert(diagnostics@.take(i + 1).drop_last() =~= diagnostics@.take(i as int));
            assert(diagnostics@.take(i + 1).last() == *d);
        }
        if let Some(rendered) = &d.rendered {
            let block = trim_end(rendered.as_str());
            if !block.as_str().is_empty() && !contains_text(&seen, block.as_str()) {
                let ghost before = text::views(seen@);
                let ghost b = block@;
                seen.push(block);
                proof {
                    assert(text::views(seen@) =~= before.push(b));
                }
                if !d.is_tally() {
                    if d.is_error() {
                        errors = errors + 1;
                    } else if d.is_warning() {
                        warnings = warnings + 1;
                    }
                }
            }
        }
        i = i + 1;
    }
    proof {
        assert(diagnostics@.take(i as int) =~= diagnostics@);
    }
    (seen, DiagnosticSummary { errors, warnings })
}

/// The line that closes a report.
#[derive(Debug)]
pub enum ReportLine {
    Error(String),
    Warning(String),
    Finished(String),
}

/// The model of a [`ReportLine`].
pub ghost enum ReportModel {
    Error(Seq<char>),
    Warning(Seq<char>),
    Finished(Seq<char>),
}

impl View for ReportLine {
    type V = ReportModel;

    open spec fn view(&self) -> ReportModel {
        match self {
            ReportLine::Error(m) => ReportModel::Error(m@),
            ReportLine::Warning(m) => ReportModel::Warning(m@),
            ReportLine::Finished(m) => ReportModel::Finished(m@),
        }
    }
}

/// The line that closes a report.
pub open spec fn closing_line(errors: nat, warnings: nat, what: Seq<char>) -> ReportModel {
    if errors > 0 {
        ReportModel::Error(
            what + " found "@ + text::decimal(errors) + " error(s) and "@ + text::decimal(warnings)
                + " warning(s)"@,
        )
    } else if warnings > 0 {
        ReportModel::Warning(what + " found "@ + text::decimal(warnings) + " warning(s)"@)
    } else {
        ReportModel::Finished(what + " found no issues"@)
    }
}

/// Whether a command succeeds, and the line that closes its report. As with
/// Cargo, errors are a failure and warnings are not. `what` names the command.
pub fn report(summary: &DiagnosticSummary, what: &str) -> (r: (bool, ReportLine))
    ensures
        r.0 == (summary.errors == 0),
        r.0 == !(r.1@ is Error),
        r.1@ == closing_line(summary.errors as nat, summary.warnings as nat, what@),
        if summary.errors > 0 {
            r.1 matches ReportLine::Error(m) && m@ == what@ + " found "@ + text::decimal(
                summary.errors as nat,
            ) + " error(s) and "@ + text::decimal(summary.warnings as nat) + " warning(s)"@
        } else if summary.warnings > 0 {
            r.1 matches ReportLine::Warning(m) && m@ == what@ + " found "@ + text::decimal(
                summary.warnings as nat,
            ) + " warning(s)"@
        } else {
            r.1 matches ReportLine::Finished(m) && m@ == what@ + " found no issues"@
        },
{
    let mut message = what.to_owned();
    if summary.errors > 0 {
        message.append(" found ");
        message.append(number(summary.errors).as_str());
        message.append(" error(s) and ");
        message.append(number(summary.warnings).as_str());
        message.append(" warning(s)");
        (false, ReportLine::Error(message))
    } else if summary.warnings > 0 {
        message.append(" found ");
        message.append(number(summary.warnings).as_str());
        message.append(" warning(s)");
        (true, ReportLine::Warning(message))
    } else {
        message.append(" found no issues");
        (true, ReportLine::Finished(message))
    }
}

/// No block is printed twice, and none is blank; and there are no more errors
/// and warnings than blocks.
pub proof fn law_blocks_are_printed_once(ds: Seq<Diagnostic>)
    ensures
        rendered(ds).blocks.no_duplicates(),
        forall|i: int|
            0 <= i < rendered(ds).blocks.len() ==> (#[trigger] rendered(ds).blocks[i]).len() > 0,
        rendered(ds).errors + rendered(ds).warnings <= rendered(ds).blocks.len(),
    decreases ds.len(),
{
    if ds.len() > 0 {
        law_blocks_are_printed_once(ds.drop_last());
        let before = rendered(ds.drop_last()).blocks;
        let now = rendered(ds).blocks;
        assert forall|i: int, j: int| 0 <= i < now.len() && 0 <= j < now.len() && i != j implies
            now[i] != now[j] by {
            if i < before.len() && j < before.len() {
                assert(before[i] != before[j]);
            } else if i < before.len() {
                assert(before.contains(before[i]));
            } else {
                assert(before.contains(before[j]));
            }
        }
    }
}

proof fn lemma_block_is_printed(ds: Seq<Diagnostic>, i: int)
    requires
        0 <= i < ds.len(),
    ensures
        block_of(ds[i]) matches Some(block) ==> rendered(ds).blocks.contains(block),
    decreases ds.len(),
{
    if let Some(block) = block_of(ds[i]) {
        let head = ds.drop_last();
        let before = rendered(head).blocks;
        let now = rendered(ds).blocks;
        if i == ds.len() - 1 {
            if !before.contains(block) {
                assert(now[before.len() as int] == block);
            }
        } else {
            lemma_block_is_printed(head, i);
            let j = choose|j: int| 0 <= j < before.len() && before[j] == block;
            assert(now[j] == block);
        }
    }
}

/// Reading the same records again, as from a second target over the same
/// sources, changes neither what is printed nor what is counted.
pub proof fn law_repeated_records_make_no_difference(ds: Seq<Diagnostic>, more: Seq<Diagnostic>)
    requires
        forall|i: int| 0 <= i < more.len() ==> ds.contains(#[trigger] more[i]),
    ensures
        rendered(ds + more) == rendered(ds),
    decreases more.len(),
{
    if more.len() == 0 {
        assert(ds + more =~= ds);
    } else {
        let head = more.drop_last();
        assert forall|i: int| 0 <= i < head.len() implies ds.contains(#[trigger] head[i]) by {
            assert(head[i] == more[i]);
        }
        law_repeated_records_make_no_difference(ds, head);
        assert((ds + more).drop_last() =~= ds + head);
        assert((ds + more).last() == more.last());
        assert(ds.contains(more[more.len() - 1]));
        let i = choose|i: int| 0 <= i < ds.len() && ds[i] == more.last();
        lemma_block_is_printed(ds, i);
    }
}

/// Whether `line` starts with a brace once the white space around it is gone.
pub open spec fn is_object(line: Seq<char>) -> bool {
    text::trim_of(line).len() > 0 && text::trim_of(line)[0] == '{'
}

/// The first line that starts with a brace holds the map of outputs, whatever is
/// printed before and behind it; where no line does, all that is printed is taken,
/// without the white space round it.
pub proof fn law_map_is_the_first_object(
    stdout: Seq<char>,
    before: Seq<Seq<char>>,
    line: Seq<char>,
    behind: Seq<Seq<char>>,
)
    requires
        forall|i: int| 0 <= i < before.len() ==> !is_object(#[trigger] before[i]),
    ensures
        is_object(line) && text::lines_of(stdout) == before + seq![line] + behind ==> map_text(
            stdout,
        ) == text::trim_of(line),
        text::lines_of(stdout) == before ==> map_text(stdout) == text::trim_of(stdout),
{
    lemma_first_object(before, line, behind);
}

proof fn lemma_brace(line: Seq<char>)
    ensures
        "{"@.is_prefix_of(text::trim_of(line)) == is_object(line),
{
    reveal_strlit("{");
    let t = text::trim_of(line);
    if "{"@.is_prefix_of(t) {
        assert(t.subrange(0, 1)[0] == '{');
    }
    if is_object(line) {
        assert(t.subrange(0, 1) =~= "{"@);
    }
}

proof fn lemma_first_object(before: Seq<Seq<char>>, line: Seq<char>, behind: Seq<Seq<char>>)
    requires
        forall|i: int| 0 <= i < before.len() ==> !is_object(#[trigger] before[i]),
    ensures
        is_object(line) ==> first_object(before + seq![line] + behind) == Some(text::trim_of(line)),
        first_object(before) is None,
    decreases before.len(),
{
    let all = before + seq![line] + behind;
    if before.len() == 0 {
        assert(all[0] == line);
        lemma_brace(line);
    } else {
        let rest = before.drop_first();
        assert(!is_object(before[0]));
        lemma_brace(before[0]);
        assert(all[0] == before[0]);
        assert forall|i: int| 0 <= i < rest.len() implies !is_object(#[trigger] rest[i]) by {
            assert(rest[i] == before[i + 1]);
        }
        lemma_first_object(rest, line, behind);
        assert(all.drop_first() =~= rest + seq![line] + behind);
    }
}

/// The paths of two lists of entries are those of the first and then those of the
/// second. An entry has its value for a path, unless that is empty.
pub proof fn law_every_output_is_reported(
    a: Seq<(Seq<char>, Seq<char>)>,
    b: Seq<(Seq<char>, Seq<char>)>,
    entry: (Seq<char>, Seq<char>),
)
    ensures
        outputs(a + b) == outputs(a) + outputs(b),
        entry.1.len() > 0 ==> outputs(seq![entry]) == seq![entry.1],
        entry.1.len() == 0 ==> outputs(seq![entry]).len() == 0,
    decreases b.len(),
{
    let one = seq![entry];
    assert(one.drop_last() =~= Seq::<(Seq<char>, Seq<char>)>::empty());
    assert(outputs(one.drop_last()) =~= Seq::<Seq<char>>::empty());
    assert(one.last() == entry);
    assert(Seq::<Seq<char>>::empty().push(entry.1) =~= seq![entry.1]);
    if b.len() == 0 {
        assert(a + b =~= a);
        assert(outputs(a) + outputs(b) =~= outputs(a));
    } else {
        law_every_output_is_reported(a, b.drop_last(), entry);
        assert((a + b).drop_last() =~= a + b.drop_last());
        assert((a + b).last() == b.last());
        assert(outputs(a + b) =~= outputs(a) + outputs(b));
    }
}

/// Where nothing is printed there is an error; else the map decides: its paths, or
/// an error with the reason why it could not be read.
pub proof fn law_reported_paths(stdout: Seq<char>)
    ensures
        map_text(stdout).len() == 0 ==> reported_paths(stdout) is Err,
        map_text(stdout).len() > 0 ==> match json_string_map(map_text(stdout)) {
            Ok(entries) => reported_paths(stdout) == Ok::<Seq<Seq<char>>, Seq<Seq<char>>>(
                outputs(entries),
            ),
            Err(message) => reported_paths(stdout) matches Err(messages) && messages.len() == 2
                && messages[1] == message,
        },
{
}

/// The lines that hold a record are those that are not blank, as they are and in
/// order.
pub proof fn law_only_blank_lines_are_dropped(a: Seq<Seq<char>>, b: Seq<Seq<char>>, line: Seq<char>)
    ensures
        filled_lines(a + b) == filled_lines(a) + filled_lines(b),
        text::blank(line) ==> filled_lines(seq![line]).len() == 0,
        !text::blank(line) ==> filled_lines(seq![line]) == seq![line],
    decreases b.len(),
{
    let one = seq![line];
    assert(one.drop_last() =~= Seq::<Seq<char>>::empty());
    assert(filled_lines(one.drop_last()) =~= Seq::<Seq<char>>::empty());
    assert(one.last() == line);
    assert(Seq::<Seq<char>>::empty().push(line) =~= seq![line]);
    lemma_blank(line);
    if b.len() == 0 {
        assert(a + b =~= a);
        assert(filled_lines(a) + filled_lines(b) =~= filled_lines(a));
    } else {
        law_only_blank_lines_are_dropped(a, b.drop_last(), line);
        assert((a + b).drop_last() =~= a + b.drop_last());
        assert((a + b).last() == b.last());
        assert(filled_lines(a + b) =~= filled_lines(a) + filled_lines(b));
    }
}

proof fn lemma_blank(line: Seq<char>)
    ensures
        text::blank(line) <==> text::trim_of(line).len() == 0,
{
    text::lemma_trim_both(line);
    text::lemma_trim_end(line);
    if text::blank(line) {
        text::law_trimmed(line, Seq::empty(), Seq::empty());
        assert(line + Seq::<char>::empty() + Seq::<char>::empty() =~= line);
    }
    if text::trim_of(line).len() == 0 {
        assert(line.skip(0) =~= line);
    }
}

/// Every record that could be read is kept, in order, and nothing else is.
pub proof fn law_every_record_is_kept(
    a: Seq<Option<Diagnostic>>,
    b: Seq<Option<Diagnostic>>,
    d: Diagnostic,
)
    ensures
        read_records(a + b) == read_records(a) + read_records(b),
        read_records(seq![Some(d)]) == seq![d],
        read_records(seq![None]).len() == 0,
    decreases a.len(),
{
    let some = seq![Some(d)];
    let none = seq![None::<Diagnostic>];
    assert(some.drop_first() =~= Seq::<Option<Diagnostic>>::empty());
    assert(none.drop_first() =~= Seq::<Option<Diagnostic>>::empty());
    assert(read_records(Seq::<Option<Diagnostic>>::empty()) =~= Seq::<Diagnostic>::empty());
    assert(read_records(some) =~= seq![d]);
    if a.len() == 0 {
        assert(a + b =~= b);
        assert(read_records(a) + read_records(b) =~= read_records(b));
    } else {
        law_every_record_is_kept(a.drop_first(), b, d);
        assert((a + b).drop_first() =~= a.drop_first() + b);
        assert((a + b)[0] == a[0]);
        assert(read_records(a + b) =~= read_records(a) + read_records(b));
    }
}

/// An error is a record whose level starts with that word, and a warning one whose
/// level is that word. A record counts others if its message starts or ends in one
/// of three ways.
pub proof fn law_kinds_of_records(d: Diagnostic)
    ensures
        d.error() <==> d.level is Some && text::reads(d.level->0@, "error"@, 0),
        d.warning() <==> d.level is Some && d.level->0@ == "warning"@,
        d.tally() <==> d.message is Some && (text::reads(d.message->0@, "aborting due to"@, 0)
            || text::reads(
            d.message->0@,
            "warning emitted"@,
            d.message->0@.len() - "warning emitted"@.len(),
        ) || text::reads(
            d.message->0@,
            "warnings emitted"@,
            d.message->0@.len() - "warnings emitted"@.len(),
        )),
{
    if let Some(l) = d.level {
        lemma_starts(l@, "error"@);
    }
    if let Some(m) = d.message {
        lemma_starts(m@, "aborting due to"@);
        lemma_ends(m@, "warning emitted"@);
        lemma_ends(m@, "warnings emitted"@);
    }
}

proof fn lemma_starts(s: Seq<char>, p: Seq<char>)
    ensures
        p.is_prefix_of(s) == text::reads(s, p, 0),
{
    if p.is_prefix_of(s) {
        assert forall|k: int| 0 <= k < p.len() implies s[0 + k] == #[trigger] p[k] by {
            assert(s.subrange(0, p.len() as int)[k] == s[k]);
        }
    }
    if text::reads(s, p, 0) {
        assert forall|k: int| 0 <= k < p.len() implies s.subrange(0, p.len() as int)[k] == p[k] by {
            assert(s[0 + k] == p[k]);
        }
        assert(s.subrange(0, p.len() as int) =~= p);
    }
}

proof fn lemma_ends(s: Seq<char>, p: Seq<char>)
    ensures
        has_suffix(s, p) == text::reads(s, p, s.len() - p.len()),
{
    let n = s.len() - p.len();
    if has_suffix(s, p) {
        assert forall|k: int| 0 <= k < p.len() implies s[n + k] == #[trigger] p[k] by {
            assert(s.skip(n)[k] == s[n + k]);
        }
    }
    if text::reads(s, p, n) {
        assert forall|k: int| 0 <= k < p.len() implies s.skip(n)[k] == p[k] by {
            assert(s[n + k] == p[k]);
        }
        assert(s.skip(n) =~= p);
    }
}

/// A record with a text that is not blank is printed, without the white space at
/// its end, unless the same was printed before. It is then counted as an error or
/// as a warning, unless it counts others; and it is counted as one of them only.
/// Any other record changes nothing.
pub proof fn law_records_are_printed_and_counted(
    ds: Seq<Diagnostic>,
    d: Diagnostic,
    body: Seq<char>,
    w: Seq<char>,
)
    requires
        text::blank(w),
        body.len() > 0 ==> !text::is_space(body.last()),
    ensures
        ({
            let before = rendered(ds);
            let now = rendered(ds.push(d));
            let text_of_it = d.rendered is Some && d.rendered->0@ == body + w;
            &&& rendered(Seq::empty()).blocks.len() == 0
            &&& rendered(Seq::empty()).errors == 0
            &&& rendered(Seq::empty()).warnings == 0
            &&& d.rendered is None || (text_of_it && (body.len() == 0 || before.blocks.contains(
                body,
            ))) ==> now == before
            &&& text_of_it && body.len() > 0 && !before.blocks.contains(body) ==> {
                &&& now.blocks == before.blocks.push(body)
                &&& now.errors == before.errors + if d.error() && !d.tally() {
                    1nat
                } else {
                    0nat
                }
                &&& now.warnings == before.warnings + if d.warning() && !d.tally() {
                    1nat
                } else {
                    0nat
                }
            }
        }),
{
    assert(ds.push(d).drop_last() =~= ds);
    text::lemma_trim_end_blank(body, w);
    if d.error() {
        reveal_strlit("error");
        reveal_strlit("warning");
        let l = d.level->0@;
        assert(l.subrange(0, 5)[0] == 'e');
        assert(l[0] == 'e');
        if d.warning() {
            assert(l[0] == 'w');
        }
    }
}

/// A report ends in an error if and only if there are errors, in a warning if and
/// only if there are warnings alone, and tells how many there are of each.
pub proof fn law_reports_tell_the_numbers(errors: nat, warnings: nat, what: Seq<char>)
    ensures
        closing_line(errors, warnings, what) is Error <==> errors > 0,
        closing_line(errors, warnings, what) is Warning <==> errors == 0 && warnings > 0,
        closing_line(errors, warnings, what) matches ReportModel::Error(m) ==> text::reads(
            m,
            what + " found "@ + text::decimal(errors) + " error(s) and "@ + text::decimal(warnings),
            0,
        ),
        closing_line(errors, warnings, what) matches ReportModel::Warning(m) ==> text::reads(
            m,
            what + " found "@ + text::decimal(warnings),
            0,
        ),
        closing_line(errors, warnings, what) matches ReportModel::Finished(m) ==> text::reads(
            m,
            what,
            0,
        ),
{
    let a = what + " found "@ + text::decimal(errors) + " error(s) and "@ + text::decimal(warnings);
    let b = what + " found "@ + text::decimal(warnings);
    match closing_line(errors, warnings, what) {
        ReportModel::Error(m) => {
            assert forall|k: int| 0 <= k < a.len() implies m[0 + k] == #[trigger] a[k] by {}
        },
        ReportModel::Warning(m) => {
            assert forall|k: int| 0 <= k < b.len() implies m[0 + k] == #[trigger] b[k] by {}
        },
        ReportModel::Finished(m) => {
            assert forall|k: int| 0 <= k < what.len() implies m[0 + k] == #[trigger] what[k] by {}
        },
    }
}

} // verus!
