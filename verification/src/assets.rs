//! The files that are put into a new Buck2 project, and how the platforms among
//! them are brought up to date later.

use vstd::prelude::*;

use crate::text::{
    contains_text, ends_with, lines, same_text, starts_with, strip_prefix, strip_suffix, trim,
};
use crate::text;

verus! {

/// The bytes, with a line feed for each carriage return and line feed.
pub open spec fn line_feeds_only(bytes: Seq<u8>) -> Seq<u8>
    decreases bytes.len(),
{
    if bytes.len() == 0 {
        Seq::empty()
    } else if bytes.len() >= 2 && bytes[0] == 0x0d && bytes[1] == 0x0a {
        seq![0x0au8] + line_feeds_only(bytes.skip(2))
    } else {
        seq![bytes[0]] + line_feeds_only(bytes.skip(1))
    }
}

/// The bytes, with a line feed for each carriage return and line feed. A file
/// that was checked out on Windows is then the same as everywhere else.
pub fn normalize_line_endings(bytes: &[u8]) -> (r: Vec<u8>)
    ensures
        r@ == line_feeds_only(bytes@),
{
    let mut out: Vec<u8> = Vec::new();
    let mut i: usize = 0;
    proof {
        assert(bytes@.skip(0) =~= bytes@);
        assert(out@ + line_feeds_only(bytes@) =~= line_feeds_only(bytes@));
    }
    while i < bytes.len()
        invariant
            i <= bytes@.len(),
            out@ + line_feeds_only(bytes@.skip(i as int)) == line_feeds_only(bytes@),
        decreases bytes@.len() - i,
    {
        let ghost rest = bytes@.skip(i as int);
        let ghost before = out@;
        proof {
            assert(rest[0] == bytes@[i as int]);
            assert(rest.skip(1) =~= bytes@.skip(i + 1));
        }
        if bytes[i] == 0x0d && bytes.len() - i >= 2 && bytes[i + 1] == 0x0a {
            proof {
                assert(rest[1] == bytes@[i + 1]);
                assert(rest.skip(2) =~= bytes@.skip(i + 2));
            }
            out.push(0x0a);
            i = i + 2;
            proof {
                assert(out@ + line_feeds_only(bytes@.skip(i as int)) =~= before + (seq![0x0au8]
                    + line_feeds_only(rest.skip(2))));
            }
        } else {
            out.push(bytes[i]);
            proof {
                if rest.len() >= 2 {
                    assert(rest[1] == bytes@[i + 1]);
                }
                assert(out@ + line_feeds_only(rest.skip(1)) =~= before + (seq![rest[0]]
                    + line_feeds_only(rest.skip(1))));
            }
            i = i + 1;
        }
    }
    proof {
        assert(bytes@.skip(i as int) =~= Seq::empty());
        assert(out@ + Seq::<u8>::empty() =~= out@);
    }
    out
}

/// The name under which the file `file_name` is put into a project.
pub open spec fn name_installed(file_name: Seq<char>) -> Seq<char> {
    if file_name == "BUCK.template"@ {
        "BUCK"@
    } else {
        file_name
    }
}

/// The name under which a file is put into a project. A file is called
/// `BUCK.template` only so that Buck2 does not take its directory for a package.
pub fn installed_name(file_name: &str) -> (r: String)
    ensures
        r@ == name_installed(file_name@),
        r@ == if file_name@ == "BUCK.template"@ {
            "BUCK"@
        } else {
            file_name@
        },
{
    if same_text(file_name, "BUCK.template") {
        "BUCK".to_owned()
    } else {
        file_name.to_owned()
    }
}

/// Whether a `platform()` target starts on this line.
pub open spec fn opens_block(line: Seq<char>) -> bool {
    "platform("@.is_prefix_of(line)
}

/// The number of lines up to and with the one that closes a target, or of all of
/// them if none does.
pub open spec fn body_len(lines: Seq<Seq<char>>) -> nat
    decreases lines.len(),
{
    if lines.len() == 0 {
        0
    } else if lines[0] == ")"@ {
        1
    } else {
        1 + body_len(lines.drop_first())
    }
}

/// The name that a line gives the target it belongs to.
pub open spec fn line_name(line: Seq<char>) -> Option<Seq<char>> {
    let inner = text::trim_of(line);
    let open = "name = \""@;
    let close = "\","@;
    if open.is_prefix_of(inner) {
        let rest = inner.skip(open.len() as int);
        if close.len() <= rest.len() && rest.skip(rest.len() - close.len()) == close {
            Some(rest.take(rest.len() - close.len()))
        } else {
            None
        }
    } else {
        None
    }
}

/// The name that the lines give the target they belong to: the last one.
pub open spec fn body_name(lines: Seq<Seq<char>>) -> Option<Seq<char>>
    decreases lines.len(),
{
    if lines.len() == 0 {
        None
    } else {
        match line_name(lines.last()) {
            Some(name) => Some(name),
            None => body_name(lines.drop_last()),
        }
    }
}

/// The lines, each with a line feed.
pub open spec fn written(lines: Seq<Seq<char>>) -> Seq<char>
    decreases lines.len(),
{
    if lines.len() == 0 {
        Seq::empty()
    } else {
        written(lines.drop_last()) + lines.last() + "\n"@
    }
}

/// The lines of the target that starts on the first of `lines`.
pub open spec fn block_lines(lines: Seq<Seq<char>>) -> Seq<Seq<char>> {
    lines.take(1 + body_len(lines.drop_first()) as int)
}

/// The targets that start on one of the lines: the name of each, and its text.
/// One that is given no name is left out.
pub open spec fn blocks(lines: Seq<Seq<char>>) -> Seq<(Seq<char>, Seq<char>)>
    decreases lines.len(),
{
    if lines.len() == 0 {
        Seq::empty()
    } else if !opens_block(lines[0]) {
        blocks(lines.drop_first())
    } else {
        let n = 1 + body_len(lines.drop_first()) as int;
        let rest = if 0 < n <= lines.len() {
            blocks(lines.skip(n))
        } else {
            Seq::empty()
        };
        match body_name(block_lines(lines).drop_first()) {
            Some(name) => seq![(name, written(block_lines(lines)))] + rest,
            None => rest,
        }
    }
}

/// The `platform()` targets of a generated file.
pub open spec fn blocks_of(contents: Seq<char>) -> Seq<(Seq<char>, Seq<char>)> {
    blocks(text::lines_of(contents))
}

/// The names and texts of a list of targets.
pub open spec fn block_models(v: Seq<(String, String)>) -> Seq<(Seq<char>, Seq<char>)> {
    v.map_values(|b: (String, String)| (b.0@, b.1@))
}

/// The name that a line gives the target it belongs to.
fn name_on(line: &str) -> (r: Option<String>)
    ensures
        text::view_opt(r) == line_name(line@),
{
    let inner = trim(line);
    match strip_prefix(inner.as_str(), "name = \"") {
        Some(rest) => strip_suffix(rest.as_str(), "\","),
        None => None,
    }
}

proof fn lemma_body_len(lines: Seq<Seq<char>>)
    ensures
        body_len(lines) <= lines.len(),
    decreases lines.len(),
{
    if lines.len() > 0 && lines[0] != ")"@ {
        lemma_body_len(lines.drop_first());
    }
}

/// The position behind the target whose body starts at `from`, its name, and the
/// text of its body.
fn read_body(list: &Vec<String>, from: usize) -> (r: (usize, Option<String>, String))
    requires
        from <= list@.len(),
    ensures
        ({
            let rest = text::views(list@).skip(from as int);
            let n = body_len(rest);
            &&& n <= rest.len()
            &&& r.0 == from + n
            &&& text::view_opt(r.1) == body_name(rest.take(n as int))
            &&& r.2@ == written(rest.take(n as int))
        }),
{
    let ghost rest = text::views(list@).skip(from as int);
    let mut name: Option<String> = None;
    let mut block = String::new();
    let mut i: usize = from;
    proof {
        assert(rest.skip(0) =~= rest);
        lemma_body_len(rest);
    }
    while i < list.len()
        invariant
            from <= i <= list@.len(),
            rest == text::views(list@).skip(from as int),
            body_len(rest) <= rest.len(),
            body_len(rest) == i - from + body_len(rest.skip(i - from)),
            text::view_opt(name) == body_name(rest.take(i - from)),
            block@ == written(rest.take(i - from)),
        decreases list@.len() - i,
    {
        let body = list[i].as_str();
        proof {
            let k = i - from;
            assert(rest[k] == body@);
            assert(rest.skip(k)[0] == body@);
            assert(rest.skip(k).drop_first() =~= rest.skip(k + 1));
            assert(rest.take(k + 1).drop_last() =~= rest.take(k));
            assert(rest.take(k + 1).last() == body@);
        }
        block.append(body);
        block.append("\n");
        if let Some(value) = name_on(body) {
            name = Some(value);
        }
        i = i + 1;
        if same_text(body, ")") {
            return (i, name, block);
        }
    }
    proof {
        assert(rest.skip(i - from).len() == 0);
    }
    (i, name, block)
}

proof fn lemma_written_concat(a: Seq<Seq<char>>, b: Seq<Seq<char>>)
    ensures
        written(a + b) == written(a) + written(b),
    decreases b.len(),
{
    if b.len() == 0 {
        assert(a + b =~= a);
        assert(written(a) + written(b) =~= written(a));
    } else {
        lemma_written_concat(a, b.drop_last());
        assert((a + b).drop_last() =~= a + b.drop_last());
        assert((a + b).last() == b.last());
        assert(written(a + b) =~= written(a) + written(b));
    }
}

proof fn lemma_blocks_step(lines: Seq<Seq<char>>)
    requires
        lines.len() > 0,
        opens_block(lines[0]),
    ensures
        ({
            let body = lines.drop_first();
            let n = body_len(body) as int;
            &&& n <= body.len()
            &&& blocks(lines) == match body_name(body.take(n)) {
                Some(name) => seq![(name, lines[0] + "\n"@ + written(body.take(n)))] + blocks(
                    lines.skip(n + 1),
                ),
                None => blocks(lines.skip(n + 1)),
            }
        }),
{
    let body = lines.drop_first();
    let n = body_len(body) as int;
    lemma_body_len(body);
    assert(block_lines(lines) =~= seq![lines[0]] + body.take(n));
    assert(block_lines(lines).drop_first() =~= body.take(n));
    lemma_written_concat(seq![lines[0]], body.take(n));
    assert(seq![lines[0]].drop_last() =~= Seq::<Seq<char>>::empty());
    assert(written(Seq::<Seq<char>>::empty()) =~= Seq::<char>::empty());
    assert(written(seq![lines[0]]) =~= lines[0] + "\n"@);
}

/// The `platform()` targets of a generated file, in the order of the file. A
/// target starts on a line with `platform(` in its first column, and ends with a
/// line that holds nothing but `)`; everything else is left alone.
pub fn platform_blocks(contents: &str) -> (r: Vec<(String, String)>)
    ensures
        block_models(r@) == blocks_of(contents@),
{
    let list = lines(contents);
    let ghost all = text::views(list@);
    let mut out: Vec<(String, String)> = Vec::new();
    let mut i: usize = 0;
    proof {
        assert(all.skip(0) =~= all);
        assert(block_models(out@) + blocks(all) =~= blocks(all));
    }
    while i < list.len()
        invariant
            i <= list@.len(),
            all == text::views(list@),
            all == text::lines_of(contents@),
            block_models(out@) + blocks(all.skip(i as int)) == blocks(all),
        decreases list@.len() - i,
    {
        let ghost rest = all.skip(i as int);
        proof {
            assert(rest[0] == list@[i as int]@);
            assert(rest.drop_first() =~= all.skip(i + 1));
        }
        if !starts_with(list[i].as_str(), "platform(") {
            i = i + 1;
            continue;
        }
        let (next, name, body) = read_body(&list, i + 1);
        let ghost n = next - i;
        proof {
            assert(rest.skip(n) =~= all.skip(next as int));
            lemma_blocks_step(rest);
        }
        let ghost before = block_models(out@);
        if let Some(name) = name {
            let mut block = list[i].clone();
            block.append("\n");
            block.append(body.as_str());
            let ghost entry = (name@, block@);
            out.push((name, block));
            proof {
                assert(block_models(out@) =~= before.push(entry));
                assert(before.push(entry) + blocks(rest.skip(n)) =~= before + (seq![entry]
                    + blocks(rest.skip(n))));
            }
        }
        i = next;
    }
    proof {
        assert(all.skip(i as int).len() == 0);
        assert(block_models(out@) + Seq::<(Seq<char>, Seq<char>)>::empty() =~= block_models(out@));
    }
    out
}

/// The names of a list of targets.
pub open spec fn block_names(list: Seq<(Seq<char>, Seq<char>)>) -> Seq<Seq<char>> {
    list.map_values(|b: (Seq<char>, Seq<char>)| b.0)
}

/// The targets of `template` whose names are not among `have`, in order.
pub open spec fn missing(
    template: Seq<(Seq<char>, Seq<char>)>,
    have: Seq<Seq<char>>,
) -> Seq<(Seq<char>, Seq<char>)>
    decreases template.len(),
{
    if template.len() == 0 {
        Seq::empty()
    } else {
        let before = missing(template.drop_last(), have);
        if have.contains(template.last().0) {
            before
        } else {
            before.push(template.last())
        }
    }
}

/// The texts of a list of targets, each behind an empty line.
pub open spec fn spaced(list: Seq<(Seq<char>, Seq<char>)>) -> Seq<char>
    decreases list.len(),
{
    if list.len() == 0 {
        Seq::empty()
    } else {
        spaced(list.drop_last()) + "\n"@ + list.last().1
    }
}

/// The targets that `template` declares and `existing` does not.
pub open spec fn targets_missing(
    existing: Seq<char>,
    template: Seq<char>,
) -> Seq<(Seq<char>, Seq<char>)> {
    missing(blocks_of(template), block_names(blocks_of(existing)))
}

/// `s`, with a line feed at its end.
pub open spec fn ended(s: Seq<char>) -> Seq<char> {
    if s.len() > 0 && s.last() == '\n' {
        s
    } else {
        s + "\n"@
    }
}

/// `existing`, with the targets at its end that it does not declare and
/// `template` does.
pub open spec fn upgraded(existing: Seq<char>, template: Seq<char>) -> Seq<char> {
    let added = targets_missing(existing, template);
    if added.len() == 0 {
        existing
    } else {
        ended(existing) + spaced(added)
    }
}

/// The names of a list of targets.
fn names_of(list: &Vec<(String, String)>) -> (r: Vec<String>)
    ensures
        text::views(r@) == block_names(block_models(list@)),
{
    let mut out: Vec<String> = Vec::new();
    let mut i: usize = 0;
    while i < list.len()
        invariant
            i <= list@.len(),
            out@.len() == i,
            forall|j: int| 0 <= j < i ==> (#[trigger] out@[j])@ == list@[j].0@,
        decreases list@.len() - i,
    {
        out.push(list[i].0.clone());
        i = i + 1;
    }
    proof {
        assert(text::views(out@) =~= block_names(block_models(list@)));
    }
    out
}

/// Adds the targets that `template` declares and `existing` does not at the end
/// of `existing`. Hands over the names of the added targets, and the file.
pub fn upgrade_platforms(existing: &str, template: &str) -> (r: (Vec<String>, String))
    ensures
        text::views(r.0@) == block_names(targets_missing(existing@, template@)),
        r.1@ == upgraded(existing@, template@),
{
    let have = names_of(&platform_blocks(existing));
    let wanted = platform_blocks(template);
    let ghost all = block_models(wanted@);
    let ghost names = text::views(have@);
    let mut added: Vec<String> = Vec::new();
    let mut appended = String::new();
    let mut i: usize = 0;
    proof {
        assert(text::views(added@) =~= block_names(missing(all.take(0), names)));
        assert(appended@ =~= spaced(missing(all.take(0), names)));
    }
    while i < wanted.len()
        invariant
            i <= wanted@.len(),
            all == block_models(wanted@),
            names == text::views(have@),
            text::views(added@) == block_names(missing(all.take(i as int), names)),
            appended@ == spaced(missing(all.take(i as int), names)),
        decreases wanted@.len() - i,
    {
        let ghost before = missing(all.take(i as int), names);
        let ghost entry = all[i as int];
        proof {
            assert(all.take(i + 1).drop_last() =~= all.take(i as int));
            assert(entry == (wanted@[i as int].0@, wanted@[i as int].1@));
        }
        if !contains_text(&have, wanted[i].0.as_str()) {
            let ghost had = text::views(added@);
            appended.append("\n");
            appended.append(wanted[i].1.as_str());
            added.push(wanted[i].0.clone());
            proof {
                assert(before.push(entry).drop_last() =~= before);
                assert(text::views(added@) =~= had.push(entry.0));
                assert(block_names(before.push(entry)) =~= block_names(before).push(entry.0));
            }
        }
        i = i + 1;
    }
    proof {
        assert(all.take(i as int) =~= all);
        assert(text::views(added@).len() == added@.len());
        assert(block_names(targets_missing(existing@, template@)).len() == targets_missing(
            existing@,
            template@,
        ).len());
    }
    if added.len() == 0 {
        return (added, existing.to_owned());
    }
    let mut updated = existing.to_owned();
    proof {
        lemma_ends_in_line_feed(existing@);
    }
    if !ends_with(existing, "\n") {
        updated.append("\n");
    }
    updated.append(appended.as_str());
    (added, updated)
}

proof fn lemma_ends_in_line_feed(s: Seq<char>)
    ensures
        ("\n"@.len() <= s.len() && s.skip(s.len() - "\n"@.len()) == "\n"@) <==> (s.len() > 0
            && s.last() == '\n'),
{
    reveal_strlit("\n");
    if s.len() > 0 {
        assert(s.skip(s.len() - 1) =~= seq![s.last()]);
        assert("\n"@ =~= seq!['\n']);
        if s.last() == '\n' {
            assert(s.skip(s.len() - 1) =~= "\n"@);
        } else {
            assert(s.skip(s.len() - 1)[0] != "\n"@[0]);
        }
    }
}

/// Bringing a file up to date leaves what it holds in place: it only grows at
/// its end.
pub proof fn law_upgrade_only_adds(existing: Seq<char>, template: Seq<char>)
    ensures
        existing.is_prefix_of(upgraded(existing, template)),
{
    let new = upgraded(existing, template);
    assert(existing =~= new.subrange(0, existing.len() as int));
}

/// Whether every target that starts on one of the lines is closed.
pub open spec fn all_closed(lines: Seq<Seq<char>>) -> bool
    decreases lines.len(),
{
    if lines.len() == 0 {
        true
    } else if !opens_block(lines[0]) {
        all_closed(lines.drop_first())
    } else {
        let body = lines.drop_first();
        let n = body_len(body) as int;
        0 < n <= body.len() && body[n - 1] == ")"@ && all_closed(lines.skip(n + 1))
    }
}

/// Whether a line closes a target once it is written and read back only if it
/// does so now. Reading takes a carriage return from the end of a line.
pub open spec fn tidy(line: Seq<char>) -> bool {
    !line.contains('\n') && line != seq![')', '\r']
}

/// Whether `ls` are the lines of the target `b`.
pub open spec fn lines_of_block(ls: Seq<Seq<char>>, b: (Seq<char>, Seq<char>)) -> bool {
    &&& ls.len() >= 1
    &&& opens_block(ls[0])
    &&& body_len(ls.drop_first()) == ls.len() - 1
    &&& body_name(ls.drop_first()) == Some(b.0)
    &&& b.1 == written(ls)
    &&& forall|i: int| 0 <= i < ls.len() ==> tidy(#[trigger] ls[i])
}

/// Whether the last of the lines of a target closes it.
pub open spec fn closes(ls: Seq<Seq<char>>) -> bool {
    ls.len() >= 2 && ls.last() == ")"@
}

proof fn lemma_body_len_concat(a: Seq<Seq<char>>, b: Seq<Seq<char>>)
    requires
        0 < body_len(a) <= a.len(),
        a[body_len(a) - 1] == ")"@,
    ensures
        body_len(a + b) == body_len(a),
    decreases a.len(),
{
    assert((a + b)[0] == a[0]);
    if a[0] != ")"@ {
        let rest = a.drop_first();
        assert((a + b).drop_first() =~= rest + b);
        assert(body_len(a) == 1 + body_len(rest));
        lemma_body_len(rest);
        if body_len(rest) == 0 {
            assert(a[0] == ")"@);
        }
        assert(rest[body_len(rest) - 1] == a[body_len(a) - 1]);
        lemma_body_len_concat(rest, b);
    }
}

proof fn lemma_blocks_concat(a: Seq<Seq<char>>, b: Seq<Seq<char>>)
    requires
        all_closed(a),
    ensures
        blocks(a + b) == blocks(a) + blocks(b),
        all_closed(b) ==> all_closed(a + b),
    decreases a.len(),
{
    if a.len() == 0 {
        assert(a + b =~= b);
        assert(blocks(a) + blocks(b) =~= blocks(b));
    } else if !opens_block(a[0]) {
        assert((a + b)[0] == a[0]);
        assert((a + b).drop_first() =~= a.drop_first() + b);
        lemma_blocks_concat(a.drop_first(), b);
    } else {
        let body = a.drop_first();
        let n = body_len(body) as int;
        assert((a + b)[0] == a[0]);
        assert((a + b).drop_first() =~= body + b);
        lemma_body_len_concat(body, b);
        assert((body + b).take(n) =~= body.take(n));
        assert((body + b)[n - 1] == body[n - 1]);
        assert((a + b).skip(n + 1) =~= a.skip(n + 1) + b);
        lemma_blocks_concat(a.skip(n + 1), b);
        lemma_blocks_step(a);
        lemma_blocks_step(a + b);
        let rest = blocks(a.skip(n + 1));
        match body_name(body.take(n)) {
            Some(name) => {
                let entry = (name, a[0] + "\n"@ + written(body.take(n)));
                assert(seq![entry] + (rest + blocks(b)) =~= (seq![entry] + rest) + blocks(b));
            },
            None => {},
        }
    }
}

proof fn lemma_body_len_take(a: Seq<Seq<char>>)
    requires
        0 < body_len(a) <= a.len(),
        a[body_len(a) - 1] == ")"@,
    ensures
        body_len(a.take(body_len(a) as int)) == body_len(a),
    decreases a.len(),
{
    let t = a.take(body_len(a) as int);
    assert(t[0] == a[0]);
    if a[0] != ")"@ {
        let rest = a.drop_first();
        lemma_body_len(rest);
        if body_len(rest) == 0 {
            assert(a[0] == ")"@);
        }
        assert(rest[body_len(rest) - 1] == a[body_len(a) - 1]);
        lemma_body_len_take(rest);
        assert(t.drop_first() =~= rest.take(body_len(rest) as int));
    }
}

proof fn lemma_body_is_closed_or_all(lines: Seq<Seq<char>>)
    ensures
        body_len(lines) <= lines.len(),
        body_len(lines) == lines.len() || (body_len(lines) > 0 && lines[body_len(lines) - 1]
            == ")"@),
    decreases lines.len(),
{
    if lines.len() > 0 && lines[0] != ")"@ {
        let rest = lines.drop_first();
        lemma_body_is_closed_or_all(rest);
        if body_len(rest) < rest.len() {
            assert(rest[body_len(rest) - 1] == lines[body_len(lines) - 1]);
        }
    }
}

/// The lines of each target that is read from tidy lines. Only the last target
/// can be left open.
proof fn lemma_blocks_have_lines(lines: Seq<Seq<char>>, k: int) -> (ls: Seq<Seq<char>>)
    requires
        forall|i: int| 0 <= i < lines.len() ==> tidy(#[trigger] lines[i]),
        0 <= k < blocks(lines).len(),
    ensures
        lines_of_block(ls, blocks(lines)[k]),
        k < blocks(lines).len() - 1 ==> closes(ls),
    decreases lines.len(),
{
    if !opens_block(lines[0]) {
        let rest = lines.drop_first();
        assert forall|i: int| 0 <= i < rest.len() implies tidy(#[trigger] rest[i]) by {
            assert(rest[i] == lines[i + 1]);
        }
        lemma_blocks_have_lines(rest, k)
    } else {
        let body = lines.drop_first();
        let n = body_len(body) as int;
        let rest = lines.skip(n + 1);
        lemma_blocks_step(lines);
        lemma_body_is_closed_or_all(body);
        assert forall|i: int| 0 <= i < rest.len() implies tidy(#[trigger] rest[i]) by {
            assert(rest[i] == lines[i + n + 1]);
        }
        if body_name(body.take(n)) is Some && k == 0 {
            let ls = lines.take(n + 1);
            assert(ls.drop_first() =~= body.take(n));
            if n < body.len() {
                lemma_body_len_take(body);
                assert(ls.last() == body[n - 1]);
            } else {
                assert(body.take(n) =~= body);
                assert(rest =~= Seq::<Seq<char>>::empty());
                assert(blocks(rest) =~= Seq::<(Seq<char>, Seq<char>)>::empty());
            }
            assert(ls =~= seq![lines[0]] + body.take(n));
            lemma_written_concat(seq![lines[0]], body.take(n));
            assert(seq![lines[0]].drop_last() =~= Seq::<Seq<char>>::empty());
            assert(written(Seq::<Seq<char>>::empty()) =~= Seq::<char>::empty());
            assert(written(seq![lines[0]]) =~= lines[0] + "\n"@);
            assert forall|i: int| 0 <= i < ls.len() implies tidy(#[trigger] ls[i]) by {
                assert(ls[i] == lines[i]);
            }
            ls
        } else if body_name(body.take(n)) is Some {
            assert(blocks(lines)[k] == blocks(rest)[k - 1]);
            lemma_blocks_have_lines(rest, k - 1)
        } else {
            lemma_blocks_have_lines(rest, k)
        }
    }
}

/// The lines of two texts, the first of which ends in a line feed.
proof fn lemma_lines_concat(a: Seq<char>, b: Seq<char>)
    requires
        a.len() == 0 || a.last() == '\n',
    ensures
        text::lines_of(a + b) == text::lines_of(a) + text::lines_of(b),
    decreases a.len(),
{
    if a.len() == 0 {
        assert(a + b =~= b);
        assert(text::lines_of(a) + text::lines_of(b) =~= text::lines_of(b));
    } else {
        let i = text::first_char(a, '\n');
        text::lemma_first_char(a, '\n');
        assert(i < a.len()) by {
            if i >= a.len() {
                assert(a[a.len() - 1] == '\n');
            }
        }
        assert forall|j: int| 0 <= j < i implies (a + b)[j] != '\n' by {
            assert((a + b)[j] == a[j]);
        }
        assert((a + b)[i] == '\n');
        text::lemma_first_char_is(a + b, '\n', i);
        assert((a + b).take(i) =~= a.take(i));
        assert((a + b).skip(i + 1) =~= a.skip(i + 1) + b);
        let rest = a.skip(i + 1);
        if rest.len() > 0 {
            assert(rest.last() == a.last());
        }
        lemma_lines_concat(rest, b);
        let first = seq![text::without_cr(a.take(i))];
        assert(first + (text::lines_of(rest) + text::lines_of(b)) =~= (first + text::lines_of(
            rest,
        )) + text::lines_of(b));
    }
}

/// The lines without the carriage returns at their ends.
pub open spec fn read_again(ls: Seq<Seq<char>>) -> Seq<Seq<char>> {
    ls.map_values(|l: Seq<char>| text::without_cr(l))
}

/// Lines that were written are read back, but for carriage returns at their ends.
proof fn lemma_written_reads_back(ls: Seq<Seq<char>>)
    requires
        forall|i: int| 0 <= i < ls.len() ==> tidy(#[trigger] ls[i]),
    ensures
        text::lines_of(written(ls)) == read_again(ls),
        ls.len() > 0 ==> written(ls).len() > 0 && written(ls).last() == '\n',
    decreases ls.len(),
{
    reveal_strlit("\n");
    if ls.len() == 0 {
        assert(text::lines_of(written(ls)) =~= read_again(ls));
    } else {
        let head = ls.drop_last();
        let last = ls.last();
        assert forall|i: int| 0 <= i < head.len() implies tidy(#[trigger] head[i]) by {
            assert(head[i] == ls[i]);
        }
        assert(tidy(ls[ls.len() - 1]));
        lemma_written_reads_back(head);
        let line = last + "\n"@;
        assert(written(ls) =~= written(head) + line);
        lemma_lines_concat(written(head), line);
        assert forall|j: int| 0 <= j < last.len() implies line[j] != '\n' by {
            assert(line[j] == last[j]);
            if last[j] == '\n' {
                assert(last.contains('\n'));
            }
        }
        text::lemma_first_char_is(line, '\n', last.len() as int);
        assert(line.take(last.len() as int) =~= last);
        assert(line.skip(last.len() as int + 1) =~= Seq::empty());
        assert(text::lines_of(Seq::<char>::empty()) =~= Seq::<Seq<char>>::empty());
        assert(text::lines_of(line) =~= seq![text::without_cr(last)]);
        assert(read_again(head) + seq![text::without_cr(last)] =~= read_again(ls));
    }
}

proof fn lemma_closing_line(line: Seq<char>)
    requires
        tidy(line),
    ensures
        text::without_cr(line) == ")"@ <==> line == ")"@,
{
    reveal_strlit(")");
    if line.len() > 0 && line.last() == '\r' {
        if line.drop_last() == ")"@ {
            assert(line.len() - 1 == ")"@.len());
            assert(line.drop_last()[0] == line[0]);
            assert(line =~= seq![')', '\r']);
        }
    }
}

/// Reading lines back changes neither where a target ends nor its name.
proof fn lemma_body_reads_back(ls: Seq<Seq<char>>)
    requires
        forall|i: int| 0 <= i < ls.len() ==> tidy(#[trigger] ls[i]),
    ensures
        body_len(read_again(ls)) == body_len(ls),
        body_name(read_again(ls)) == body_name(ls),
    decreases ls.len(),
{
    let again = read_again(ls);
    if ls.len() > 0 {
        let rest = ls.drop_first();
        let head = ls.drop_last();
        assert(again.drop_first() =~= read_again(rest));
        assert(again.drop_last() =~= read_again(head));
        assert(tidy(ls[0]));
        lemma_closing_line(ls[0]);
        assert forall|i: int| 0 <= i < rest.len() implies tidy(#[trigger] rest[i]) by {
            assert(rest[i] == ls[i + 1]);
        }
        assert forall|i: int| 0 <= i < head.len() implies tidy(#[trigger] head[i]) by {
            assert(head[i] == ls[i]);
        }
        lemma_body_reads_back(rest);
        lemma_body_reads_back(head);
        lemma_trim_without_cr(ls.last());
        assert(line_name(again.last()) == line_name(ls.last()));
    }
}

/// Whether the target `b` has lines, the last of which closes it where it has to
/// be closed.
pub open spec fn has_lines(b: (Seq<char>, Seq<char>), closed: bool) -> bool {
    exists|ls: Seq<Seq<char>>| #[trigger] lines_of_block(ls, b) && (closed ==> closes(ls))
}

/// A target that was written behind an empty line is read back, by its name.
proof fn lemma_block_reads_back(ls: Seq<Seq<char>>, b: (Seq<char>, Seq<char>))
    requires
        lines_of_block(ls, b),
    ensures
        ({
            let more = seq![Seq::<char>::empty()] + ls;
            let again = read_again(more);
            &&& written(more) == "\n"@ + b.1
            &&& text::lines_of(written(more)) == again
            &&& written(more).len() > 0 && written(more).last() == '\n'
            &&& block_names(blocks(again)) == seq![b.0]
            &&& closes(ls) ==> all_closed(again)
        }),
{
    reveal_strlit("\n");
    reveal_strlit("platform(");
    let more = seq![Seq::<char>::empty()] + ls;
    let none = Seq::<Seq<char>>::empty();
    assert forall|i: int| 0 <= i < more.len() implies tidy(#[trigger] more[i]) by {
        if i > 0 {
            assert(more[i] == ls[i - 1]);
        } else {
            assert(more[i].len() != seq![')', '\r'].len());
        }
    }
    lemma_written_reads_back(more);
    lemma_written_concat(seq![Seq::<char>::empty()], ls);
    assert(seq![Seq::<char>::empty()].drop_last() =~= none);
    assert(written(none) =~= Seq::<char>::empty());
    assert(written(seq![Seq::<char>::empty()]) =~= "\n"@);
    let again = read_again(more);
    let rows = read_again(ls);
    let body = ls.drop_first();
    assert(!opens_block(again[0]));
    assert(again.drop_first() =~= rows);
    assert(rows.drop_first() =~= read_again(body));
    lemma_opens_without_cr(ls[0]);
    assert forall|i: int| 0 <= i < body.len() implies tidy(#[trigger] body[i]) by {
        assert(body[i] == ls[i + 1]);
    }
    lemma_body_reads_back(body);
    lemma_blocks_step(rows);
    let n = body_len(body) as int;
    assert(rows.drop_first().take(n) =~= read_again(body));
    assert(rows.skip(n + 1) =~= none);
    assert(blocks(none) =~= Seq::<(Seq<char>, Seq<char>)>::empty());
    assert(block_names(blocks(again)) =~= seq![b.0]);
    if closes(ls) {
        assert(tidy(ls[ls.len() - 1]));
        lemma_closing_line(ls.last());
        assert(rows.drop_first()[n - 1] == ")"@);
        assert(all_closed(none));
        assert(all_closed(rows));
    }
}

proof fn lemma_names_concat(a: Seq<(Seq<char>, Seq<char>)>, b: Seq<(Seq<char>, Seq<char>)>)
    ensures
        block_names(a + b) == block_names(a) + block_names(b),
{
    assert(block_names(a + b) =~= block_names(a) + block_names(b));
}

/// Targets that were written, each behind an empty line, are read back, by their
/// names. Only the last of them may be left open.
proof fn lemma_spaced_reads_back(list: Seq<(Seq<char>, Seq<char>)>, closed: bool)
    requires
        forall|i: int|
            0 <= i < list.len() ==> has_lines(#[trigger] list[i], closed || i < list.len() - 1),
    ensures
        block_names(blocks(text::lines_of(spaced(list)))) == block_names(list),
        closed ==> all_closed(text::lines_of(spaced(list))),
        spaced(list).len() == 0 || spaced(list).last() == '\n',
    decreases list.len(),
{
    if list.len() == 0 {
        assert(text::lines_of(spaced(list)) =~= Seq::<Seq<char>>::empty());
        assert(blocks(text::lines_of(spaced(list))) =~= list);
    } else {
        let head = list.drop_last();
        let b = list.last();
        assert forall|i: int| 0 <= i < head.len() implies has_lines(#[trigger] head[i], true) by {
            assert(has_lines(list[i], true));
        }
        lemma_spaced_reads_back(head, true);
        assert(has_lines(list[list.len() - 1], closed));
        let ls = choose|ls: Seq<Seq<char>>|
            #[trigger] lines_of_block(ls, b) && (closed ==> closes(ls));
        let more = seq![Seq::<char>::empty()] + ls;
        lemma_block_reads_back(ls, b);
        assert(spaced(list) =~= spaced(head) + written(more));
        lemma_lines_concat(spaced(head), written(more));
        let before = text::lines_of(spaced(head));
        lemma_blocks_concat(before, read_again(more));
        lemma_names_concat(blocks(before), blocks(read_again(more)));
        assert(block_names(head) + seq![b.0] =~= block_names(list));
    }
}

proof fn lemma_no_line_feed(s: Seq<char>, i: int)
    requires
        0 <= i < text::lines_of(s).len(),
    ensures
        !text::lines_of(s)[i].contains('\n'),
    decreases s.len(),
{
    let k = text::first_char(s, '\n');
    text::lemma_first_char(s, '\n');
    if 0 <= k < s.len() {
        if i == 0 {
            let line = text::without_cr(s.take(k));
            if line.contains('\n') {
                let j = choose|j: int| 0 <= j < line.len() && line[j] == '\n';
                assert(s[j] == '\n');
            }
        } else {
            assert(text::lines_of(s)[i] == text::lines_of(s.skip(k + 1))[i - 1]);
            lemma_no_line_feed(s.skip(k + 1), i - 1);
        }
    } else {
        if s.contains('\n') {
            let j = choose|j: int| 0 <= j < s.len() && s[j] == '\n';
            assert(s[j] == '\n');
        }
    }
}

proof fn lemma_missing(template: Seq<(Seq<char>, Seq<char>)>, have: Seq<Seq<char>>)
    ensures
        (forall|i: int| 0 <= i < template.len() ==> have.contains(#[trigger] template[i].0))
            ==> missing(template, have).len() == 0,
        forall|i: int|
            0 <= i < template.len() ==> have.contains(#[trigger] template[i].0) || missing(
                template,
                have,
            ).contains(template[i]),
        forall|i: int|
            0 <= i < missing(template, have).len() ==> template.contains(
                #[trigger] missing(template, have)[i],
            ),
        forall|i: int|
            0 <= i < missing(template, have).len() - 1 ==> template.drop_last().contains(
                #[trigger] missing(template, have)[i],
            ),
    decreases template.len(),
{
    if template.len() > 0 {
        let head = template.drop_last();
        lemma_missing(head, have);
        let before = missing(head, have);
        let now = missing(template, have);
        assert forall|i: int| 0 <= i < head.len() implies head[i] == #[trigger] template[i] by {}
        if forall|i: int| 0 <= i < template.len() ==> have.contains(#[trigger] template[i].0) {
            assert(have.contains(template[template.len() - 1].0));
            assert forall|i: int| 0 <= i < head.len() implies have.contains(
                #[trigger] head[i].0,
            ) by {
                assert(have.contains(template[i].0));
            }
        }
        assert forall|i: int| 0 <= i < template.len() implies have.contains(
            #[trigger] template[i].0,
        ) || now.contains(template[i]) by {
            if i < head.len() {
                assert(have.contains(head[i].0) || before.contains(head[i]));
                if before.contains(head[i]) {
                    let j = choose|j: int| 0 <= j < before.len() && before[j] == head[i];
                    assert(now[j] == head[i]);
                }
            } else if !have.contains(template[i].0) {
                assert(now[before.len() as int] == template[i]);
            }
        }
        assert forall|i: int| 0 <= i < now.len() implies template.contains(#[trigger] now[i]) by {
            if i < before.len() {
                assert(head.contains(before[i]));
                let j = choose|j: int| 0 <= j < head.len() && head[j] == before[i];
                assert(template[j] == before[i]);
            } else {
                assert(template[template.len() - 1] == now[i]);
            }
        }
    }
}

proof fn lemma_trim_without_cr(x: Seq<char>)
    ensures
        text::trim_of(text::without_cr(x)) == text::trim_of(x),
{
    if x.len() > 0 && x.last() == '\r' {
        let t = x.drop_last();
        let w = seq!['\r'];
        assert(x =~= t + w);
        text::lemma_trim_end_blank(t, w);
        text::lemma_trim_both(t);
        text::lemma_trim_both(x);
    }
}

proof fn lemma_opens_without_cr(x: Seq<char>)
    ensures
        opens_block(text::without_cr(x)) == opens_block(x),
{
    reveal_strlit("platform(");
    if x.len() > 0 && x.last() == '\r' {
        let t = x.drop_last();
        if opens_block(x) {
            let n = "platform("@.len() as int;
            assert(x.subrange(0, n)[n - 1] == '(');
            assert(x[n - 1] == '(');
            assert(t.subrange(0, n) =~= x.subrange(0, n));
        }
        if opens_block(t) {
            let n = "platform("@.len() as int;
            assert(t.subrange(0, n) =~= x.subrange(0, n));
        }
    }
}

/// A carriage return at the end of the last line makes no difference to the
/// names.
proof fn lemma_names_without_cr(lines: Seq<Seq<char>>, x: Seq<char>)
    ensures
        block_names(blocks(lines.push(x))) == block_names(blocks(lines.push(text::without_cr(x)))),
    decreases lines.len(),
{
    let y = text::without_cr(x);
    let a = lines.push(x);
    let b = lines.push(y);
    lemma_opens_without_cr(x);
    lemma_trim_without_cr(x);
    let none = Seq::<(Seq<char>, Seq<char>)>::empty();
    assert(blocks(Seq::<Seq<char>>::empty()) =~= none);
    if lines.len() == 0 {
        assert(a.drop_first() =~= Seq::<Seq<char>>::empty());
        assert(b.drop_first() =~= Seq::<Seq<char>>::empty());
        if opens_block(x) {
            lemma_blocks_step(a);
            lemma_blocks_step(b);
            assert(a.skip(1) =~= Seq::<Seq<char>>::empty());
            assert(b.skip(1) =~= Seq::<Seq<char>>::empty());
            assert(a.drop_first().take(0) =~= Seq::<Seq<char>>::empty());
            assert(b.drop_first().take(0) =~= Seq::<Seq<char>>::empty());
        }
    } else {
        assert(a[0] == lines[0] && b[0] == lines[0]);
        let rest = lines.drop_first();
        assert(a.drop_first() =~= rest.push(x));
        assert(b.drop_first() =~= rest.push(y));
        if !opens_block(lines[0]) {
            lemma_names_without_cr(rest, x);
        } else {
            lemma_blocks_step(a);
            lemma_blocks_step(b);
            lemma_body_len(rest);
            lemma_body_len_push(rest, x);
            lemma_body_len_push(rest, y);
            let n = body_len(rest.push(x)) as int;
            if n <= rest.len() {
                assert(rest.push(x).take(n) =~= rest.take(n));
                assert(rest.push(y).take(n) =~= rest.take(n));
                let after = lines.skip(n + 1);
                assert(a.skip(n + 1) =~= after.push(x));
                assert(b.skip(n + 1) =~= after.push(y));
                lemma_names_without_cr(after, x);
                if let Some(name) = body_name(rest.take(n)) {
                    let entry = (name, lines[0] + "\n"@ + written(rest.take(n)));
                    assert(block_names(blocks(a)) =~= seq![name] + block_names(
                        blocks(after.push(x)),
                    ));
                    assert(block_names(blocks(b)) =~= seq![name] + block_names(
                        blocks(after.push(y)),
                    ));
                }
            } else {
                assert(rest.push(x).take(n) =~= rest.push(x));
                assert(rest.push(y).take(n) =~= rest.push(y));
                assert(rest.push(x).drop_last() =~= rest);
                assert(rest.push(y).drop_last() =~= rest);
                assert(line_name(x) == line_name(y));
                assert(body_name(rest.push(x)) == body_name(rest.push(y)));
                assert(a.skip(n + 1) =~= Seq::<Seq<char>>::empty());
                assert(b.skip(n + 1) =~= Seq::<Seq<char>>::empty());
                assert(block_names(blocks(a)) =~= block_names(blocks(b)));
            }
        }
    }
}

proof fn lemma_body_len_push(lines: Seq<Seq<char>>, x: Seq<char>)
    ensures
        body_len(lines.push(x)) == if 0 < body_len(lines) <= lines.len() && lines[body_len(lines)
            - 1] == ")"@ {
            body_len(lines)
        } else {
            lines.len() + 1
        },
    decreases lines.len(),
{
    let a = lines.push(x);
    if lines.len() == 0 {
        assert(a.drop_first() =~= Seq::<Seq<char>>::empty());
        assert(body_len(Seq::<Seq<char>>::empty()) == 0);
    } else {
        assert(a[0] == lines[0]);
        assert(a.drop_first() =~= lines.drop_first().push(x));
        lemma_body_len(lines.drop_first());
        if lines[0] != ")"@ {
            let rest = lines.drop_first();
            lemma_body_len_push(rest, x);
            if body_len(rest) > 0 {
                assert(rest[body_len(rest) - 1] == lines[body_len(lines) - 1]);
            }
        }
    }
}

/// The lines of a text that gets a line feed at its end.
proof fn lemma_lines_ended(s: Seq<char>)
    requires
        s.len() > 0,
        s.last() != '\n',
    ensures
        text::lines_of(s).len() > 0,
        text::lines_of(s + "\n"@) == text::lines_of(s).drop_last().push(
            text::without_cr(text::lines_of(s).last()),
        ),
    decreases s.len(),
{
    reveal_strlit("\n");
    let t = s + "\n"@;
    let k = text::first_char(s, '\n');
    text::lemma_first_char(s, '\n');
    assert forall|j: int| 0 <= j < k implies t[j] != '\n' by {
        assert(t[j] == s[j]);
    }
    assert(t[k] == '\n');
    text::lemma_first_char_is(t, '\n', k);
    assert(t.take(k) =~= s.take(k));
    if k < s.len() {
        let rest = s.skip(k + 1);
        assert(k + 1 < s.len()) by {
            if k + 1 == s.len() {
                assert(s.last() == '\n');
            }
        }
        assert(rest.last() == s.last());
        assert(t.skip(k + 1) =~= rest + "\n"@);
        lemma_lines_ended(rest);
        let first = seq![text::without_cr(s.take(k))];
        let lr = text::lines_of(rest);
        assert(text::lines_of(s) == first + lr);
        assert((first + lr).drop_last() =~= first + lr.drop_last());
        assert(first + lr.drop_last().push(text::without_cr(lr.last())) =~= (first
            + lr.drop_last()).push(text::without_cr(lr.last())));
    } else {
        assert(s.take(k) =~= s);
        assert(t.skip(k + 1) =~= Seq::<char>::empty());
        assert(text::lines_of(Seq::<char>::empty()) =~= Seq::<Seq<char>>::empty());
        assert(text::lines_of(s) =~= seq![s]);
        assert(text::lines_of(t) =~= seq![text::without_cr(s)]);
        assert(seq![s].drop_last().push(text::without_cr(s)) =~= seq![text::without_cr(s)]);
    }
}

proof fn lemma_same_names(s: Seq<char>)
    ensures
        block_names(blocks_of(ended(s))) == block_names(blocks_of(s)),
{
    reveal_strlit("\n");
    if s.len() == 0 {
        let line = "\n"@;
        assert(s + line =~= line);
        text::lemma_first_char_is(line, '\n', 0);
        assert(line.take(0) =~= Seq::<char>::empty());
        assert(line.skip(1) =~= Seq::<char>::empty());
        assert(text::lines_of(Seq::<char>::empty()) =~= Seq::<Seq<char>>::empty());
        assert(text::lines_of(line) =~= seq![Seq::<char>::empty()]);
        reveal_strlit("platform(");
        assert(!opens_block(Seq::<char>::empty()));
        assert(seq![Seq::<char>::empty()].drop_first() =~= Seq::<Seq<char>>::empty());
        assert(text::lines_of(s) =~= Seq::<Seq<char>>::empty());
    } else if s.last() != '\n' {
        lemma_lines_ended(s);
        let ls = text::lines_of(s);
        assert(ls =~= ls.drop_last().push(ls.last()));
        lemma_names_without_cr(ls.drop_last(), ls.last());
    }
}

/// Bringing a file up to date a second time changes nothing and adds nothing:
/// provided that no target is left open in the file, where it would swallow what
/// is added, and that no line of the template is a `)` and a carriage return,
/// which would close a target only once it is read again.
pub proof fn law_upgrade_is_done_once(existing: Seq<char>, template: Seq<char>)
    requires
        targets_missing(existing, template).len() > 0 ==> all_closed(
            text::lines_of(ended(existing)),
        ),
        !text::lines_of(template).contains(seq![')', '\r']),
    ensures
        targets_missing(upgraded(existing, template), template).len() == 0,
        upgraded(upgraded(existing, template), template) == upgraded(existing, template),
{
    reveal_strlit("\n");
    let added = targets_missing(existing, template);
    let all = blocks_of(template);
    let have = block_names(blocks_of(existing));
    lemma_missing(all, have);
    if added.len() > 0 {
        let ls = text::lines_of(template);
        assert forall|i: int| 0 <= i < ls.len() implies tidy(#[trigger] ls[i]) by {
            lemma_no_line_feed(template, i);
        }
        assert forall|i: int| 0 <= i < added.len() implies has_lines(
            #[trigger] added[i],
            i < added.len() - 1,
        ) by {
            assert(all.contains(added[i]));
            let k = if i < added.len() - 1 {
                choose|k: int| 0 <= k < all.drop_last().len() && all.drop_last()[k] == added[i]
            } else {
                choose|k: int| 0 <= k < all.len() && all[k] == added[i]
            };
            let q = lemma_blocks_have_lines(ls, k);
            assert(lines_of_block(q, added[i]));
        }
        lemma_spaced_reads_back(added, false);
        let new = upgraded(existing, template);
        let old_blocks = blocks_of(ended(existing));
        let new_blocks = blocks(text::lines_of(spaced(added)));
        lemma_lines_concat(ended(existing), spaced(added));
        lemma_blocks_concat(text::lines_of(ended(existing)), text::lines_of(spaced(added)));
        lemma_same_names(existing);
        lemma_names_concat(old_blocks, new_blocks);
        let now = block_names(blocks_of(new));
        assert(now == have + block_names(added));
        assert forall|i: int| 0 <= i < all.len() implies now.contains(#[trigger] all[i].0) by {
            if have.contains(all[i].0) {
                let k = choose|k: int| 0 <= k < have.len() && have[k] == all[i].0;
                assert(now[k] == all[i].0);
            } else {
                let k = choose|k: int| 0 <= k < added.len() && added[k] == all[i];
                assert(block_names(added)[k] == all[i].0);
                assert(now[have.len() + k] == all[i].0);
            }
        }
        lemma_missing(all, now);
    }
}

/// A carriage return and a line feed become a line feed, and every other byte
/// stays: one by one, unless the first part ends in the carriage return of a line
/// feed that the second starts with.
pub proof fn law_line_endings(a: Seq<u8>, b: Seq<u8>, x: u8)
    ensures
        line_feeds_only(seq![0x0du8, 0x0au8]) == seq![0x0au8],
        line_feeds_only(seq![x]) == seq![x],
        line_feeds_only(Seq::empty()).len() == 0,
        !(a.len() > 0 && a.last() == 0x0d && b.len() > 0 && b[0] == 0x0a) ==> line_feeds_only(a + b)
            == line_feeds_only(a) + line_feeds_only(b),
    decreases a.len(),
{
    let pair = seq![0x0du8, 0x0au8];
    let one = seq![x];
    assert(pair.skip(2) =~= Seq::<u8>::empty());
    assert(one.skip(1) =~= Seq::<u8>::empty());
    assert(line_feeds_only(Seq::<u8>::empty()) =~= Seq::<u8>::empty());
    assert(line_feeds_only(pair) =~= seq![0x0au8]);
    assert(line_feeds_only(one) =~= seq![x]);
    if !(a.len() > 0 && a.last() == 0x0d && b.len() > 0 && b[0] == 0x0a) {
        let all = a + b;
        if a.len() == 0 {
            assert(all =~= b);
            assert(line_feeds_only(a) + line_feeds_only(b) =~= line_feeds_only(b));
        } else if a.len() >= 2 && a[0] == 0x0d && a[1] == 0x0a {
            assert(all[0] == a[0] && all[1] == a[1]);
            assert(all.skip(2) =~= a.skip(2) + b);
            if a.len() > 2 {
                assert(a.skip(2).last() == a.last());
            }
            law_line_endings(a.skip(2), b, x);
            assert(line_feeds_only(all) =~= line_feeds_only(a) + line_feeds_only(b));
        } else {
            assert(all[0] == a[0]);
            if a.len() >= 2 {
                assert(all[1] == a[1]);
                assert(a.skip(1).last() == a.last());
            } else {
                assert(a.last() == a[0]);
                if b.len() > 0 {
                    assert(all[1] == b[0]);
                }
            }
            assert(all.skip(1) =~= a.skip(1) + b);
            law_line_endings(a.skip(1), b, x);
            assert(line_feeds_only(all) =~= line_feeds_only(a) + line_feeds_only(b));
        }
    }
}

/// A line gives its target the name that stands in quotes in it, whatever white
/// space is round it.
pub proof fn law_name_is_read(before: Seq<char>, name: Seq<char>, behind: Seq<char>)
    requires
        text::blank(before),
        text::blank(behind),
    ensures
        line_name(before + "name = \""@ + name + "\","@ + behind) == Some(name),
{
    reveal_strlit("name = \"");
    reveal_strlit("\",");
    let open = "name = \""@;
    let close = "\","@;
    let inner = open + name + close;
    assert(open.len() == 8 && close.len() == 2);
    assert(inner[0] == 'n');
    assert(inner.last() == ',');
    assert(before + open + name + close + behind =~= before + inner + behind);
    text::law_trimmed(before, inner, behind);
    assert(open.is_prefix_of(inner)) by {
        assert(inner.subrange(0, 8) =~= open);
    }
    let rest = inner.skip(8);
    assert(rest =~= name + close);
    assert(rest.skip(rest.len() - 2) =~= close);
    assert(rest.take(rest.len() - 2) =~= name);
}

/// A line that does not start with a name, or does not end with its quote and a
/// comma, gives none.
pub proof fn law_other_lines_give_no_name(line: Seq<char>)
    ensures
        !text::reads(text::trim_of(line), "name = \""@, 0) ==> line_name(line) is None,
        !text::reads(text::trim_of(line), "\","@, text::trim_of(line).len() - 2) ==> line_name(line)
            is None,
{
    reveal_strlit("name = \"");
    reveal_strlit("\",");
    let inner = text::trim_of(line);
    let open = "name = \""@;
    let close = "\","@;
    if line_name(line) is Some {
        assert(inner.subrange(0, 8) == open);
        assert forall|k: int| 0 <= k < open.len() implies inner[0 + k] == #[trigger] open[k] by {
            assert(inner.subrange(0, 8)[k] == inner[k]);
        }
        let rest = inner.skip(8);
        let n = rest.len() - 2;
        assert forall|k: int| 0 <= k < close.len() implies inner[inner.len() - 2 + k]
            == #[trigger] close[k] by {
            assert(rest.skip(n)[k] == rest[n + k]);
            assert(rest[n + k] == inner[8 + n + k]);
        }
    }
}

/// The last name that the lines of a target give it is the one that it has.
pub proof fn law_last_name_counts(lines: Seq<Seq<char>>, line: Seq<char>)
    ensures
        line_name(line) is Some ==> body_name(lines.push(line)) == line_name(line),
        line_name(line) is None ==> body_name(lines.push(line)) == body_name(lines),
        body_name(Seq::empty()) is None,
{
    assert(lines.push(line).drop_last() =~= lines);
}

proof fn lemma_body_up_to(body: Seq<Seq<char>>, rest: Seq<Seq<char>>)
    requires
        forall|i: int| 0 <= i < body.len() ==> #[trigger] body[i] != ")"@,
    ensures
        body_len(body + seq![")"@] + rest) == body.len() + 1,
        body_len(body) == body.len(),
    decreases body.len(),
{
    let all = body + seq![")"@] + rest;
    if body.len() == 0 {
        assert(all[0] == ")"@);
    } else {
        let less = body.drop_first();
        assert(body[0] != ")"@);
        assert(all[0] == body[0]);
        assert forall|i: int| 0 <= i < less.len() implies #[trigger] less[i] != ")"@ by {
            assert(less[i] == body[i + 1]);
        }
        lemma_body_up_to(less, rest);
        assert(all.drop_first() =~= less + seq![")"@] + rest);
    }
}

/// A target reads from a line that starts with `platform(` up to the first line
/// that holds nothing but a closing bracket. It has all of these lines, and the last
/// name that is given in them; one without a name is left out. What stands before
/// it, and opens no target, does not count, and what stands behind it is read on.
pub proof fn law_target_is_read(
    before: Seq<Seq<char>>,
    open: Seq<char>,
    body: Seq<Seq<char>>,
    rest: Seq<Seq<char>>,
)
    requires
        forall|i: int|
            0 <= i < before.len() ==> !text::reads(#[trigger] before[i], "platform("@, 0),
        text::reads(open, "platform("@, 0),
        forall|i: int| 0 <= i < body.len() ==> #[trigger] body[i] != ")"@,
    ensures
        ({
            let own = seq![open] + body + seq![")"@];
            match body_name(body + seq![")"@]) {
                Some(name) => blocks(before + own + rest) == seq![(name, written(own))] + blocks(
                    rest,
                ),
                None => blocks(before + own + rest) == blocks(rest),
            }
        }),
        blocks(before).len() == 0,
    decreases before.len(),
{
    let own = seq![open] + body + seq![")"@];
    let all = before + own + rest;
    if before.len() == 0 {
        lemma_opens(open);
        assert(all =~= own + rest);
        assert(all[0] == open);
        assert(all.drop_first() =~= body + seq![")"@] + rest);
        lemma_body_up_to(body, rest);
        let n = body.len() as int + 1;
        lemma_blocks_step(all);
        assert(all.drop_first().take(n) =~= body + seq![")"@]);
        assert(all.skip(n + 1) =~= rest);
        assert(own =~= seq![open] + (body + seq![")"@]));
        lemma_written_concat(seq![open], body + seq![")"@]);
        assert(seq![open].drop_last() =~= Seq::<Seq<char>>::empty());
        assert(written(Seq::<Seq<char>>::empty()) =~= Seq::<char>::empty());
        assert(written(seq![open]) =~= open + "\n"@);
    } else {
        let less = before.drop_first();
        assert(!text::reads(before[0], "platform("@, 0));
        lemma_opens(before[0]);
        assert(all[0] == before[0]);
        assert forall|i: int| 0 <= i < less.len() implies !text::reads(
            #[trigger] less[i],
            "platform("@,
            0,
        ) by {
            assert(less[i] == before[i + 1]);
        }
        law_target_is_read(less, open, body, rest);
        assert(all.drop_first() =~= less + own + rest);
    }
}

proof fn lemma_opens(line: Seq<char>)
    ensures
        opens_block(line) == text::reads(line, "platform("@, 0),
{
    let p = "platform("@;
    if opens_block(line) {
        assert forall|k: int| 0 <= k < p.len() implies line[0 + k] == #[trigger] p[k] by {
            assert(line.subrange(0, p.len() as int)[k] == line[k]);
        }
    }
    if text::reads(line, p, 0) {
        assert forall|k: int| 0 <= k < p.len() implies line.subrange(0, p.len() as int)[k]
            == p[k] by {
            assert(line[0 + k] == p[k]);
        }
        assert(line.subrange(0, p.len() as int) =~= p);
    }
}

/// Lines are written one behind the other, each with a line feed.
pub proof fn law_lines_are_written(a: Seq<Seq<char>>, b: Seq<Seq<char>>, line: Seq<char>)
    ensures
        written(a + b) == written(a) + written(b),
        written(seq![line]) == line + seq!['\n'],
        written(Seq::empty()).len() == 0,
{
    lemma_written_concat(a, b);
    reveal_strlit("\n");
    assert("\n"@ =~= seq!['\n']);
    assert(seq![line].drop_last() =~= Seq::<Seq<char>>::empty());
    assert(written(Seq::<Seq<char>>::empty()) =~= Seq::<char>::empty());
    assert(written(seq![line]) =~= line + seq!['\n']);
}

/// The targets that are missing of two lists are those of the first and then those
/// of the second. A target is missing if and only if its name is not there.
pub proof fn law_missing_targets(
    a: Seq<(Seq<char>, Seq<char>)>,
    b: Seq<(Seq<char>, Seq<char>)>,
    target: (Seq<char>, Seq<char>),
    have: Seq<Seq<char>>,
)
    ensures
        missing(a + b, have) == missing(a, have) + missing(b, have),
        (exists|i: int| 0 <= i < have.len() && #[trigger] have[i] == target.0) ==> missing(
            seq![target],
            have,
        ).len() == 0,
        (forall|i: int| 0 <= i < have.len() ==> #[trigger] have[i] != target.0) ==> missing(
            seq![target],
            have,
        ) == seq![target],
    decreases b.len(),
{
    let one = seq![target];
    let none = Seq::<(Seq<char>, Seq<char>)>::empty();
    assert(one.drop_last() =~= none);
    assert(missing(one.drop_last(), have) =~= none);
    assert(none.push(target) =~= one);
    assert(one.last() == target);
    if exists|i: int| 0 <= i < have.len() && #[trigger] have[i] == target.0 {
        assert(have.contains(target.0));
    }
    if b.len() == 0 {
        assert(a + b =~= a);
        assert(missing(a, have) + missing(b, have) =~= missing(a, have));
    } else {
        law_missing_targets(a, b.drop_last(), target, have);
        assert((a + b).drop_last() =~= a + b.drop_last());
        assert((a + b).last() == b.last());
        assert(missing(a + b, have) =~= missing(a, have) + missing(b, have));
    }
}

/// Targets are added one behind the other, each behind an empty line.
pub proof fn law_targets_are_spaced(
    a: Seq<(Seq<char>, Seq<char>)>,
    b: Seq<(Seq<char>, Seq<char>)>,
    target: (Seq<char>, Seq<char>),
)
    ensures
        spaced(a + b) == spaced(a) + spaced(b),
        spaced(seq![target]) == seq!['\n'] + target.1,
        spaced(Seq::empty()).len() == 0,
    decreases b.len(),
{
    reveal_strlit("\n");
    assert("\n"@ =~= seq!['\n']);
    let none = Seq::<(Seq<char>, Seq<char>)>::empty();
    assert(seq![target].drop_last() =~= none);
    assert(spaced(none) =~= Seq::<char>::empty());
    assert(spaced(seq![target]) =~= seq!['\n'] + target.1);
    if b.len() == 0 {
        assert(a + b =~= a);
        assert(spaced(a) + spaced(b) =~= spaced(a));
    } else {
        law_targets_are_spaced(a, b.drop_last(), target);
        assert((a + b).drop_last() =~= a + b.drop_last());
        assert((a + b).last() == b.last());
        assert(spaced(a + b) =~= spaced(a) + spaced(b));
    }
}

/// Whether one of the targets has this name.
pub open spec fn declares(list: Seq<(Seq<char>, Seq<char>)>, name: Seq<char>) -> bool {
    exists|i: int| 0 <= i < list.len() && (#[trigger] list[i]).0 == name
}

/// A target of the template is added to a file if and only if the file does not
/// declare one of its name. What is added comes behind the file, which gets a line
/// feed at its end if it has none; a file that lacks nothing stays as it is.
pub proof fn law_upgrade_adds_what_is_missing(
    existing: Seq<char>,
    template: Seq<char>,
    target: (Seq<char>, Seq<char>),
)
    ensures
        targets_missing(existing, template).contains(target) <==> blocks_of(template).contains(
            target,
        ) && !declares(blocks_of(existing), target.0),
        targets_missing(existing, template).len() == 0 ==> upgraded(existing, template) == existing,
        targets_missing(existing, template).len() > 0 && existing.len() > 0 && existing.last()
            == '\n' ==> upgraded(existing, template) == existing + spaced(
            targets_missing(existing, template),
        ),
        targets_missing(existing, template).len() > 0 && (existing.len() == 0 || existing.last()
            != '\n') ==> upgraded(existing, template) == existing + seq!['\n'] + spaced(
            targets_missing(existing, template),
        ),
{
    reveal_strlit("\n");
    assert("\n"@ =~= seq!['\n']);
    let all = blocks_of(template);
    let list = blocks_of(existing);
    let have = block_names(list);
    lemma_missing_contains(all, have, target);
    if have.contains(target.0) {
        let i = choose|i: int| 0 <= i < have.len() && have[i] == target.0;
        assert(list[i].0 == target.0);
    }
    if declares(list, target.0) {
        let i = choose|i: int| 0 <= i < list.len() && (#[trigger] list[i]).0 == target.0;
        assert(have[i] == target.0);
    }
}

proof fn lemma_missing_contains(
    all: Seq<(Seq<char>, Seq<char>)>,
    have: Seq<Seq<char>>,
    target: (Seq<char>, Seq<char>),
)
    ensures
        missing(all, have).contains(target) <==> all.contains(target) && !have.contains(target.0),
    decreases all.len(),
{
    if all.len() > 0 {
        let head = all.drop_last();
        let n = all.len() - 1;
        lemma_missing_contains(head, have, target);
        let before = missing(head, have);
        let now = missing(all, have);
        assert(all[n] == all.last());
        if now.contains(target) {
            let k = choose|k: int| 0 <= k < now.len() && now[k] == target;
            if k < before.len() {
                assert(before[k] == target);
                let j = choose|j: int| 0 <= j < head.len() && head[j] == target;
                assert(all[j] == target);
            }
        }
        if all.contains(target) && !have.contains(target.0) {
            let k = choose|k: int| 0 <= k < all.len() && all[k] == target;
            if k < n {
                assert(head[k] == target);
                let j = choose|j: int| 0 <= j < before.len() && before[j] == target;
                assert(now[j] == target);
            } else {
                assert(now[before.len() as int] == target);
            }
        }
    }
}

/// A target that no line closes has all the lines that follow.
pub proof fn law_open_target_is_read_to_the_end(open: Seq<char>, body: Seq<Seq<char>>)
    requires
        text::reads(open, "platform("@, 0),
        forall|i: int| 0 <= i < body.len() ==> #[trigger] body[i] != ")"@,
    ensures
        match body_name(body) {
            Some(name) => blocks(seq![open] + body) == seq![(name, written(seq![open] + body))],
            None => blocks(seq![open] + body).len() == 0,
        },
{
    let all = seq![open] + body;
    lemma_opens(open);
    lemma_body_up_to(body, Seq::empty());
    assert(all[0] == open);
    assert(all.drop_first() =~= body);
    lemma_blocks_step(all);
    let n = body.len() as int;
    assert(body.take(n) =~= body);
    assert(all.skip(n + 1) =~= Seq::<Seq<char>>::empty());
    assert(blocks(Seq::<Seq<char>>::empty()) =~= Seq::<(Seq<char>, Seq<char>)>::empty());
    lemma_written_concat(seq![open], body);
    assert(seq![open].drop_last() =~= Seq::<Seq<char>>::empty());
    assert(written(Seq::<Seq<char>>::empty()) =~= Seq::<char>::empty());
    assert(written(seq![open]) =~= open + "\n"@);
    if let Some(name) = body_name(body) {
        assert(seq![(name, written(all))] + Seq::<(Seq<char>, Seq<char>)>::empty() =~= seq![
            (name, written(all)),
        ]);
    }
}

/// No file is put into a project as a template of Buck2's, and every other file keeps
/// its name.
pub proof fn law_templates_lose_their_suffix(name: Seq<char>)
    ensures
        name_installed("BUCK.template"@) == "BUCK"@,
        name != "BUCK.template"@ ==> name_installed(name) == name,
        name_installed(name) != "BUCK.template"@,
{
    reveal_strlit("BUCK.template");
    reveal_strlit("BUCK");
    assert("BUCK.template"@.len() != "BUCK"@.len());
}

} // verus!
