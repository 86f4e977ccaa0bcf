//! The features that some supported platform enables.
//!
//! What `cargo metadata` reports as the features of a package is the union over
//! every platform there is. `cargo tree` resolves the features for one target;
//! asked once for each supported target, its answers make up the features that
//! a supported platform enables. A package that no supported platform reaches
//! is generated all the same, with every feature, and so whatever it depends on
//! has to keep every feature too.

use vstd::prelude::*;

use crate::error::{Notice, NoticeModel};
use crate::error;
use crate::sorted::{StringMap, StringSet};
use crate::sorted;
use crate::text::{
    chars_of, find, lines, rfind, same_text, split, strip_suffix, text_between, trim_end,
};
use crate::text;

verus! {

/// The features of one package.
#[derive(Debug)]
pub struct FeatureEntry {
    pub name: String,
    pub version: String,
    pub features: StringSet,
}

/// Sets of features, by the name and the version of a package. That there are
/// none means that nothing is known, and not that no feature is enabled.
#[derive(Debug)]
pub struct PlatformFeatures {
    entries: Vec<FeatureEntry>,
}

/// A package's name and version.
pub type PackageKey = (Seq<char>, Seq<char>);

/// The names and versions of the entries.
pub open spec fn entry_keys(entries: Seq<FeatureEntry>) -> Seq<PackageKey> {
    entries.map_values(|e: FeatureEntry| (e.name@, e.version@))
}

/// The position of an entry with this name and version.
pub open spec fn entry_at(entries: Seq<FeatureEntry>, key: PackageKey) -> int {
    choose|i: int| 0 <= i < entries.len() && entry_keys(entries)[i] == key
}

/// The sets that the entries hold.
pub open spec fn entry_sets(entries: Seq<FeatureEntry>) -> Map<PackageKey, Set<Seq<char>>> {
    Map::new(
        |k: PackageKey| entry_keys(entries).contains(k),
        |k: PackageKey| entries[entry_at(entries, k)].features@,
    )
}

impl View for PlatformFeatures {
    type V = Map<PackageKey, Set<Seq<char>>>;

    closed spec fn view(&self) -> Map<PackageKey, Set<Seq<char>>> {
        entry_sets(self.entries@)
    }
}

/// `sets`, with `more` added to the features of `key`.
pub open spec fn features_with(
    sets: Map<PackageKey, Set<Seq<char>>>,
    key: PackageKey,
    more: Set<Seq<char>>,
) -> Map<PackageKey, Set<Seq<char>>> {
    sets.insert(
        key,
        if sets.contains_key(key) {
            sets[key].union(more)
        } else {
            more
        },
    )
}

proof fn lemma_entry_at(entries: Seq<FeatureEntry>, i: int)
    requires
        entry_keys(entries).no_duplicates(),
        0 <= i < entries.len(),
    ensures
        entry_sets(entries).contains_key(entry_keys(entries)[i]),
        entry_sets(entries)[entry_keys(entries)[i]] == entries[i].features@,
{
    let keys = entry_keys(entries);
    assert(keys.contains(keys[i]));
    let c = entry_at(entries, keys[i]);
    assert(0 <= c < entries.len() && keys[c] == keys[i]);
}

impl PlatformFeatures {
    #[verifier::type_invariant]
    spec fn inv(self) -> bool {
        entry_keys(self.entries@).no_duplicates()
    }

    /// No sets.
    pub fn new() -> (r: PlatformFeatures)
        ensures
            r@ == Map::<PackageKey, Set<Seq<char>>>::empty(),
    {
        let entries: Vec<FeatureEntry> = Vec::new();
        proof {
            assert(entry_sets(entries@) =~= Map::empty());
        }
        PlatformFeatures { entries }
    }

    /// The number of packages.
    pub fn len(&self) -> (r: usize)
        ensures
            r == self@.dom().len(),
    {
        proof {
            use_type_invariant(self);
            let keys = entry_keys(self.entries@);
            keys.unique_seq_to_set();
            assert(self@.dom() =~= keys.to_set());
        }
        self.entries.len()
    }

    /// The position of the entry with this name and version, or the number of
    /// entries.
    fn position(entries: &Vec<FeatureEntry>, name: &str, version: &str) -> (r: usize)
        ensures
            r <= entries@.len(),
            r < entries@.len() ==> entry_keys(entries@)[r as int] == (name@, version@),
            entry_keys(entries@).contains((name@, version@)) ==> r < entries@.len(),
    {
        let mut i: usize = 0;
        while i < entries.len()
            invariant
                i <= entries@.len(),
                forall|j: int|
                    0 <= j < i ==> #[trigger] entry_keys(entries@)[j] != (name@, version@),
            decreases entries@.len() - i,
        {
            if same_text(entries[i].name.as_str(), name) && same_text(
                entries[i].version.as_str(),
                version,
            ) {
                return i;
            }
            i = i + 1;
        }
        i
    }

    /// The features of a package.
    pub fn get(&self, name: &str, version: &str) -> (r: Option<&StringSet>)
        ensures
            r is Some <==> self@.contains_key((name@, version@)),
            r matches Some(s) ==> s@ == self@[(name@, version@)],
    {
        proof {
            use_type_invariant(self);
        }
        let i = Self::position(&self.entries, name, version);
        if i < self.entries.len() {
            proof {
                lemma_entry_at(self.entries@, i as int);
            }
            Some(&self.entries[i].features)
        } else {
            None
        }
    }

    /// Adds `more` to the features of a package.
    pub fn extend(&mut self, name: String, version: String, more: StringSet)
        ensures
            final(self)@ == features_with(old(self)@, (name@, version@), more@),
    {
        proof {
            use_type_invariant(&*self);
        }
        let mut entries: Vec<FeatureEntry> = Vec::new();
        std::mem::swap(&mut entries, &mut self.entries);
        let ghost before = entries@;
        let ghost key = (name@, version@);
        let i = Self::position(&entries, name.as_str(), version.as_str());
        let mut features = if i < entries.len() {
            proof {
                lemma_entry_at(before, i as int);
            }
            entries.remove(i).features
        } else {
            StringSet::new()
        };
        let ghost was = features@;
        let ghost mid = entries@;
        features.union(&more);
        entries.push(FeatureEntry { name, version, features });
        proof {
            let new = entries@;
            let keys = entry_keys(before);
            let nkeys = entry_keys(new);
            if i < before.len() {
                assert(entry_keys(mid) =~= keys.remove(i as int));
                assert(nkeys =~= keys.remove(i as int).push(key));
                assert forall|p: int, q: int| 0 <= p < q < nkeys.len() implies nkeys[p]
                    != nkeys[q] by {
                    let pp = if p < i { p } else { p + 1 };
                    if q < mid.len() {
                        let qq = if q < i { q } else { q + 1 };
                        assert(keys[pp] != keys[qq]);
                    } else {
                        assert(keys[pp] != keys[i as int]);
                    }
                }
            } else {
                assert(nkeys =~= keys.push(key));
                assert forall|p: int, q: int| 0 <= p < q < nkeys.len() implies nkeys[p]
                    != nkeys[q] by {
                    if q == before.len() {
                        assert(keys.contains(keys[p]));
                    }
                }
            }
            assert(nkeys.no_duplicates());
            let expected = features_with(entry_sets(before), key, more@);
            lemma_entry_at(new, mid.len() as int);
            assert(entry_sets(new)[key] =~= was.union(more@));
            if !entry_sets(before).contains_key(key) {
                assert(was.union(more@) =~= more@);
            }
            assert forall|k: PackageKey| #[trigger]
                entry_sets(new).dom().contains(k) == expected.dom().contains(k) by {
                if nkeys.contains(k) {
                    let j = choose|j: int| 0 <= j < nkeys.len() && nkeys[j] == k;
                    if j < mid.len() {
                        let o = if i < before.len() && j >= i { j + 1 } else { j };
                        assert(keys[o] == k);
                    }
                }
                if keys.contains(k) && k != key {
                    let j = choose|j: int| 0 <= j < keys.len() && keys[j] == k;
                    let o = if i < before.len() && j > i { j - 1 } else { j };
                    assert(nkeys[o] == k);
                }
                assert(nkeys[mid.len() as int] == key);
            }
            assert forall|k: PackageKey| #[trigger]
                entry_sets(new).dom().contains(k) implies entry_sets(new)[k] == expected[k] by {
                let j = choose|j: int| 0 <= j < nkeys.len() && nkeys[j] == k;
                lemma_entry_at(new, j);
                if j < mid.len() {
                    let o = if i < before.len() && j >= i { j + 1 } else { j };
                    assert(new[j] == before[o]);
                    lemma_entry_at(before, o);
                    assert(nkeys[j] != nkeys[mid.len() as int]);
                }
            }
            assert(entry_sets(new) =~= expected);
        }
        self.entries = entries;
    }
}

/// The line without white space at its end, and without the mark that
/// `cargo tree` puts on a package it has printed before.
pub open spec fn unmarked(raw: Seq<char>) -> Seq<char> {
    let line = text::trim_end_of(raw);
    let mark = " (*)"@;
    if mark.len() <= line.len() && line.skip(line.len() - mark.len()) == mark {
        line.take(line.len() - mark.len())
    } else {
        line
    }
}

/// The text before the last `sep` and the text behind it.
pub open spec fn cut_last(s: Seq<char>, sep: Seq<char>) -> Option<(Seq<char>, Seq<char>)> {
    match text::last_at(s, sep) {
        Some(i) => Some((s.take(i), s.skip(i + sep.len()))),
        None => None,
    }
}

/// The text up to the first `sep`, or all of it.
pub open spec fn cut_first(s: Seq<char>, sep: Seq<char>) -> Seq<char> {
    match text::first_at(s, sep) {
        Some(i) => s.take(i),
        None => s,
    }
}

/// The texts of `parts` but for the empty ones.
pub open spec fn nonempty(parts: Seq<Seq<char>>) -> Set<Seq<char>> {
    parts.to_set().filter(|p: Seq<char>| p.len() > 0)
}

/// What a line of `cargo tree` says: a package, and the features that it has
/// there. The line reads `name vVERSION|features`, with an optional source in
/// brackets behind the version; the features stand between commas.
pub open spec fn line_features(raw: Seq<char>) -> Option<(PackageKey, Set<Seq<char>>)> {
    match cut_last(unmarked(raw), "|"@) {
        None => None,
        Some((package, features)) => match cut_last(cut_first(package, " ("@), " v"@) {
            Some((name, version)) if name.len() > 0 && version.len() > 0 => Some(
                ((name, version), nonempty(text::split_on(features, ','))),
            ),
            _ => None,
        },
    }
}

/// `sets`, with what the lines say added.
pub open spec fn lines_added(
    sets: Map<PackageKey, Set<Seq<char>>>,
    lines: Seq<Seq<char>>,
) -> Map<PackageKey, Set<Seq<char>>>
    decreases lines.len(),
{
    if lines.len() == 0 {
        sets
    } else {
        let before = lines_added(sets, lines.drop_last());
        match line_features(lines.last()) {
            Some((key, features)) => features_with(before, key, features),
            None => before,
        }
    }
}

/// The text before the last `sep` and the text behind it.
fn rsplit_once(s: &str, sep: &str) -> (r: Option<(String, String)>)
    ensures
        cut_last(s@, sep@) == match r {
            Some((a, b)) => Some((a@, b@)),
            None => None,
        },
{
    let chars = chars_of(s);
    let pattern = chars_of(sep);
    match rfind(&chars, &pattern) {
        Some(i) => {
            let end = chars.len();
            assert(i + pattern@.len() <= end);
            let before = text_between(&chars, 0, i);
            let after = text_between(&chars, i + pattern.len(), end);
            proof {
                assert(chars@.subrange(0, i as int) =~= chars@.take(i as int));
                assert(chars@.subrange(i + pattern@.len(), chars@.len() as int) =~= chars@.skip(
                    i + pattern@.len(),
                ));
            }
            Some((before, after))
        },
        None => None,
    }
}

/// The text up to the first `sep`, or all of it.
fn up_to(s: &str, sep: &str) -> (r: String)
    ensures
        r@ == cut_first(s@, sep@),
{
    let chars = chars_of(s);
    let pattern = chars_of(sep);
    match find(&chars, &pattern) {
        Some(i) => {
            proof {
                assert(chars@.subrange(0, i as int) =~= chars@.take(i as int));
            }
            text_between(&chars, 0, i)
        },
        None => s.to_owned(),
    }
}

/// The features that stand between commas in `s`.
fn feature_set(s: &str) -> (r: StringSet)
    ensures
        r@ == nonempty(text::split_on(s@, ',')),
{
    let parts = split(s, ',');
    let ghost all = text::views(parts@);
    let mut out = StringSet::new();
    let mut i: usize = 0;
    proof {
        assert(out@ =~= nonempty(all.take(0)));
    }
    while i < parts.len()
        invariant
            i <= parts@.len(),
            all == text::views(parts@),
            out@ == nonempty(all.take(i as int)),
        decreases parts@.len() - i,
    {
        let ghost before = out@;
        if !parts[i].as_str().is_empty() {
            out.insert(parts[i].clone());
        }
        proof {
            sorted::lemma_take_to_set(all, i as int);
            let p = all[i as int];
            assert(nonempty(all.take(i + 1)) =~= if p.len() > 0 {
                before.insert(p)
            } else {
                before
            });
        }
        i = i + 1;
    }
    proof {
        assert(all.take(i as int) =~= all);
    }
    out
}

/// Adds what one line of `cargo tree` says.
fn parse_line(raw: &str, into: &mut PlatformFeatures)
    ensures
        final(into)@ == match line_features(raw@) {
            Some((key, features)) => features_with(old(into)@, key, features),
            None => old(into)@,
        },
{
    let trimmed = trim_end(raw);
    let line = match strip_suffix(trimmed.as_str(), " (*)") {
        Some(line) => line,
        None => trimmed,
    };
    proof {
        assert(line@ =~= unmarked(raw@));
    }
    let (package, features) = match rsplit_once(line.as_str(), "|") {
        Some(parts) => parts,
        None => {
            return;
        },
    };
    let named = up_to(package.as_str(), " (");
    if let Some((name, version)) = rsplit_once(named.as_str(), " v") {
        if !name.as_str().is_empty() && !version.as_str().is_empty() {
            let set = feature_set(features.as_str());
            into.extend(name, version, set);
        }
    }
}

/// Adds what `cargo tree --prefix none --format "{p}|{f}"` printed. A package
/// can be printed more than once with different features, and then has all of
/// them.
pub fn parse_tree(stdout: &str, into: &mut PlatformFeatures)
    ensures
        final(into)@ == lines_added(old(into)@, text::lines_of(stdout@)),
{
    let list = lines(stdout);
    let ghost all = text::views(list@);
    let mut i: usize = 0;
    while i < list.len()
        invariant
            i <= list@.len(),
            all == text::views(list@),
            into@ == lines_added(old(into)@, all.take(i as int)),
        decreases list@.len() - i,
    {
        parse_line(list[i].as_str(), into);
        proof {
            assert(all.take(i + 1).drop_last() =~= all.take(i as int));
            assert(all[i as int] == list@[i as int]@);
        }
        i = i + 1;
    }
    proof {
        assert(all.take(i as int) =~= all);
    }
}

/// The arguments with which `cargo tree` is asked for the features of a target.
/// Development and build edges count: test rules and build-script rules are
/// generated too.
pub open spec fn tree_arguments(
    triple: Seq<char>,
    manifest_path: Option<Seq<char>>,
) -> Seq<Seq<char>> {
    let base = seq![
        "tree"@,
        "--target"@,
        triple,
        "--edges"@,
        "all"@,
        "--prefix"@,
        "none"@,
        "--format"@,
        "{p}|{f}"@,
        "--workspace"@,
    ];
    match manifest_path {
        Some(path) => base + seq!["--manifest-path"@, path],
        None => base,
    }
}

/// The arguments with which `cargo tree` is asked for the features of a target.
pub fn cargo_tree_args(triple: &str, manifest_path: Option<&str>) -> (r: Vec<String>)
    ensures
        text::views(r@) == tree_arguments(triple@, text::view_opt_str(manifest_path)),
{
    let mut args: Vec<String> = Vec::new();
    args.push("tree".to_owned());
    args.push("--target".to_owned());
    args.push(triple.to_owned());
    args.push("--edges".to_owned());
    args.push("all".to_owned());
    args.push("--prefix".to_owned());
    args.push("none".to_owned());
    args.push("--format".to_owned());
    args.push("{p}|{f}".to_owned());
    args.push("--workspace".to_owned());
    if let Some(path) = manifest_path {
        args.push("--manifest-path".to_owned());
        args.push(path.to_owned());
    }
    proof {
        assert(text::views(args@) =~= tree_arguments(triple@, text::view_opt_str(manifest_path)));
    }
    args
}

/// What `cargo tree` printed for a target, if it succeeded.
#[derive(Debug)]
pub struct TreeOutput {
    pub triple: String,
    pub stdout: Option<String>,
}

/// The position of the first target without an answer, or the number of targets.
pub open spec fn first_missing(outputs: Seq<TreeOutput>) -> int
    decreases outputs.len(),
{
    if outputs.len() == 0 || outputs[0].stdout is None {
        0
    } else {
        1 + first_missing(outputs.drop_first())
    }
}

/// What the answers for the targets say together.
pub open spec fn outputs_added(outputs: Seq<TreeOutput>) -> Map<PackageKey, Set<Seq<char>>>
    decreases outputs.len(),
{
    if outputs.len() == 0 {
        Map::empty()
    } else {
        let before = outputs_added(outputs.drop_last());
        match outputs.last().stdout {
            Some(stdout) => lines_added(before, text::lines_of(stdout@)),
            None => before,
        }
    }
}

/// The warning for a target without an answer.
pub open spec fn missing_warning(triple: Seq<char>) -> Seq<char> {
    "feature narrowing disabled: no resolve for "@ + triple
        + "; falling back to cargo's all-platform feature union"@
}

/// The features that are known from the answers for the targets: those that they say
/// together, unless an answer is missing or they are not wanted.
pub open spec fn known_features(
    disabled: bool,
    outputs: Seq<TreeOutput>,
) -> Map<PackageKey, Set<Seq<char>>> {
    if disabled || first_missing(outputs) < outputs.len() {
        Map::empty()
    } else {
        outputs_added(outputs)
    }
}

/// The features that some supported target enables. Where the answer for one of
/// the targets is missing, or where they are not wanted, nothing is known: what
/// the other targets enable might leave out what that one needs.
pub fn platform_features(
    disabled: bool,
    outputs: &Vec<TreeOutput>,
    notices: &mut Vec<Notice>,
) -> (r: PlatformFeatures)
    ensures
        r@ == known_features(disabled, outputs@),
        ({
            let missing = first_missing(outputs@);
            &&& r@ == if disabled || missing < outputs@.len() {
                Map::empty()
            } else {
                outputs_added(outputs@)
            }
            &&& error::notice_models(final(notices)@) == if !disabled && missing < outputs@.len() {
                error::notice_models(old(notices)@).push(
                    NoticeModel::Warning(missing_warning(outputs@[missing].triple@)),
                )
            } else {
                error::notice_models(old(notices)@)
            }
        }),
{
    let mut features = PlatformFeatures::new();
    if disabled {
        return features;
    }
    let mut i: usize = 0;
    proof {
        assert(outputs@.skip(0) =~= outputs@);
    }
    while i < outputs.len()
        invariant
            i <= outputs@.len(),
            features@ == outputs_added(outputs@.take(i as int)),
            first_missing(outputs@) == i + first_missing(outputs@.skip(i as int)),
            notices@ == old(notices)@,
            !disabled,
        decreases outputs@.len() - i,
    {
        proof {
            assert(outputs@.skip(i as int)[0] == outputs@[i as int]);
            assert(outputs@.skip(i as int).drop_first() =~= outputs@.skip(i + 1));
            assert(outputs@.take(i + 1).drop_last() =~= outputs@.take(i as int));
        }
        match &outputs[i].stdout {
            Some(stdout) => {
                parse_tree(stdout.as_str(), &mut features);
            },
            None => {
                let mut message = "feature narrowing disabled: no resolve for ".to_owned();
                message.append(outputs[i].triple.as_str());
                message.append("; falling back to cargo's all-platform feature union");
                let notice = Notice::Warning(message);
                let ghost n = notice@;
                notices.push(notice);
                proof {
                    assert(error::notice_models(notices@) =~= error::notice_models(
                        old(notices)@,
                    ).push(n));
                }
                return PlatformFeatures::new();
            },
        }
        i = i + 1;
    }
    proof {
        assert(outputs@.take(i as int) =~= outputs@);
        assert(outputs@.skip(i as int).len() == 0);
    }
    features
}

/// Whether everything that `a` holds is in `b` too.
pub open spec fn held_by(
    a: Map<PackageKey, Set<Seq<char>>>,
    b: Map<PackageKey, Set<Seq<char>>>,
) -> bool {
    forall|k: PackageKey| #[trigger]
        a.contains_key(k) ==> b.contains_key(k) && a[k].subset_of(b[k])
}

proof fn lemma_lines_grow(
    a: Map<PackageKey, Set<Seq<char>>>,
    b: Map<PackageKey, Set<Seq<char>>>,
    lines: Seq<Seq<char>>,
)
    requires
        held_by(a, b),
    ensures
        held_by(lines_added(a, lines), lines_added(b, lines)),
        held_by(b, lines_added(b, lines)),
    decreases lines.len(),
{
    if lines.len() > 0 {
        lemma_lines_grow(a, b, lines.drop_last());
        let x = lines_added(a, lines.drop_last());
        let y = lines_added(b, lines.drop_last());
        if let Some((key, features)) = line_features(lines.last()) {
            let fx = features_with(x, key, features);
            let fy = features_with(y, key, features);
            assert forall|k: PackageKey| #[trigger] fx.contains_key(k) implies fy.contains_key(k)
                && fx[k].subset_of(fy[k]) by {
                if x.contains_key(k) {
                    assert(y.contains_key(k));
                }
            }
            assert forall|k: PackageKey| #[trigger] b.contains_key(k) implies fy.contains_key(k)
                && b[k].subset_of(fy[k]) by {
                assert(y.contains_key(k));
            }
        }
    }
}

/// What the answers say together holds everything that the answer for any one of
/// the targets says: no target loses a feature to another.
pub proof fn law_no_target_loses_a_feature(outputs: Seq<TreeOutput>, i: int)
    requires
        0 <= i < outputs.len(),
        outputs[i].stdout is Some,
    ensures
        held_by(
            lines_added(Map::empty(), text::lines_of(outputs[i].stdout->0@)),
            outputs_added(outputs),
        ),
    decreases outputs.len(),
{
    let before = outputs_added(outputs.drop_last());
    let own = lines_added(Map::empty(), text::lines_of(outputs[i].stdout->0@));
    if i == outputs.len() - 1 {
        lemma_lines_grow(Map::empty(), before, text::lines_of(outputs[i].stdout->0@));
    } else {
        law_no_target_loses_a_feature(outputs.drop_last(), i);
        if let Some(stdout) = outputs.last().stdout {
            lemma_lines_grow(before, before, text::lines_of(stdout@));
            let all = outputs_added(outputs);
            assert forall|k: PackageKey| #[trigger] own.contains_key(k) implies all.contains_key(k)
                && own[k].subset_of(all[k]) by {
                assert(before.contains_key(k));
            }
        }
    }
}

/// A package of the resolved graph: its name and version, if they are known, and
/// the packages that it depends on.
#[derive(Debug)]
pub struct GraphNode {
    pub name_version: Option<(String, String)>,
    pub deps: Vec<String>,
}

/// Whether no supported platform resolves this package.
pub open spec fn unresolved(node: GraphNode, features: Map<PackageKey, Set<Seq<char>>>) -> bool {
    match node.name_version {
        Some((name, version)) => !features.contains_key((name@, version@)),
        None => true,
    }
}

/// Whether the package `a` depends on the package `b`.
pub open spec fn depends_on(
    nodes: Map<Seq<char>, GraphNode>,
    a: Seq<char>,
    b: Seq<char>,
) -> bool {
    nodes.contains_key(a) && text::views(nodes[a].deps@).contains(b)
}

/// Whether `path` leads from one package to another along dependencies.
pub open spec fn is_path(nodes: Map<Seq<char>, GraphNode>, path: Seq<Seq<char>>) -> bool {
    &&& path.len() >= 2
    &&& forall|i: int|
        0 <= i < path.len() - 1 ==> depends_on(nodes, #[trigger] path[i], path[i + 1])
}

/// Whether a package that no supported platform resolves leads to `id` along
/// dependencies.
pub open spec fn reached(
    nodes: Map<Seq<char>, GraphNode>,
    features: Map<PackageKey, Set<Seq<char>>>,
    id: Seq<char>,
) -> bool {
    exists|path: Seq<Seq<char>>| #[trigger]
        is_path(nodes, path) && unresolved(nodes[path[0]], features) && path.last() == id
}

proof fn lemma_reached_further(
    nodes: Map<Seq<char>, GraphNode>,
    features: Map<PackageKey, Set<Seq<char>>>,
    a: Seq<char>,
    b: Seq<char>,
)
    requires
        depends_on(nodes, a, b),
        unresolved(nodes[a], features) || reached(nodes, features, a),
    ensures
        reached(nodes, features, b),
{
    if unresolved(nodes[a], features) {
        let path = seq![a, b];
        assert(is_path(nodes, path));
    } else {
        let path = choose|path: Seq<Seq<char>>| #[trigger]
            is_path(nodes, path) && unresolved(nodes[path[0]], features) && path.last() == a;
        let longer = path.push(b);
        assert forall|i: int| 0 <= i < longer.len() - 1 implies depends_on(
            nodes,
            #[trigger] longer[i],
            longer[i + 1],
        ) by {
            if i < path.len() - 1 {
                assert(longer[i] == path[i]);
            }
        }
        assert(is_path(nodes, longer));
    }
}

/// Where the dependencies of every package that has to be followed are pinned,
/// everything that is reached is pinned.
proof fn lemma_closed(
    nodes: Map<Seq<char>, GraphNode>,
    features: Map<PackageKey, Set<Seq<char>>>,
    pinned: Set<Seq<char>>,
    path: Seq<Seq<char>>,
)
    requires
        is_path(nodes, path),
        unresolved(nodes[path[0]], features),
        forall|a: Seq<char>, b: Seq<char>| #[trigger]
            depends_on(nodes, a, b) && (unresolved(nodes[a], features) || pinned.contains(a))
                ==> pinned.contains(b),
    ensures
        pinned.contains(path.last()),
    decreases path.len(),
{
    let n = path.len() as int;
    assert(depends_on(nodes, path[n - 2], path[n - 1]));
    if n > 2 {
        let shorter = path.drop_last();
        assert forall|i: int| 0 <= i < shorter.len() - 1 implies depends_on(
            nodes,
            #[trigger] shorter[i],
            shorter[i + 1],
        ) by {
            assert(shorter[i] == path[i]);
        }
        lemma_closed(nodes, features, pinned, shorter);
    }
}

/// Whether no supported platform resolves this package.
fn is_unresolved(node: &GraphNode, features: &PlatformFeatures) -> (r: bool)
    ensures
        r == unresolved(*node, features@),
{
    match &node.name_version {
        Some((name, version)) => features.get(name.as_str(), version.as_str()).is_none(),
        None => true,
    }
}

/// Pins `deps`, and puts those that were not pinned before into the queue.
fn pin_all(deps: &Vec<String>, pinned: &mut StringSet, queue: &mut Vec<String>)
    ensures
        final(pinned)@ == old(pinned)@.union(text::views(deps@).to_set()),
        final(queue)@.len() >= old(queue)@.len(),
        text::views(final(queue)@).take(old(queue)@.len() as int) == text::views(old(queue)@),
        forall|i: int|
            old(queue)@.len() <= i < final(queue)@.len() ==> {
                &&& text::views(deps@).contains(#[trigger] final(queue)@[i]@)
                &&& final(pinned)@.contains(final(queue)@[i]@)
            },
        forall|d: Seq<char>|
            text::views(deps@).contains(d) && !old(pinned)@.contains(d) ==> text::views(
                final(queue)@,
            ).contains(d),
        final(queue)@.len() > old(queue)@.len() ==> exists|d: Seq<char>|
            text::views(deps@).contains(d) && !old(pinned)@.contains(d),
{
    let ghost all = text::views(deps@);
    let ghost start = queue@.len();
    let mut i: usize = 0;
    proof {
        assert(pinned@ =~= old(pinned)@.union(all.take(0).to_set()));
        assert(text::views(queue@).take(start as int) =~= text::views(old(queue)@));
    }
    while i < deps.len()
        invariant
            i <= deps@.len(),
            all == text::views(deps@),
            start == old(queue)@.len(),
            start <= queue@.len(),
            pinned@ == old(pinned)@.union(all.take(i as int).to_set()),
            text::views(queue@).take(start as int) == text::views(old(queue)@),
            forall|k: int|
                start <= k < queue@.len() ==> {
                    &&& all.contains(#[trigger] queue@[k]@)
                    &&& pinned@.contains(queue@[k]@)
                },
            forall|d: Seq<char>|
                all.take(i as int).contains(d) && !old(pinned)@.contains(d) ==> text::views(
                    queue@,
                ).contains(d),
            queue@.len() > start ==> exists|d: Seq<char>|
                all.contains(d) && !old(pinned)@.contains(d),
        decreases deps@.len() - i,
    {
        let dep = deps[i].as_str();
        let ghost before = queue@;
        let ghost had = pinned@;
        let new = pinned.insert(dep.to_owned());
        if new {
            queue.push(dep.to_owned());
        }
        proof {
            sorted::lemma_take_to_set(all, i as int);
            assert(all[i as int] == dep@);
            assert(pinned@ =~= old(pinned)@.union(all.take(i + 1).to_set()));
            assert(text::views(queue@).take(start as int) =~= text::views(before).take(
                start as int,
            ));
            if new {
                assert(all.contains(dep@) && !old(pinned)@.contains(dep@));
            }
            assert forall|d: Seq<char>|
                all.take(i + 1).contains(d) && !old(pinned)@.contains(d) implies text::views(
                queue@,
            ).contains(d) by {
                let a = all.take(i + 1);
                let b = all.take(i as int);
                let j = choose|j: int| 0 <= j < a.len() && a[j] == d;
                if j < i {
                    assert(b[j] == d);
                    assert(text::views(before).contains(d));
                    let k = choose|k: int|
                        0 <= k < text::views(before).len() && text::views(before)[k] == d;
                    assert(text::views(queue@)[k] == d);
                } else if new {
                    assert(text::views(queue@)[before.len() as int] == d);
                } else {
                    assert(had.contains(d));
                    assert(b.to_set().contains(d));
                    assert(b.contains(d));
                    let k = choose|k: int|
                        0 <= k < text::views(before).len() && text::views(before)[k] == d;
                    assert(text::views(queue@)[k] == d);
                }
            }
        }
        i = i + 1;
    }
    proof {
        assert(all.take(i as int) =~= all);
    }
}

/// Whether `a` has to be followed: its dependencies keep every feature.
pub open spec fn followed(
    nodes: Map<Seq<char>, GraphNode>,
    features: Map<PackageKey, Set<Seq<char>>>,
    pinned: Set<Seq<char>>,
    a: Seq<char>,
) -> bool {
    (nodes.contains_key(a) && unresolved(nodes[a], features)) || pinned.contains(a)
}

/// The packages that keep every feature: those to which a package that no
/// supported platform resolves leads along dependencies.
pub fn pinned_to_union(
    nodes: &StringMap<GraphNode>,
    platform_features: &PlatformFeatures,
) -> (r: StringSet)
    ensures
        forall|id: Seq<char>| #[trigger]
            r@.contains(id) <==> reached(nodes@, platform_features@, id),
{
    let mut queue: Vec<String> = Vec::new();
    let n = nodes.len();
    let ghost keys = nodes.keys();
    let ghost m = nodes@;
    let ghost f = platform_features@;
    let ghost mut all: Seq<Seq<char>> = Seq::empty();
    let mut i: usize = 0;
    while i < n
        invariant
            i <= n,
            n == keys.len(),
            keys == nodes.keys(),
            m == nodes@,
            f == platform_features@,
            forall|j: int, d: Seq<char>|
                0 <= j < i && depends_on(m, keys[j], d) ==> #[trigger] all.contains(d)
                    || !depends_on(m, #[trigger] keys[j], d),
            forall|k: int|
                0 <= k < queue@.len() ==> m.contains_key(#[trigger] queue@[k]@) && unresolved(
                    m[queue@[k]@],
                    f,
                ),
            forall|j: int|
                0 <= j < i && unresolved(m[#[trigger] keys[j]], f) ==> text::views(
                    queue@,
                ).contains(keys[j]),
        decreases n - i,
    {
        let key = nodes.key_at(i);
        let node = nodes.value_at(i);
        let ghost before = queue@;
        let ghost was = all;
        if is_unresolved(node, platform_features) {
            queue.push(key.clone());
        }
        proof {
            all = all + text::views(node.deps@);
            assert forall|j: int| 0 <= j < i + 1 && unresolved(m[#[trigger] keys[j]], f) implies
                text::views(queue@).contains(keys[j]) by {
                if j < i {
                    let k = choose|k: int|
                        0 <= k < text::views(before).len() && text::views(before)[k] == keys[j];
                    assert(text::views(queue@)[k] == keys[j]);
                } else {
                    assert(text::views(queue@)[before.len() as int] == keys[j]);
                }
            }
            assert forall|j: int, d: Seq<char>|
                0 <= j < i + 1 && depends_on(m, keys[j], d) implies #[trigger] all.contains(d)
                || !depends_on(m, #[trigger] keys[j], d) by {
                if j < i {
                    assert(was.contains(d));
                    let k = choose|k: int| 0 <= k < was.len() && was[k] == d;
                    assert(all[k] == d);
                } else {
                    let deps = text::views(node.deps@);
                    let k = choose|k: int| 0 <= k < deps.len() && deps[k] == d;
                    assert(all[was.len() + k] == d);
                }
            }
        }
        i = i + 1;
    }
    let ghost universe = all.to_set();
    let mut pinned = StringSet::new();
    proof {
        assert forall|a: Seq<char>| m.contains_key(a) implies keys.contains(a) by {
            assert(keys.to_set().contains(a) == keys.contains(a));
        }
        assert forall|a: Seq<char>, d: Seq<char>| #[trigger]
            depends_on(m, a, d) implies universe.contains(d) by {
            let j = choose|j: int| 0 <= j < keys.len() && keys[j] == a;
            assert(depends_on(m, keys[j], d));
            assert(all.contains(d));
        }
        assert forall|a: Seq<char>, b: Seq<char>| #[trigger]
            depends_on(m, a, b) && followed(m, f, pinned@, a) && !text::views(queue@).contains(
                a,
            ) implies pinned@.contains(b) by {
            let j = choose|j: int| 0 <= j < keys.len() && keys[j] == a;
            assert(unresolved(m[keys[j]], f));
        }
        assert(universe.finite()) by {
            vstd::seq_lib::seq_to_set_is_finite(all);
        }
    }
    while queue.len() > 0
        invariant
            m == nodes@,
            f == platform_features@,
            universe.finite(),
            pinned@.subset_of(universe),
            forall|a: Seq<char>, d: Seq<char>| #[trigger]
                depends_on(m, a, d) ==> universe.contains(d),
            forall|d: Seq<char>| #[trigger] pinned@.contains(d) ==> reached(m, f, d),
            forall|k: int|
                0 <= k < queue@.len() ==> followed(m, f, pinned@, #[trigger] queue@[k]@),
            forall|a: Seq<char>, b: Seq<char>| #[trigger]
                depends_on(m, a, b) && followed(m, f, pinned@, a) && !text::views(
                    queue@,
                ).contains(a) ==> pinned@.contains(b),
        decreases universe.len() - pinned@.len(), queue@.len(),
    {
        let ghost before = queue@;
        let ghost had = pinned@;
        let id = queue.pop().unwrap();
        let ghost popped = queue@;
        proof {
            assert(before.len() > 0 && before.last() == id && popped == before.drop_last());
            assert(followed(m, f, had, before[before.len() - 1]@));
            vstd::set_lib::lemma_len_subset(had, universe);
            assert forall|a: Seq<char>| text::views(before).contains(a) implies a == id@
                || text::views(popped).contains(a) by {
                let k = choose|k: int|
                    0 <= k < text::views(before).len() && text::views(before)[k] == a;
                if k < popped.len() {
                    assert(text::views(popped)[k] == a);
                }
            }
        }
        if let Some(node) = nodes.get(id.as_str()) {
            pin_all(&node.deps, &mut pinned, &mut queue);
            proof {
                let deps = text::views(node.deps@);
                assert forall|d: Seq<char>| deps.contains(d) implies depends_on(m, id@, d) by {}
                assert forall|d: Seq<char>| #[trigger]
                    pinned@.contains(d) implies universe.contains(d) && reached(m, f, d) by {
                    if !had.contains(d) {
                        assert(deps.to_set().contains(d));
                        assert(depends_on(m, id@, d));
                        lemma_reached_further(m, f, id@, d);
                    }
                }
                assert(pinned@.subset_of(universe));
                assert forall|k: int| 0 <= k < queue@.len() implies followed(
                    m,
                    f,
                    pinned@,
                    #[trigger] queue@[k]@,
                ) by {
                    if k < popped.len() {
                        assert(text::views(queue@).take(popped.len() as int)[k]
                            == text::views(popped)[k]);
                        assert(before[k] == popped[k]);
                        assert(followed(m, f, had, before[k]@));
                    }
                }
                assert forall|a: Seq<char>, b: Seq<char>| #[trigger]
                    depends_on(m, a, b) && followed(m, f, pinned@, a) && !text::views(
                        queue@,
                    ).contains(a) implies pinned@.contains(b) by {
                    if a == id@ {
                        assert(deps.contains(b));
                        assert(deps.to_set().contains(b));
                    } else {
                        if pinned@.contains(a) && !had.contains(a) {
                            assert(deps.to_set().contains(a));
                            assert(deps.contains(a));
                        }
                        assert(followed(m, f, had, a));
                        if text::views(before).contains(a) {
                            assert(text::views(popped).contains(a));
                            let k = choose|k: int|
                                0 <= k < text::views(popped).len() && text::views(popped)[k] == a;
                            assert(text::views(queue@).take(popped.len() as int)[k] == a);
                            assert(text::views(queue@)[k] == a);
                        }
                        assert(had.contains(b));
                    }
                }
                vstd::set_lib::lemma_len_subset(pinned@, universe);
                if exists|d: Seq<char>| deps.contains(d) && !had.contains(d) {
                    let d = choose|d: Seq<char>| deps.contains(d) && !had.contains(d);
                    assert(deps.to_set().contains(d));
                    assert(had.insert(d).subset_of(pinned@));
                    vstd::set_lib::lemma_len_subset(had.insert(d), pinned@);
                } else {
                    assert(pinned@ =~= had) by {
                        assert forall|d: Seq<char>| pinned@.contains(d) == had.contains(d) by {
                            if deps.to_set().contains(d) {
                                assert(deps.contains(d));
                            }
                        }
                    }
                }
            }
        }
    }
    proof {
        assert forall|id: Seq<char>| reached(m, f, id) implies pinned@.contains(id) by {
            let path = choose|path: Seq<Seq<char>>| #[trigger]
                is_path(m, path) && unresolved(m[path[0]], f) && path.last() == id;
            assert forall|a: Seq<char>, b: Seq<char>| #[trigger]
                depends_on(m, a, b) && (unresolved(m[a], f) || pinned@.contains(a)) implies
                pinned@.contains(b) by {
                assert(followed(m, f, pinned@, a));
                assert(!text::views(queue@).contains(a));
            }
            lemma_closed(m, f, pinned@, path);
        }
    }
    pinned
}

/// A line of `cargo tree` for a package: its name and version, what follows them,
/// the features, and what follows those.
pub open spec fn tree_line(
    name: Seq<char>,
    version: Seq<char>,
    source: Seq<char>,
    features: Seq<Seq<char>>,
    mark: Seq<char>,
) -> Seq<char> {
    name + " v"@ + version + source + seq!['|'] + text::joined(features, seq![',']) + mark
}

/// Whether `line` can be printed for a package of this name and version with these
/// features: a source may follow in brackets, and the mark of a package that was
/// printed before at the end, and then white space.
pub open spec fn printed_for(
    line: Seq<char>,
    name: Seq<char>,
    version: Seq<char>,
    source: Seq<char>,
    features: Seq<Seq<char>>,
    mark: Seq<char>,
    behind: Seq<char>,
) -> bool {
    let listed = text::joined(features, seq![',']);
    &&& line == tree_line(name, version, source, features, mark) + behind
    &&& name.len() > 0
    &&& version.len() > 0
    &&& forall|i: int| !#[trigger] text::reads(name, " ("@, i)
    &&& forall|i: int| !#[trigger] text::reads(version, " ("@, i)
    &&& forall|i: int| !#[trigger] text::reads(version, " v"@, i)
    &&& source.len() == 0 || text::reads(source, " ("@, 0)
    &&& features.len() > 0
    &&& forall|i: int|
        0 <= i < features.len() ==> !(#[trigger] features[i]).contains(',')
    &&& !listed.contains('|')
    &&& !listed.contains(' ')
    &&& listed.len() > 0 ==> !text::is_space(listed.last())
    &&& mark.len() == 0 || mark == seq![' ', '(', '*', ')']
    &&& text::blank(behind)
}

proof fn lemma_marks()
    ensures
        " (*)"@ == seq![' ', '(', '*', ')'],
        "|"@ == seq!['|'],
        " ("@ == seq![' ', '('],
        " v"@ == seq![' ', 'v'],
{
    reveal_strlit(" (*)");
    reveal_strlit("|");
    reveal_strlit(" (");
    reveal_strlit(" v");
    assert(" (*)"@ =~= seq![' ', '(', '*', ')']);
    assert("|"@ =~= seq!['|']);
    assert(" ("@ =~= seq![' ', '(']);
    assert(" v"@ =~= seq![' ', 'v']);
}

proof fn lemma_unmarked(line: Seq<char>, mark: Seq<char>, behind: Seq<char>, bar: int)
    requires
        line.len() > 0,
        !text::is_space(line.last()),
        0 <= bar < line.len(),
        line[bar] == '|',
        forall|i: int| bar < i < line.len() ==> line[i] != ' ',
        mark.len() == 0 || mark == seq![' ', '(', '*', ')'],
        text::blank(behind),
    ensures
        unmarked(line + mark + behind) == line,
{
    lemma_marks();
    let m = seq![' ', '(', '*', ')'];
    let whole = line + mark;
    text::lemma_trim_end_blank(whole, behind);
    assert(!text::is_space(')'));
    assert(whole.last() == if mark.len() == 0 {
        line.last()
    } else {
        ')'
    });
    assert(text::trim_end_of(whole) == whole);
    if mark.len() == 0 {
        assert(whole =~= line);
        if 4 <= line.len() && line.skip(line.len() - 4) == m {
            let n = line.len() as int;
            let t = line.skip(n - 4);
            assert(t[0] == line[n - 4] && t[1] == line[n - 3] && t[2] == line[n - 2] && t[3]
                == line[n - 1]);
            assert(m[0] == ' ' && m[1] == '(' && m[2] == '*' && m[3] == ')');
            assert(n - 4 <= bar);
            assert(false);
        }
    } else {
        assert(whole.skip(whole.len() - 4) =~= m);
        assert(whole.take(whole.len() - 4) =~= line);
    }
}

proof fn lemma_reads_bar(s: Seq<char>, i: int)
    ensures
        text::reads(s, "|"@, i) <==> 0 <= i < s.len() && s[i] == '|',
{
    lemma_marks();
    let bar = "|"@;
    assert(bar.len() == 1 && bar[0] == '|');
    if text::reads(s, bar, i) {
        assert(s[i + 0] == bar[0]);
    }
    if 0 <= i < s.len() && s[i] == '|' {
        assert forall|k: int| 0 <= k < bar.len() implies s[i + k] == #[trigger] bar[k] by {
            assert(k == 0);
        }
    }
}

proof fn lemma_cut_at_bar(left: Seq<char>, right: Seq<char>)
    requires
        !right.contains('|'),
    ensures
        cut_last(left + seq!['|'] + right, "|"@) == Some((left, right)),
{
    let s = left + seq!['|'] + right;
    let n = left.len() as int;
    assert("|"@.len() == 1) by {
        lemma_marks();
    }
    assert(text::last_at(s, "|"@) == Some(n)) by {
        text::law_last_place(s, "|"@);
        assert(s[n] == '|');
        lemma_reads_bar(s, n);
        assert(text::reads(s, "|"@, n));
        let j = text::last_at(s, "|"@)->0;
        lemma_reads_bar(s, j);
        if n < j {
            assert(right[j - n - 1] == '|');
            assert(right.contains('|'));
        }
    }
    assert(s.take(n) =~= left);
    assert(s.skip(n + 1) =~= right);
}

proof fn lemma_reads_two(s: Seq<char>, p: Seq<char>, i: int)
    requires
        p.len() == 2,
    ensures
        text::reads(s, p, i) <==> 0 <= i && i + 2 <= s.len() && s[i] == p[0] && s[i + 1] == p[1],
{
    if text::reads(s, p, i) {
        assert(s[i + 0] == p[0]);
        assert(s[i + 1] == p[1]);
    }
    if 0 <= i && i + 2 <= s.len() && s[i] == p[0] && s[i + 1] == p[1] {
        assert forall|k: int| 0 <= k < p.len() implies s[i + k] == #[trigger] p[k] by {
            assert(k == 0 || k == 1);
        }
    }
}

proof fn lemma_no_bracket_before(name: Seq<char>, version: Seq<char>, source: Seq<char>, i: int)
    requires
        forall|k: int| !#[trigger] text::reads(name, " ("@, k),
        forall|k: int| !#[trigger] text::reads(version, " ("@, k),
        source.len() == 0 || text::reads(source, " ("@, 0),
        0 <= i < name.len() + 2 + version.len(),
    ensures
        !text::reads(name + " v"@ + version + source, " ("@, i),
{
    let s = name + " v"@ + version + source;
    let k = name.len() as int;
    let n = k + 2 + version.len();
    assert(" ("@.len() == 2 && " ("@[0] == ' ' && " ("@[1] == '(' && " v"@.len() == 2 && " v"@[0]
        == ' ' && " v"@[1] == 'v') by {
        lemma_marks();
    }
    lemma_reads_two(s, " ("@, i);
    if text::reads(s, " ("@, i) {
        assert(s[k] == ' ' && s[k + 1] == 'v');
        if i + 1 < k {
            assert(name[i] == s[i] && name[i + 1] == s[i + 1]);
            lemma_reads_two(name, " ("@, i);
            assert(text::reads(name, " ("@, i));
        } else if i >= k + 2 && i + 1 < n {
            let v = i - k - 2;
            assert(version[v] == s[i] && version[v + 1] == s[i + 1]);
            lemma_reads_two(version, " ("@, v);
            assert(text::reads(version, " ("@, v));
        } else if i + 1 == n {
            assert(source.len() > 0);
            lemma_reads_two(source, " ("@, 0);
            assert(s[n] == source[0]);
        }
    }
}

proof fn lemma_package_text(name: Seq<char>, version: Seq<char>, source: Seq<char>)
    requires
        forall|i: int| !#[trigger] text::reads(name, " ("@, i),
        forall|i: int| !#[trigger] text::reads(version, " ("@, i),
        source.len() == 0 || text::reads(source, " ("@, 0),
    ensures
        cut_first(name + " v"@ + version + source, " ("@) == name + " v"@ + version,
{
    let head = name + " v"@ + version;
    let s = head + source;
    let n = head.len() as int;
    assert(" ("@.len() == 2 && " v"@.len() == 2) by {
        lemma_marks();
    }
    text::law_first_place(s, " ("@);
    if let Some(j) = text::first_at(s, " ("@) {
        if j < n {
            lemma_no_bracket_before(name, version, source, j);
        }
    }
    if source.len() == 0 {
        assert(s =~= head);
        if let Some(j) = text::first_at(s, " ("@) {
            assert(text::reads(s, " ("@, j));
            assert(false);
        }
    } else {
        lemma_reads_two(source, " ("@, 0);
        lemma_reads_two(s, " ("@, n);
        assert(s[n] == source[0] && s[n + 1] == source[1]);
        assert(text::reads(s, " ("@, n));
        assert(text::first_at(s, " ("@) == Some(n));
        assert(s.take(n) =~= head);
    }
}

proof fn lemma_no_version_behind(name: Seq<char>, version: Seq<char>, i: int)
    requires
        forall|k: int| !#[trigger] text::reads(version, " v"@, k),
        name.len() < i,
    ensures
        !text::reads(name + " v"@ + version, " v"@, i),
{
    let s = name + " v"@ + version;
    let n = name.len() as int;
    assert(" v"@.len() == 2 && " v"@[0] == ' ' && " v"@[1] == 'v') by {
        lemma_marks();
    }
    lemma_reads_two(s, " v"@, i);
    if 0 <= i && i + 2 <= s.len() && s[i] == ' ' && s[i + 1] == 'v' {
        assert(s[n + 1] == 'v');
        let v = i - n - 2;
        assert(version[v] == s[i] && version[v + 1] == s[i + 1]);
        lemma_reads_two(version, " v"@, v);
        assert(text::reads(version, " v"@, v));
    }
}

proof fn lemma_cut_at_version(name: Seq<char>, version: Seq<char>)
    requires
        forall|i: int| !#[trigger] text::reads(version, " v"@, i),
    ensures
        cut_last(name + " v"@ + version, " v"@) == Some((name, version)),
{
    let s = name + " v"@ + version;
    let n = name.len() as int;
    assert(" v"@.len() == 2 && " v"@[0] == ' ' && " v"@[1] == 'v') by {
        lemma_marks();
    }
    assert(text::reads(s, " v"@, n)) by {
        assert(s[n] == ' ' && s[n + 1] == 'v');
        lemma_reads_two(s, " v"@, n);
    }
    text::law_last_place(s, " v"@);
    let j = text::last_at(s, " v"@)->0;
    if n < j {
        lemma_no_version_behind(name, version, j);
    }
    assert(j == n);
    assert(s.take(n) =~= name);
    assert(s.skip(n + 2) =~= version);
}

/// A line says what it was printed for: the whole name and the whole version, up to
/// a source in brackets, and every feature but for empty ones. A mark at the end
/// makes no difference.
pub proof fn law_line_is_read(
    line: Seq<char>,
    name: Seq<char>,
    version: Seq<char>,
    source: Seq<char>,
    features: Seq<Seq<char>>,
    mark: Seq<char>,
    behind: Seq<char>,
)
    requires
        printed_for(line, name, version, source, features, mark, behind),
    ensures
        line_features(line) matches Some((key, set)) && key == (name, version) && forall|f: Seq<
            char,
        >| #[trigger]
            set.contains(f) <==> f.len() > 0 && exists|i: int|
                0 <= i < features.len() && #[trigger] features[i] == f,
{
    let listed = text::joined(features, seq![',']);
    let left = name + " v"@ + version + source;
    let core = left + seq!['|'] + listed;
    assert(core[left.len() as int] == '|');
    assert forall|i: int| left.len() < i < core.len() implies core[i] != ' ' by {
        assert(listed.contains(listed[i - left.len() - 1]));
        assert(core[i] == listed[i - left.len() - 1]);
    }
    if listed.len() > 0 {
        assert(core.last() == listed.last());
    } else {
        assert(core.last() == '|');
    }
    lemma_unmarked(core, mark, behind, left.len() as int);
    lemma_cut_at_bar(left, listed);
    lemma_package_text(name, version, source);
    lemma_cut_at_version(name, version);
    text::law_joined_pieces_are_found(features, ',');
    assert(text::split_on(listed, ',') == features);
    assert(line_features(line) == Some(((name, version), nonempty(features))));
    assert forall|f: Seq<char>| #[trigger] nonempty(features).contains(f) <==> f.len() > 0
        && exists|i: int| 0 <= i < features.len() && #[trigger] features[i] == f by {
        assert(features.to_set().contains(f) <==> features.contains(f));
    }
}

/// A line without a bar says nothing, nor does one with no version before the bar.
pub proof fn law_other_lines_say_nothing(line: Seq<char>, left: Seq<char>, listed: Seq<char>)
    ensures
        (forall|i: int| 0 <= i < line.len() ==> #[trigger] line[i] != '|') ==> line_features(line)
            is None,
        (forall|i: int| !#[trigger] text::reads(left, " v"@, i)) && (forall|i: int|
            0 <= i < listed.len() ==> #[trigger] listed[i] != '|' && listed[i] != ' '
                && !text::is_space(listed[i])) ==> line_features(left + seq!['|'] + listed) is None,
{
    lemma_marks();
    if forall|i: int| 0 <= i < line.len() ==> #[trigger] line[i] != '|' {
        text::lemma_trim_end(line);
        let t = text::trim_end_of(line);
        let u = unmarked(line);
        assert forall|i: int| 0 <= i < u.len() implies #[trigger] u[i] != '|' by {
            assert(u[i] == t[i]);
            assert(t[i] == line[i]);
        }
        text::law_last_place(u, seq!['|']);
        if let Some(j) = text::last_at(u, seq!['|']) {
            assert(u[j + 0] == seq!['|'][0]);
        }
    }
    if (forall|i: int| !#[trigger] text::reads(left, " v"@, i)) && (forall|i: int|
        0 <= i < listed.len() ==> #[trigger] listed[i] != '|' && listed[i] != ' '
            && !text::is_space(listed[i])) {
        let core = left + seq!['|'] + listed;
        let n = left.len() as int;
        assert(core[n] == '|');
        assert forall|i: int| n < i < core.len() implies core[i] != ' ' by {
            assert(core[i] == listed[i - n - 1]);
        }
        if listed.len() > 0 {
            assert(core.last() == listed[listed.len() - 1]);
        } else {
            assert(core.last() == '|');
        }
        lemma_unmarked(core, Seq::empty(), Seq::empty(), n);
        assert(core + Seq::<char>::empty() + Seq::<char>::empty() =~= core);
        lemma_cut_at_bar(left, listed);
        let named = cut_first(left, " ("@);
        let sep = " v"@;
        text::law_first_place(left, " ("@);
        text::law_last_place(named, sep);
        if let Some(j) = text::last_at(named, sep) {
            assert(text::reads(left, sep, j)) by {
                assert forall|q: int| 0 <= q < sep.len() implies left[j + q]
                    == #[trigger] sep[q] by {
                    assert(named[j + q] == sep[q]);
                }
            }
        }
    }
}

/// Whether a line says something of a package.
pub open spec fn line_names(line: Seq<char>, key: PackageKey) -> bool {
    line_features(line) matches Some((k, _)) && k == key
}

/// Whether a line says that a package has a feature.
pub open spec fn line_enables(line: Seq<char>, key: PackageKey, feature: Seq<char>) -> bool {
    line_features(line) matches Some((k, set)) && k == key && set.contains(feature)
}

/// Whether the sets hold a feature of a package.
pub open spec fn enables(
    sets: Map<PackageKey, Set<Seq<char>>>,
    key: PackageKey,
    feature: Seq<char>,
) -> bool {
    sets.contains_key(key) && sets[key].contains(feature)
}

/// What is known after reading lines is what was known before and what some line
/// says, of each package and each feature.
pub proof fn law_lines_add_up(
    sets: Map<PackageKey, Set<Seq<char>>>,
    lines: Seq<Seq<char>>,
    key: PackageKey,
    feature: Seq<char>,
)
    ensures
        lines_added(sets, lines).contains_key(key) <==> sets.contains_key(key) || exists|i: int|
            0 <= i < lines.len() && line_names(#[trigger] lines[i], key),
        enables(lines_added(sets, lines), key, feature) <==> enables(sets, key, feature)
            || exists|i: int|
            0 <= i < lines.len() && line_enables(#[trigger] lines[i], key, feature),
    decreases lines.len(),
{
    if lines.len() > 0 {
        let head = lines.drop_last();
        let n = lines.len() - 1;
        law_lines_add_up(sets, head, key, feature);
        assert(lines[n] == lines.last());
        if exists|i: int| 0 <= i < head.len() && line_names(#[trigger] head[i], key) {
            let i = choose|i: int| 0 <= i < head.len() && line_names(#[trigger] head[i], key);
            assert(lines[i] == head[i]);
        }
        if exists|i: int| 0 <= i < lines.len() && line_names(#[trigger] lines[i], key) {
            let i = choose|i: int| 0 <= i < lines.len() && line_names(#[trigger] lines[i], key);
            if i < n {
                assert(head[i] == lines[i]);
            }
        }
        if exists|i: int| 0 <= i < head.len() && line_enables(#[trigger] head[i], key, feature) {
            let i = choose|i: int|
                0 <= i < head.len() && line_enables(#[trigger] head[i], key, feature);
            assert(lines[i] == head[i]);
        }
        if exists|i: int| 0 <= i < lines.len() && line_enables(#[trigger] lines[i], key, feature) {
            let i = choose|i: int|
                0 <= i < lines.len() && line_enables(#[trigger] lines[i], key, feature);
            if i < n {
                assert(head[i] == lines[i]);
            }
        }
    }
}

/// Whether the answer for a target holds the line `j`, which says something of a
/// package.
pub open spec fn answer_names(output: TreeOutput, j: int, key: PackageKey) -> bool {
    output.stdout matches Some(out) && 0 <= j < text::lines_of(out@).len() && line_names(
        text::lines_of(out@)[j],
        key,
    )
}

/// Whether the answer for a target holds the line `j`, which says that a package
/// has a feature.
pub open spec fn answer_enables(
    output: TreeOutput,
    j: int,
    key: PackageKey,
    feature: Seq<char>,
) -> bool {
    output.stdout matches Some(out) && 0 <= j < text::lines_of(out@).len() && line_enables(
        text::lines_of(out@)[j],
        key,
        feature,
    )
}

/// A package is known if and only if the answer for some target names it, and has a
/// feature if and only if the answer for some target says so.
pub proof fn law_answers_add_up(outputs: Seq<TreeOutput>, key: PackageKey, feature: Seq<char>)
    ensures
        outputs_added(outputs).contains_key(key) <==> exists|i: int, j: int|
            0 <= i < outputs.len() && #[trigger] answer_names(outputs[i], j, key),
        enables(outputs_added(outputs), key, feature) <==> exists|i: int, j: int|
            0 <= i < outputs.len() && #[trigger] answer_enables(outputs[i], j, key, feature),
    decreases outputs.len(),
{
    if outputs.len() > 0 {
        let head = outputs.drop_last();
        let n = outputs.len() - 1;
        law_answers_add_up(head, key, feature);
        assert(outputs[n] == outputs.last());
        if let Some(out) = outputs.last().stdout {
            let lines = text::lines_of(out@);
            law_lines_add_up(outputs_added(head), lines, key, feature);
            if exists|j: int| 0 <= j < lines.len() && line_names(#[trigger] lines[j], key) {
                let j = choose|j: int| 0 <= j < lines.len() && line_names(#[trigger] lines[j], key);
                assert(answer_names(outputs[n], j, key));
            }
            if exists|j: int| 0 <= j < lines.len() && line_enables(#[trigger] lines[j], key, feature) {
                let j = choose|j: int|
                    0 <= j < lines.len() && line_enables(#[trigger] lines[j], key, feature);
                assert(answer_enables(outputs[n], j, key, feature));
            }
        }
        if exists|i: int, j: int| 0 <= i < head.len() && #[trigger] answer_names(head[i], j, key) {
            let (i, j) = choose|i: int, j: int|
                0 <= i < head.len() && #[trigger] answer_names(head[i], j, key);
            assert(answer_names(outputs[i], j, key));
        }
        if exists|i: int, j: int|
            0 <= i < head.len() && #[trigger] answer_enables(head[i], j, key, feature) {
            let (i, j) = choose|i: int, j: int|
                0 <= i < head.len() && #[trigger] answer_enables(head[i], j, key, feature);
            assert(answer_enables(outputs[i], j, key, feature));
        }
        if exists|i: int, j: int|
            0 <= i < outputs.len() && #[trigger] answer_names(outputs[i], j, key) {
            let (i, j) = choose|i: int, j: int|
                0 <= i < outputs.len() && #[trigger] answer_names(outputs[i], j, key);
            if i < n {
                assert(answer_names(head[i], j, key));
            } else {
                let lines = text::lines_of(outputs[n].stdout->0@);
                assert(line_names(lines[j], key));
            }
        }
        if exists|i: int, j: int|
            0 <= i < outputs.len() && #[trigger] answer_enables(outputs[i], j, key, feature) {
            let (i, j) = choose|i: int, j: int|
                0 <= i < outputs.len() && #[trigger] answer_enables(outputs[i], j, key, feature);
            if i < n {
                assert(answer_enables(head[i], j, key, feature));
            } else {
                let lines = text::lines_of(outputs[n].stdout->0@);
                assert(line_enables(lines[j], key, feature));
            }
        }
    }
}

/// A feature that is printed for a package of some target is one that the package
/// has: under its whole name and its whole version.
pub proof fn law_printed_features_are_enabled(
    outputs: Seq<TreeOutput>,
    i: int,
    j: int,
    name: Seq<char>,
    version: Seq<char>,
    source: Seq<char>,
    features: Seq<Seq<char>>,
    mark: Seq<char>,
    behind: Seq<char>,
    k: int,
)
    requires
        0 <= i < outputs.len(),
        outputs[i].stdout is Some,
        0 <= j < text::lines_of(outputs[i].stdout->0@).len(),
        printed_for(
            text::lines_of(outputs[i].stdout->0@)[j],
            name,
            version,
            source,
            features,
            mark,
            behind,
        ),
        0 <= k < features.len(),
        features[k].len() > 0,
    ensures
        outputs_added(outputs).contains_key((name, version)),
        outputs_added(outputs)[(name, version)].contains(features[k]),
{
    let line = text::lines_of(outputs[i].stdout->0@)[j];
    law_line_is_read(line, name, version, source, features, mark, behind);
    assert(answer_enables(outputs[i], j, (name, version), features[k]));
    law_answers_add_up(outputs, (name, version), features[k]);
}

/// The first target without an answer is the one before which every target has one.
/// There is one if and only if some answer is missing.
pub proof fn law_first_missing_answer(outputs: Seq<TreeOutput>)
    ensures
        0 <= first_missing(outputs) <= outputs.len(),
        first_missing(outputs) < outputs.len() ==> outputs[first_missing(outputs)].stdout is None,
        forall|i: int| 0 <= i < first_missing(outputs) ==> (#[trigger] outputs[i]).stdout is Some,
    decreases outputs.len(),
{
    if outputs.len() > 0 && outputs[0].stdout is Some {
        let rest = outputs.drop_first();
        law_first_missing_answer(rest);
        assert forall|i: int| 0 <= i < first_missing(outputs) implies (
        #[trigger] outputs[i]).stdout is Some by {
            if i > 0 {
                assert(rest[i - 1] == outputs[i]);
            }
        }
    }
}

/// `cargo tree` is asked for one target, for the whole workspace, along all edges
/// and with one package on a line; and for the manifest, where one is given.
pub proof fn law_tree_is_asked_for_the_target(triple: Seq<char>, path: Seq<char>)
    ensures
        ({
            let args = tree_arguments(triple, None);
            let more = tree_arguments(triple, Some(path));
            &&& args[0] == "tree"@
            &&& text::joined(args.take(3), " "@) == "tree --target "@ + triple
            &&& args.contains("--workspace"@)
            &&& exists|i: int|
                0 <= i < args.len() - 1 && #[trigger] args[i] == "--edges"@ && args[i + 1] == "all"@
            &&& exists|i: int|
                0 <= i < args.len() - 1 && #[trigger] args[i] == "--format"@ && args[i + 1]
                    == "{p}|{f}"@
            &&& exists|i: int|
                0 <= i < args.len() - 1 && #[trigger] args[i] == "--prefix"@ && args[i + 1]
                    == "none"@
            &&& more == args + seq!["--manifest-path"@, path]
        }),
{
    let args = tree_arguments(triple, None);
    assert(args[3] == "--edges"@ && args[4] == "all"@);
    assert(args[5] == "--prefix"@ && args[6] == "none"@);
    assert(args[7] == "--format"@ && args[8] == "{p}|{f}"@);
    assert(args[9] == "--workspace"@);
    let three = args.take(3);
    let two = three.drop_last();
    let one = two.drop_last();
    assert(three.last() == triple);
    assert(two.last() == "--target"@);
    assert(one =~= seq!["tree"@]);
    reveal_strlit("tree");
    reveal_strlit("--target");
    reveal_strlit(" ");
    reveal_strlit("tree --target ");
    assert(text::joined(one, " "@) == "tree"@);
    assert(text::joined(two, " "@) == "tree"@ + " "@ + "--target"@);
    assert("tree"@ + " "@ + "--target"@ + " "@ =~= "tree --target "@);
    assert(text::joined(three, " "@) =~= "tree --target "@ + triple);
}

/// A package keeps every feature if and only if something depends on it that no
/// supported platform resolves, or that keeps every feature itself.
pub proof fn law_pinning_goes_on(
    nodes: Map<Seq<char>, GraphNode>,
    features: Map<PackageKey, Set<Seq<char>>>,
    id: Seq<char>,
)
    ensures
        reached(nodes, features, id) <==> exists|a: Seq<char>, i: int|
            nodes.contains_key(a) && 0 <= i < nodes[a].deps@.len() && (
            #[trigger] nodes[a].deps@[i])@ == id && (unresolved(nodes[a], features) || reached(
                nodes,
                features,
                a,
            )),
{
    if exists|a: Seq<char>, i: int|
        nodes.contains_key(a) && 0 <= i < nodes[a].deps@.len() && (#[trigger] nodes[a].deps@[i])@
            == id && (unresolved(nodes[a], features) || reached(nodes, features, a)) {
        let (a, i) = choose|a: Seq<char>, i: int|
            nodes.contains_key(a) && 0 <= i < nodes[a].deps@.len() && (
            #[trigger] nodes[a].deps@[i])@ == id && (unresolved(nodes[a], features) || reached(
                nodes,
                features,
                a,
            ));
        let deps = text::views(nodes[a].deps@);
        assert(deps[i] == id);
        assert(depends_on(nodes, a, id));
        lemma_reached_further(nodes, features, a, id);
    }
    if reached(nodes, features, id) {
        let path = choose|path: Seq<Seq<char>>| #[trigger]
            is_path(nodes, path) && unresolved(nodes[path[0]], features) && path.last() == id;
        let n = path.len() as int;
        let a = path[n - 2];
        assert(depends_on(nodes, path[n - 2], path[n - 1]));
        let deps = text::views(nodes[a].deps@);
        let i = choose|i: int| 0 <= i < deps.len() && deps[i] == id;
        assert(nodes[a].deps@[i]@ == id);
        if n > 2 {
            let shorter = path.drop_last();
            assert forall|k: int| 0 <= k < shorter.len() - 1 implies depends_on(
                nodes,
                #[trigger] shorter[k],
                shorter[k + 1],
            ) by {
                assert(shorter[k] == path[k]);
            }
            assert(is_path(nodes, shorter));
            assert(reached(nodes, features, a));
        }
    }
}

/// No more packages keep every feature than have to: whatever set holds what an
/// unresolved package depends on, and what its own members depend on, holds them.
pub proof fn law_nothing_else_is_pinned(
    nodes: Map<Seq<char>, GraphNode>,
    features: Map<PackageKey, Set<Seq<char>>>,
    set: Set<Seq<char>>,
    id: Seq<char>,
)
    requires
        forall|a: Seq<char>, i: int|
            nodes.contains_key(a) && 0 <= i < nodes[a].deps@.len() && (unresolved(
                nodes[a],
                features,
            ) || set.contains(a)) ==> set.contains((#[trigger] nodes[a].deps@[i])@),
        reached(nodes, features, id),
    ensures
        set.contains(id),
{
    let path = choose|path: Seq<Seq<char>>| #[trigger]
        is_path(nodes, path) && unresolved(nodes[path[0]], features) && path.last() == id;
    assert forall|a: Seq<char>, b: Seq<char>| #[trigger]
        depends_on(nodes, a, b) && (unresolved(nodes[a], features) || set.contains(a)) implies
        set.contains(b) by {
        let deps = text::views(nodes[a].deps@);
        let i = choose|i: int| 0 <= i < deps.len() && deps[i] == b;
        assert(nodes[a].deps@[i]@ == b);
    }
    lemma_closed(nodes, features, set, path);
}

/// A package is resolved if and only if its name and version are known and have a
/// set of features.
pub proof fn law_resolved_by_name_and_version(
    node: GraphNode,
    features: Map<PackageKey, Set<Seq<char>>>,
)
    ensures
        !unresolved(node, features) <==> exists|name: String, version: String|
            node.name_version == Some((name, version)) && #[trigger] features.contains_key(
                (name@, version@),
            ),
{
    if let Some((name, version)) = node.name_version {
        assert(node.name_version == Some((name, version)));
    }
}

/// Adding features to a package adds just those, and leaves every other package as
/// it is.
pub proof fn law_features_are_added_to_one_package(
    sets: Map<PackageKey, Set<Seq<char>>>,
    key: PackageKey,
    more: Set<Seq<char>>,
    other: PackageKey,
    feature: Seq<char>,
)
    ensures
        features_with(sets, key, more).contains_key(other) <==> sets.contains_key(other) || other
            == key,
        enables(features_with(sets, key, more), other, feature) <==> enables(sets, other, feature)
            || (other == key && more.contains(feature)),
{
}

/// The warning for a missing answer tells the target.
pub proof fn law_missing_answer_is_told(triple: Seq<char>)
    ensures
        text::reads(
            missing_warning(triple),
            "feature narrowing disabled: no resolve for "@ + triple,
            0,
        ),
{
    let head = "feature narrowing disabled: no resolve for "@ + triple;
    let all = missing_warning(triple);
    assert forall|k: int| 0 <= k < head.len() implies all[0 + k] == #[trigger] head[k] by {}
}

/// Nothing is known where an answer is missing, whichever it is, or where the
/// features are not wanted; else every answer counts.
pub proof fn law_missing_answer_disables_narrowing(outputs: Seq<TreeOutput>, i: int)
    ensures
        known_features(true, outputs) == Map::<PackageKey, Set<Seq<char>>>::empty(),
        0 <= i < outputs.len() && outputs[i].stdout is None ==> known_features(false, outputs)
            == Map::<PackageKey, Set<Seq<char>>>::empty(),
        (forall|k: int| 0 <= k < outputs.len() ==> (#[trigger] outputs[k]).stdout is Some)
            ==> known_features(false, outputs) == outputs_added(outputs),
{
    law_first_missing_answer(outputs);
    if 0 <= i < outputs.len() && outputs[i].stdout is None {
        if first_missing(outputs) == outputs.len() {
            assert(outputs[i].stdout is Some);
        }
    }
}

} // verus!
