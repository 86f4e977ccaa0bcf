//! Paths, as texts.
//!
//! A path is plain when every platform reads it in the same way: absolute, with
//! `/` between its components, and without empty components, `.` components,
//! drive letters or backslashes. A path is uniform when it is the root or a plain
//! path, but for slashes that it repeats or ends with.

use vstd::prelude::*;

use cargo_metadata::camino::Utf8Path;

use crate::text;
use crate::text::replace_char;

verus! {

/// Whether `name` can stand for a component of a plain path.
pub open spec fn plain_component(name: Seq<char>) -> bool {
    name.len() > 0 && name != "."@
}

/// Whether `name` is the name of a file, and no path.
pub open spec fn file_name(name: Seq<char>) -> bool {
    &&& plain_component(name)
    &&& !name.contains('/')
    &&& !name.contains('\\')
    &&& !name.contains(':')
}

/// Whether every platform reads `path` as the same absolute path.
pub open spec fn plain(path: Seq<char>) -> bool {
    &&& path.len() >= 2
    &&& path[0] == '/'
    &&& path.last() != '/'
    &&& forall|i: int| 0 <= i < path.len() ==> #[trigger] path[i] != '\\' && path[i] != ':'
    &&& forall|i: int|
        0 <= i < path.len() - 1 && #[trigger] path[i] == '/' ==> {
            &&& path[i + 1] != '/'
            &&& path[i + 1] == '.' ==> i + 2 < path.len() && path[i + 2] != '/'
        }
}

/// The position of the last `/` of `path`, or -1 where it has none.
pub open spec fn last_slash(path: Seq<char>) -> int
    decreases path.len(),
{
    if path.len() == 0 {
        -1
    } else if path.last() == '/' {
        path.len() - 1
    } else {
        last_slash(path.drop_last())
    }
}

/// Whether `path` is the root or a plain path.
pub open spec fn rooted(path: Seq<char>) -> bool {
    path == "/"@ || plain(path)
}

/// `path` with one slash for each run of them.
pub open spec fn squeezed(path: Seq<char>) -> Seq<char>
    decreases path.len(),
{
    if path.len() < 2 {
        path
    } else if path.last() == '/' && path[path.len() - 2] == '/' {
        squeezed(path.drop_last())
    } else {
        squeezed(path.drop_last()).push(path.last())
    }
}

/// `path` without the slashes at its end, unless it starts with them.
pub open spec fn unslashed(path: Seq<char>) -> Seq<char>
    decreases path.len(),
{
    if path.len() > 1 && path.last() == '/' {
        unslashed(path.drop_last())
    } else {
        path
    }
}

/// `path` without the slashes that it repeats or ends with.
pub open spec fn tidied(path: Seq<char>) -> Seq<char> {
    unslashed(squeezed(path))
}

/// Whether every platform reads `path` as the same absolute path. Two slashes at
/// its start mean something else on some of them.
pub open spec fn uniform(path: Seq<char>) -> bool {
    &&& path.len() > 0
    &&& path[0] == '/'
    &&& path.len() > 1 ==> path[1] != '/'
    &&& rooted(tidied(path))
}

/// What follows `base` in `path`, where `base` is `path` itself or one of the
/// directories above it. Both are the root or plain paths.
pub open spec fn below(path: Seq<char>, base: Seq<char>) -> Option<Seq<char>> {
    if path == base {
        Some(Seq::empty())
    } else if base == "/"@ {
        Some(path.skip(1))
    } else if (base + "/"@).is_prefix_of(path) {
        Some(path.skip(base.len() as int + 1))
    } else {
        None
    }
}

/// The directory that `path` stands in, if it is not the root. It is the root or
/// a plain path.
pub open spec fn directory_of(path: Seq<char>) -> Option<Seq<char>> {
    if path.len() <= 1 {
        None
    } else if last_slash(path) > 0 {
        Some(path.take(last_slash(path)))
    } else {
        Some("/"@)
    }
}

/// The file `name` in the directory `dir`, which is the root or a plain path.
pub open spec fn file_in(dir: Seq<char>, name: Seq<char>) -> Seq<char> {
    if dir == "/"@ {
        dir + name
    } else {
        dir + "/"@ + name
    }
}

/// Whether `found` is `exact`, but for slashes that it repeats or ends with, and
/// is just that where `path` has none of them.
pub open spec fn agrees(
    path: Seq<char>,
    found: Option<Seq<char>>,
    exact: Option<Seq<char>>,
) -> bool {
    &&& found is Some <==> exact is Some
    &&& found matches Some(s) ==> tidied(s) == exact->0
    &&& rooted(path) ==> found == exact
}

/// What can come of looking for the directory that `path` stands in. Where the
/// path is uniform there is one answer. How other paths are taken apart depends on
/// the platform: the answer is then a prefix of `path`, or none.
pub open spec fn parent_found(path: Seq<char>, found: Option<Seq<char>>) -> bool {
    &&& found matches Some(dir) ==> dir.is_prefix_of(path)
    &&& uniform(path) ==> agrees(path, found, directory_of(tidied(path)))
}

/// What can come of taking `base` from the start of `path`. Where both are uniform
/// there is one answer. How other paths are taken apart depends on the platform:
/// the answer is then a part of `path`, or none.
pub open spec fn rest_found(path: Seq<char>, base: Seq<char>, found: Option<Seq<char>>) -> bool {
    &&& found matches Some(rest) ==> exists|i: int, j: int|
        0 <= i <= j <= path.len() && rest == #[trigger] path.subrange(i, j)
    &&& uniform(path) && uniform(base) ==> agrees(path, found, below(tidied(path), tidied(base)))
}

/// `found`, with forward slashes.
pub open spec fn forwarded(found: Option<Seq<char>>) -> Option<Seq<char>> {
    match found {
        Some(rest) => Some(text::replace_char_in(rest, '\\', '/')),
        None => None,
    }
}

/// Whether `relative` is a part of `path`, with forward slashes.
pub open spec fn is_part(path: Seq<char>, relative: Seq<char>) -> bool {
    exists|i: int, j: int|
        0 <= i <= j <= path.len() && relative == text::replace_char_in(
            #[trigger] path.subrange(i, j),
            '\\',
            '/',
        )
}

/// What can come of looking for `path` below `base`, with forward slashes. Where
/// both are uniform there is one answer. Of other paths it is known that the
/// answer is a part of `path`, or none.
pub open spec fn below_found(path: Seq<char>, base: Seq<char>, found: Option<Seq<char>>) -> bool {
    &&& found matches Some(relative) ==> is_part(path, relative)
    &&& uniform(path) && uniform(base) ==> agrees(path, found, below(tidied(path), tidied(base)))
    &&& rooted(path) && rooted(base) ==> found == below(path, base)
}

proof fn lemma_last_slash(path: Seq<char>)
    ensures
        -1 <= last_slash(path) < path.len(),
        last_slash(path) >= 0 ==> path[last_slash(path)] == '/',
    decreases path.len(),
{
    if path.len() > 0 && path.last() != '/' {
        lemma_last_slash(path.drop_last());
    }
}

/// The directory of a plain path is the root or a plain path.
pub proof fn lemma_directory_is_rooted(path: Seq<char>)
    requires
        plain(path),
    ensures
        directory_of(path) matches Some(dir) && rooted(dir),
{
    lemma_last_slash(path);
    let i = last_slash(path);
    if i > 0 {
        let dir = path.take(i);
        assert(path[i - 1] != '/');
        assert(dir.len() >= 2) by {
            assert(path[0] == '/' && path[1] != '/');
        }
        assert forall|j: int| 0 <= j < dir.len() - 1 && #[trigger] dir[j] == '/' implies {
            &&& dir[j + 1] != '/'
            &&& dir[j + 1] == '.' ==> j + 2 < dir.len() && dir[j + 2] != '/'
        } by {
            assert(path[j] == '/');
        }
    }
}

proof fn lemma_squeezed_stays(path: Seq<char>)
    requires
        forall|i: int|
            0 <= i < path.len() - 1 && #[trigger] path[i] == '/' ==> path[i + 1] != '/',
    ensures
        squeezed(path) == path,
    decreases path.len(),
{
    if path.len() >= 2 {
        let head = path.drop_last();
        assert(path[path.len() - 2] == '/' ==> path[path.len() - 1] != '/');
        assert forall|i: int| 0 <= i < head.len() - 1 && #[trigger] head[i] == '/' implies head[i
            + 1] != '/' by {
            assert(path[i] == '/');
        }
        lemma_squeezed_stays(head);
        assert(head.push(path.last()) =~= path);
    }
}

/// The root and plain paths are uniform, and in the form that they are brought
/// into.
pub proof fn lemma_rooted_is_uniform(path: Seq<char>)
    requires
        rooted(path),
    ensures
        tidied(path) == path,
        uniform(path),
{
    reveal_strlit("/");
    lemma_squeezed_stays(path);
}

proof fn lemma_squeezed_keeps(path: Seq<char>, c: char)
    requires
        path.contains(c),
        c != '/',
    ensures
        squeezed(path).contains(c),
    decreases path.len(),
{
    if path.len() >= 2 {
        let head = path.drop_last();
        let i = choose|i: int| 0 <= i < path.len() && path[i] == c;
        let shorter = squeezed(head);
        if i < path.len() - 1 {
            assert(head[i] == c);
            lemma_squeezed_keeps(head, c);
            let k = choose|k: int| 0 <= k < shorter.len() && shorter[k] == c;
            assert(shorter.push(path.last())[k] == c);
        } else {
            assert(shorter.push(path.last())[shorter.len() as int] == c);
        }
    }
}

proof fn lemma_unslashed_keeps(path: Seq<char>, c: char)
    requires
        path.contains(c),
        c != '/',
    ensures
        unslashed(path).contains(c),
    decreases path.len(),
{
    if path.len() > 1 && path.last() == '/' {
        let i = choose|i: int| 0 <= i < path.len() && path[i] == c;
        assert(path.drop_last()[i] == c);
        lemma_unslashed_keeps(path.drop_last(), c);
    }
}

/// A uniform path has no backslash, so that its parts have forward slashes.
proof fn lemma_part_of_uniform(path: Seq<char>, i: int, j: int)
    requires
        uniform(path),
        0 <= i <= j <= path.len(),
    ensures
        text::replace_char_in(path.subrange(i, j), '\\', '/') == path.subrange(i, j),
{
    reveal_strlit("/");
    if path.contains('\\') {
        lemma_squeezed_keeps(path, '\\');
        lemma_unslashed_keeps(squeezed(path), '\\');
        let t = tidied(path);
        let k = choose|k: int| 0 <= k < t.len() && t[k] == '\\';
        assert(t[k] == '\\');
    }
    let part = path.subrange(i, j);
    assert(text::replace_char_in(part, '\\', '/') =~= part) by {
        assert forall|k: int| 0 <= k < part.len() implies part[k] != '\\' by {
            assert(part[k] == path[i + k]);
        }
    }
}

/// What came of taking `base` from the start of `path` is still that with forward
/// slashes.
pub proof fn lemma_forwarded(path: Seq<char>, base: Seq<char>, found: Option<Seq<char>>)
    requires
        rest_found(path, base, found),
    ensures
        below_found(path, base, forwarded(found)),
{
    if rooted(path) && rooted(base) {
        lemma_rooted_is_uniform(path);
        lemma_rooted_is_uniform(base);
    }
    if let Some(rest) = found {
        let (i, j) = choose|i: int, j: int|
            0 <= i <= j <= path.len() && rest == #[trigger] path.subrange(i, j);
        assert(forwarded(found)->0 == text::replace_char_in(path.subrange(i, j), '\\', '/'));
        assert(is_part(path, forwarded(found)->0));
        if uniform(path) {
            lemma_part_of_uniform(path, i, j);
        }
    }
}

/// `camino::Utf8Path::strip_prefix`: what follows `base` in `path`, or nothing
/// where `base` is not a prefix of `path` by components. The claim is that the
/// result is a part of `path`, and which part it is where both paths are uniform,
/// but for slashes that it repeats or ends with as `path` does; how other paths are
/// read depends on the platform and is left unsaid.
#[verifier::external_body]
pub(crate) fn strip_base(path: &str, base: &str) -> (r: Option<String>)
    ensures
        rest_found(path@, base@, text::view_opt(r)),
{
    Utf8Path::new(path).strip_prefix(base).ok().map(|p| p.as_str().to_owned())
}

/// `camino::Utf8Path::parent`: `path` without its final component, or nothing
/// where it ends in a root. The claim is that the result is a prefix of `path`,
/// and which one it is where `path` is uniform, but for slashes that it repeats or
/// ends with as `path` does.
#[verifier::external_body]
pub(crate) fn parent(path: &str) -> (r: Option<String>)
    ensures
        parent_found(path@, text::view_opt(r)),
{
    Utf8Path::new(path).parent().map(|p| p.as_str().to_owned())
}

/// What came of taking a directory from the start of a path, with forward
/// slashes.
pub fn forward(stripped: Option<String>) -> (r: Option<String>)
    ensures
        text::view_opt(r) == forwarded(text::view_opt(stripped)),
{
    match stripped {
        Some(rest) => Some(replace_char(rest.as_str(), '\\', '/')),
        None => None,
    }
}

/// Where the directory of a manifest stands.
#[derive(Debug)]
pub enum Place {
    /// The manifest stands in no directory.
    Nowhere,
    /// The directory is not below the project root.
    Outside(String),
    /// The directory relative to the project root, with forward slashes.
    Below(String),
}

/// The model of a [`Place`].
pub ghost enum PlaceModel {
    Nowhere,
    Outside(Seq<char>),
    Below(Seq<char>),
}

impl View for Place {
    type V = PlaceModel;

    open spec fn view(&self) -> PlaceModel {
        match *self {
            Place::Nowhere => PlaceModel::Nowhere,
            Place::Outside(dir) => PlaceModel::Outside(dir@),
            Place::Below(relative) => PlaceModel::Below(relative@),
        }
    }
}

/// Where the directory `dir` of a manifest stands, if `stripped` is what follows
/// the project root in it.
pub open spec fn place_given(
    dir: Option<Seq<char>>,
    stripped: Option<Seq<char>>,
) -> PlaceModel {
    match (dir, forwarded(stripped)) {
        (None, _) => PlaceModel::Nowhere,
        (Some(dir), None) => PlaceModel::Outside(dir),
        (Some(_), Some(relative)) => PlaceModel::Below(relative),
    }
}

/// Where the directory `dir` of a manifest stands, if `stripped` is what follows
/// the project root in it.
pub fn place_from(dir: Option<String>, stripped: Option<String>) -> (r: Place)
    ensures
        r@ == place_given(text::view_opt(dir), text::view_opt(stripped)),
{
    match dir {
        None => Place::Nowhere,
        Some(dir) => match forward(stripped) {
            None => Place::Outside(dir),
            Some(relative) => Place::Below(relative),
        },
    }
}

/// Where the directory of `manifest` stands. Both paths are the root or plain.
pub open spec fn exact_place(manifest: Seq<char>, root: Seq<char>) -> PlaceModel {
    match directory_of(manifest) {
        None => PlaceModel::Nowhere,
        Some(dir) => match below(dir, root) {
            Some(relative) => PlaceModel::Below(relative),
            None => PlaceModel::Outside(dir),
        },
    }
}

/// Whether a directory and what follows the project root in it can be found for
/// `manifest`, and lead to `place`.
pub open spec fn place_with(
    manifest: Seq<char>,
    root: Seq<char>,
    dir: Option<Seq<char>>,
    stripped: Option<Seq<char>>,
    place: PlaceModel,
) -> bool {
    &&& parent_found(manifest, dir)
    &&& dir matches Some(d) ==> rest_found(d, root, stripped)
    &&& place == place_given(dir, stripped)
}

/// What can come of looking for the directory of `manifest` below `root`. Where
/// both paths are uniform there is one answer, but for slashes that it repeats or
/// ends with as `manifest` does.
pub open spec fn place_found(manifest: Seq<char>, root: Seq<char>, place: PlaceModel) -> bool {
    &&& exists|dir: Option<Seq<char>>, stripped: Option<Seq<char>>| #[trigger]
        place_with(manifest, root, dir, stripped, place)
    &&& uniform(manifest) && uniform(root) ==> match (
        exact_place(tidied(manifest), tidied(root)),
        place,
    ) {
        (PlaceModel::Nowhere, PlaceModel::Nowhere) => true,
        (PlaceModel::Outside(e), PlaceModel::Outside(dir)) => tidied(dir) == e,
        (PlaceModel::Below(e), PlaceModel::Below(relative)) => tidied(relative) == e,
        _ => false,
    }
    &&& rooted(manifest) && uniform(root) ==> place == exact_place(manifest, tidied(root))
    &&& rooted(manifest) && rooted(root) ==> place == exact_place(manifest, root)
}

/// Where the directory of the manifest `manifest` stands.
pub fn place_of(manifest: &str, root: &str) -> (r: Place)
    ensures
        place_found(manifest@, root@, r@),
{
    let dir = parent(manifest);
    let stripped = match &dir {
        Some(dir) => strip_base(dir.as_str(), root),
        None => None,
    };
    let ghost d = text::view_opt(dir);
    let ghost s = text::view_opt(stripped);
    let r = place_from(dir, stripped);
    proof {
        assert(place_with(manifest@, root@, d, s, r@));
        if rooted(manifest@) {
            lemma_rooted_is_uniform(manifest@);
        }
        if rooted(root@) {
            lemma_rooted_is_uniform(root@);
        }
        if uniform(manifest@) && uniform(root@) {
            lemma_place_of_uniform(manifest@, root@, d, s);
        }
    }
    r
}

proof fn lemma_place_of_uniform(
    manifest: Seq<char>,
    root: Seq<char>,
    dir: Option<Seq<char>>,
    stripped: Option<Seq<char>>,
)
    requires
        uniform(manifest),
        uniform(root),
        parent_found(manifest, dir),
        dir matches Some(d) ==> rest_found(d, root, stripped),
    ensures
        place_found(manifest, root, place_given(dir, stripped)),
{
    reveal_strlit("/");
    assert(place_with(manifest, root, dir, stripped, place_given(dir, stripped)));
    let tidy = tidied(manifest);
    if rooted(manifest) {
        lemma_rooted_is_uniform(manifest);
    }
    if rooted(root) {
        lemma_rooted_is_uniform(root);
    }
    if let Some(d) = dir {
        assert(tidy != "/"@);
        lemma_directory_is_rooted(tidy);
        assert(d.len() > 0) by {
            if d.len() == 0 {
                assert(tidied(d) =~= d);
                assert(tidied(d).len() == 0);
            }
        }
        assert(d[0] == manifest[0]);
        if d.len() > 1 {
            assert(d[1] == manifest[1]);
        }
        assert(uniform(d));
        lemma_forwarded(d, root, stripped);
        if rooted(manifest) {
            lemma_rooted_is_uniform(d);
        }
    }
}

/// Whether `path` is `base` with `name` below it: behind a separator, unless
/// `base` is empty or ends with one. Platforms differ on which separator it is,
/// and on whether `\\` and `:` at the end of `base` need one.
pub open spec fn is_joined(path: Seq<char>, base: Seq<char>, name: Seq<char>) -> bool {
    if base.len() == 0 || base.last() == '/' {
        path == base + name
    } else {
        ||| path == base + "/"@ + name
        ||| path == base + "\\"@ + name
        ||| (base.last() == '\\' || base.last() == ':') && path == base + name
    }
}

/// Whether `path` starts with a backslash. Some platforms bring such a path into
/// a normal form when something is adjoined to it.
pub open spec fn starts_verbatim(path: Seq<char>) -> bool {
    path.len() > 0 && path[0] == '\\'
}

/// `camino::Utf8Path::join`: `base` with `name` adjoined. Nothing is claimed for a
/// base that starts with a backslash, since whether it is brought into a normal
/// form depends on the platform. `name` has to be a plain file name: a path that
/// is absolute on the platform would take the place of `base`.
#[verifier::external_body]
pub(crate) fn join(base: &str, name: &str) -> (r: String)
    requires
        file_name(name@),
    ensures
        !starts_verbatim(base@) ==> is_joined(r@, base@, name@),
{
    Utf8Path::new(base).join(name).into_string()
}

/// Whether `owns` can come of asking whether `path` is the file `name` in the
/// directory `dir`. Where both paths are uniform there is one answer. How other
/// paths are compared depends on the platform.
pub open spec fn is_file_found(
    path: Seq<char>,
    dir: Seq<char>,
    name: Seq<char>,
    owns: bool,
) -> bool {
    uniform(path) && uniform(dir) ==> owns == (tidied(path) == file_in(tidied(dir), name))
}

/// `camino::Utf8Path::join` and the comparison of paths: whether `path` is the
/// file `name` in the directory `dir`. The claim is what that means where both
/// paths are uniform; how other paths are compared depends on the platform.
#[verifier::external_body]
pub(crate) fn is_file_in(path: &str, dir: &str, name: &str) -> (r: bool)
    requires
        file_name(name@),
    ensures
        is_file_found(path@, dir@, name@, r),
{
    Utf8Path::new(dir).join(name).as_path() == Utf8Path::new(path)
}

/// A file in a directory stands in that directory, and below it under its own name.
pub proof fn law_file_stands_in_its_directory(dir: Seq<char>, name: Seq<char>)
    requires
        rooted(dir),
        file_name(name),
    ensures
        directory_of(file_in(dir, name)) == Some(dir),
        below(file_in(dir, name), dir) == Some(name),
{
    reveal_strlit("/");
    let path = file_in(dir, name);
    let n = path.len() - name.len() - 1;
    assert(path[n] == '/');
    assert forall|i: int| n < i < path.len() implies path[i] != '/' by {
        assert(name.contains(name[i - n - 1]));
        assert(path[i] == name[i - n - 1]);
    }
    lemma_last_slash_is(path, n);
    if dir == "/"@ {
        assert(path.skip(1) =~= name);
    } else {
        assert(path.take(n) =~= dir);
        assert((dir + "/"@).is_prefix_of(path)) by {
            assert(path.subrange(0, dir.len() as int + 1) =~= dir + "/"@);
        }
        assert(path.skip(dir.len() as int + 1) =~= name);
        assert(dir.len() >= 2);
    }
}

proof fn lemma_last_slash_is(path: Seq<char>, n: int)
    requires
        0 <= n < path.len(),
        path[n] == '/',
        forall|i: int| n < i < path.len() ==> path[i] != '/',
    ensures
        last_slash(path) == n,
    decreases path.len(),
{
    if n < path.len() - 1 {
        assert(path.last() != '/');
        lemma_last_slash_is(path.drop_last(), n);
    }
}

/// What stands below a directory is what follows it and a slash; a directory stands
/// below itself as nothing; and only what starts with a directory and a slash stands
/// below it.
pub proof fn law_what_stands_below(base: Seq<char>, rest: Seq<char>, path: Seq<char>)
    requires
        plain(base),
    ensures
        below(base + seq!['/'] + rest, base) == Some(rest),
        below(base, base) == Some(Seq::<char>::empty()),
        below(seq!['/'] + rest, seq!['/']) == Some(rest),
        below(path, base) is Some ==> path == base || text::reads(path, base + seq!['/'], 0),
{
    reveal_strlit("/");
    assert("/"@ =~= seq!['/']);
    let long = base + seq!['/'] + rest;
    assert(long.subrange(0, base.len() as int + 1) =~= base + "/"@);
    assert(long.skip(base.len() as int + 1) =~= rest);
    let short = seq!['/'] + rest;
    if rest.len() == 0 {
        assert(short =~= seq!['/']);
        assert(rest =~= Seq::<char>::empty());
    }
    assert(short.skip(1) =~= rest);
    if below(path, base) is Some && path != base {
        let p = base + seq!['/'];
        assert(p.is_prefix_of(path));
        assert forall|k: int| 0 <= k < p.len() implies path[0 + k] == #[trigger] p[k] by {
            assert(path.subrange(0, p.len() as int)[k] == path[k]);
        }
    }
}

/// A manifest in a directory below the root is found there, relative to the root; one
/// in a directory elsewhere is outside.
pub proof fn law_place_of_a_manifest(root: Seq<char>, dir: Seq<char>, name: Seq<char>)
    requires
        rooted(root),
        rooted(dir),
        file_name(name),
    ensures
        match below(dir, root) {
            Some(relative) => exact_place(file_in(dir, name), root) == PlaceModel::Below(relative),
            None => exact_place(file_in(dir, name), root) == PlaceModel::Outside(dir),
        },
{
    law_file_stands_in_its_directory(dir, name);
}

/// Where the directory of a manifest is not known it stands nowhere; where it does
/// not start with the root it stands outside; else it stands at what follows, with
/// forward slashes.
pub proof fn law_place_given(dir: Seq<char>, stripped: Seq<char>, other: Option<Seq<char>>, i: int)
    ensures
        place_given(None, other) == PlaceModel::Nowhere,
        place_given(Some(dir), None) == PlaceModel::Outside(dir),
        place_given(Some(dir), Some(stripped)) matches PlaceModel::Below(relative)
            && relative.len() == stripped.len() && (0 <= i < stripped.len() ==> relative[i] == if stripped[i]
            == '\\' {
            '/'
        } else {
            stripped[i]
        }),
        forwarded(None) is None,
        forwarded(Some(stripped)) is Some,
{
}

/// Repeated slashes, and slashes at the end, do not count.
pub proof fn law_slashes_do_not_count(path: Seq<char>, more: Seq<char>)
    requires
        path.len() > 0,
        path.last() == '/',
    ensures
        squeezed(path.push('/')) == squeezed(path),
        unslashed(more + path) == unslashed((more + path).drop_last()) || (more + path).len() == 1,
        tidied(path.push('/')) == tidied(path),
{
    assert(path.push('/').drop_last() =~= path);
    assert(path.push('/')[path.len() - 1] == '/');
    assert((more + path).last() == '/');
}

} // verus!
