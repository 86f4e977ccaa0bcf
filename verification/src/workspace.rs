//! The members of the Cargo workspace, and which of them a command is about.

use vstd::prelude::*;

use crate::error::Error;
use crate::paths::Place;
use crate::paths;
use crate::sorted::StringSet;
use crate::sorted;
use crate::text::{copy_texts, same_text};
use crate::text;

verus! {

/// A member of the Cargo workspace.
#[derive(Debug)]
pub struct WorkspaceMember {
    /// The name of the package.
    pub name: String,
    /// The directory of the package, relative to the Buck2 project root, with
    /// forward slashes. It is empty for the project root itself.
    pub buck_rel_path: String,
}

/// A package that `cargo metadata` reports.
#[derive(Debug)]
pub struct MetadataPackage {
    pub name: String,
    pub manifest_path: String,
    /// Whether the package is a member of the workspace.
    pub is_member: bool,
}

/// The message for a directory outside the project root.
pub open spec fn outside_message(dir: Seq<char>, root: Seq<char>) -> Seq<char> {
    "package directory `"@ + dir + "` is outside the Buck2 project root `"@ + root + "`"@
}

/// `dir` relative to `root`, if `stripped` is what follows the root in it.
pub open spec fn relative_given(
    root: Seq<char>,
    dir: Seq<char>,
    stripped: Option<Seq<char>>,
) -> Result<Seq<char>, Seq<Seq<char>>> {
    match paths::forwarded(stripped) {
        Some(relative) => Ok(relative),
        None => Err(seq![outside_message(dir, root)]),
    }
}

/// `dir` relative to the project root, with forward slashes, if `stripped` is what
/// follows the project root in it.
pub fn relative_path_given(buck2_root: &str, dir: &str, stripped: Option<String>) -> (r: Result<
    String,
    Error,
>)
    ensures
        outcome(r) == relative_given(buck2_root@, dir@, text::view_opt(stripped)),
{
    match paths::forward(stripped) {
        Some(relative) => Ok(relative),
        None => Err(outside_error(buck2_root, dir)),
    }
}

/// The error for a directory outside the project root.
fn outside_error(buck2_root: &str, dir: &str) -> (r: Error)
    ensures
        r@ == seq![outside_message(dir@, buck2_root@)],
{
    let mut message = "package directory `".to_owned();
    message.append(dir);
    message.append("` is outside the Buck2 project root `");
    message.append(buck2_root);
    message.append("`");
    Error::new(message)
}

/// `dir` relative to the project root, with forward slashes.
pub fn buck_relative_path(buck2_root: &str, dir: &str) -> (r: Result<String, Error>)
    ensures
        paths::below_found(
            dir@,
            buck2_root@,
            match r {
                Ok(relative) => Some(relative@),
                Err(_) => None,
            },
        ),
        r matches Err(e) ==> e@ == seq![outside_message(dir@, buck2_root@)],
{
    let stripped = paths::strip_base(dir, buck2_root);
    proof {
        paths::lemma_forwarded(dir@, buck2_root@, text::view_opt(stripped));
    }
    relative_path_given(buck2_root, dir, stripped)
}

/// The directory of the package `name` whose manifest stands at `place`, relative
/// to `root`.
pub open spec fn package_path_in(
    place: paths::PlaceModel,
    name: Seq<char>,
    root: Seq<char>,
) -> Result<Seq<char>, Seq<Seq<char>>> {
    match place {
        paths::PlaceModel::Nowhere => Err(
            seq!["package `"@ + name + "` has no manifest directory"@],
        ),
        paths::PlaceModel::Outside(dir) => Err(seq![outside_message(dir, root)]),
        paths::PlaceModel::Below(relative) => Ok(relative),
    }
}

/// What can come of looking for the directory of a package below `root`. How
/// paths are taken apart that are not uniform depends on the platform.
pub open spec fn package_found(
    package: MetadataPackage,
    root: Seq<char>,
    found: Result<Seq<char>, Seq<Seq<char>>>,
) -> bool {
    exists|place: paths::PlaceModel| #[trigger]
        paths::place_found(package.manifest_path@, root, place) && found == package_path_in(
            place,
            package.name@,
            root,
        )
}

/// The outcome of a fallible operation, with texts for values.
pub open spec fn outcome(r: Result<String, Error>) -> Result<Seq<char>, Seq<Seq<char>>> {
    match r {
        Ok(s) => Ok(s@),
        Err(e) => Err(e@),
    }
}

/// The directory of the package `name` whose manifest stands at `place`, relative
/// to the project root.
pub fn package_path_given(place: Place, name: &str, buck2_root: &str) -> (r: Result<String, Error>)
    ensures
        outcome(r) == package_path_in(place@, name@, buck2_root@),
{
    match place {
        Place::Nowhere => {
            let mut message = "package `".to_owned();
            message.append(name);
            message.append("` has no manifest directory");
            let e = Error::new(message);
            proof {
                assert(e@ =~= seq!["package `"@ + name@ + "` has no manifest directory"@]);
            }
            Err(e)
        },
        Place::Outside(dir) => Err(outside_error(buck2_root, dir.as_str())),
        Place::Below(relative) => Ok(relative),
    }
}

/// The directory of a package, relative to the project root.
fn package_path(package: &MetadataPackage, buck2_root: &str) -> (r: Result<String, Error>)
    ensures
        package_found(*package, buck2_root@, outcome(r)),
{
    let place = paths::place_of(package.manifest_path.as_str(), buck2_root);
    let ghost p = place@;
    let r = package_path_given(place, package.name.as_str(), buck2_root);
    proof {
        assert(paths::place_found(package.manifest_path@, buck2_root@, p));
        assert(package_found(*package, buck2_root@, outcome(r)));
    }
    r
}

/// The name and the path of a member.
pub open spec fn member_model(m: WorkspaceMember) -> (Seq<char>, Seq<char>) {
    (m.name@, m.buck_rel_path@)
}

/// What came of looking for the directories of packages.
pub type Founds = Seq<Result<Seq<char>, Seq<Seq<char>>>>;

/// The members among the packages, given what came of looking for the directory
/// of each: all of them, or the error of the first whose directory was not found.
pub open spec fn members_given(packages: Seq<MetadataPackage>, founds: Founds) -> Result<
    Seq<(Seq<char>, Seq<char>)>,
    Seq<Seq<char>>,
>
    decreases founds.len(),
{
    if founds.len() == 0 {
        Ok(Seq::empty())
    } else {
        let package = packages[founds.len() - 1];
        match members_given(packages, founds.drop_last()) {
            Err(messages) => Err(messages),
            Ok(before) => if !package.is_member {
                Ok(before)
            } else {
                match founds.last() {
                    Err(messages) => Err(messages),
                    Ok(path) => Ok(before.push((package.name@, path))),
                }
            },
        }
    }
}

/// The models of what came of looking for the directories of packages.
pub open spec fn found_models(founds: Seq<Result<String, Error>>) -> Founds {
    founds.map_values(|f: Result<String, Error>| outcome(f))
}

/// The models of members, or the messages of an error.
pub open spec fn members_outcome(r: Result<Vec<WorkspaceMember>, Error>) -> Result<
    Seq<(Seq<char>, Seq<char>)>,
    Seq<Seq<char>>,
> {
    match r {
        Ok(members) => Ok(members@.map_values(|m: WorkspaceMember| member_model(m))),
        Err(e) => Err(e@),
    }
}

/// Whether `founds` can come of looking for the directories of the members.
pub open spec fn directories_found(
    packages: Seq<MetadataPackage>,
    root: Seq<char>,
    founds: Founds,
) -> bool {
    &&& founds.len() == packages.len()
    &&& forall|i: int|
        0 <= i < founds.len() && packages[i].is_member ==> package_found(
            packages[i],
            root,
            #[trigger] founds[i],
        )
}

/// Whether `r` can be the members among the packages.
pub open spec fn members_found(
    packages: Seq<MetadataPackage>,
    root: Seq<char>,
    r: Result<Seq<(Seq<char>, Seq<char>)>, Seq<Seq<char>>>,
) -> bool {
    exists|founds: Founds| #[trigger]
        directories_found(packages, root, founds) && r == members_given(packages, founds)
}

proof fn lemma_first_error(packages: Seq<MetadataPackage>, founds: Founds, n: int)
    requires
        0 <= n <= founds.len(),
        members_given(packages, founds.take(n)) is Err,
    ensures
        members_given(packages, founds) == members_given(packages, founds.take(n)),
    decreases founds.len(),
{
    if n == founds.len() {
        assert(founds.take(n) =~= founds);
    } else {
        assert(founds.drop_last().take(n) =~= founds.take(n));
        lemma_first_error(packages, founds.drop_last(), n);
    }
}

/// The members among the packages, given what came of looking for the directory
/// of each.
pub fn members_from(packages: &Vec<MetadataPackage>, founds: Vec<Result<String, Error>>) -> (r:
    Result<Vec<WorkspaceMember>, Error>)
    requires
        founds@.len() == packages@.len(),
    ensures
        members_outcome(r) == members_given(packages@, found_models(founds@)),
{
    let ghost all = found_models(founds@);
    let ghost model = |m: WorkspaceMember| member_model(m);
    let mut rest = founds;
    let mut members: Vec<WorkspaceMember> = Vec::new();
    let mut i: usize = 0;
    proof {
        assert(members@.map_values(model) =~= Seq::empty());
        assert(rest@ =~= founds@.skip(0));
    }
    while i < packages.len()
        invariant
            i <= packages@.len(),
            founds@.len() == packages@.len(),
            all == found_models(founds@),
            rest@ == founds@.skip(i as int),
            model == (|m: WorkspaceMember| member_model(m)),
            members_given(packages@, all.take(i as int)) == Ok::<
                Seq<(Seq<char>, Seq<char>)>,
                Seq<Seq<char>>,
            >(members@.map_values(model)),
        decreases packages@.len() - i,
    {
        let package = &packages[i];
        let ghost had = members@;
        let found = rest.remove(0);
        proof {
            assert(rest@ =~= founds@.skip(i + 1));
            assert(all.take(i + 1).drop_last() =~= all.take(i as int));
            assert(all.take(i + 1).last() == outcome(found));
        }
        if package.is_member {
            match found {
                Ok(path) => {
                    members.push(
                        WorkspaceMember { name: package.name.clone(), buck_rel_path: path },
                    );
                    proof {
                        assert(members@.map_values(model) =~= had.map_values(model).push(
                            (package.name@, path@),
                        ));
                    }
                },
                Err(e) => {
                    proof {
                        lemma_first_error(packages@, all, i + 1);
                    }
                    return Err(e);
                },
            }
        }
        i = i + 1;
    }
    proof {
        assert(all.take(i as int) =~= all);
    }
    Ok(members)
}

/// The members of the workspace, among the packages that `cargo metadata`
/// reports, with their directories relative to the project root.
pub fn workspace_members(buck2_root: &str, packages: &Vec<MetadataPackage>) -> (r: Result<
    Vec<WorkspaceMember>,
    Error,
>)
    ensures
        members_found(packages@, buck2_root@, members_outcome(r)),
{
    let mut founds: Vec<Result<String, Error>> = Vec::new();
    let mut i: usize = 0;
    while i < packages.len()
        invariant
            i <= packages@.len(),
            founds@.len() == i,
            forall|j: int|
                0 <= j < i && packages@[j].is_member ==> package_found(
                    packages@[j],
                    buck2_root@,
                    outcome(#[trigger] founds@[j]),
                ),
        decreases packages@.len() - i,
    {
        let found = if packages[i].is_member {
            package_path(&packages[i], buck2_root)
        } else {
            Ok(String::new())
        };
        founds.push(found);
        i = i + 1;
    }
    let ghost all = found_models(founds@);
    proof {
        assert forall|j: int| 0 <= j < all.len() && packages@[j].is_member implies package_found(
            packages@[j],
            buck2_root@,
            #[trigger] all[j],
        ) by {
            assert(all[j] == outcome(founds@[j]));
        }
        assert(directories_found(packages@, buck2_root@, all));
    }
    members_from(packages, founds)
}

/// The paths of the members that are not among `exclude`, in order.
pub open spec fn paths_kept(
    members: Seq<WorkspaceMember>,
    exclude: Seq<Seq<char>>,
) -> Seq<Seq<char>>
    decreases members.len(),
{
    if members.len() == 0 {
        Seq::empty()
    } else {
        let before = paths_kept(members.drop_last(), exclude);
        if exclude.contains(members.last().name@) {
            before
        } else {
            before.push(members.last().buck_rel_path@)
        }
    }
}

/// The path of the first member with this name.
pub open spec fn member_path(members: Seq<WorkspaceMember>, name: Seq<char>) -> Option<Seq<char>>
    decreases members.len(),
{
    if members.len() == 0 {
        None
    } else if members[0].name@ == name {
        Some(members[0].buck_rel_path@)
    } else {
        member_path(members.drop_first(), name)
    }
}

/// The message for a package that is no member.
pub open spec fn unknown_message(name: Seq<char>) -> Seq<char> {
    "package `"@ + name + "` not found in the Cargo workspace"@
}

/// The paths of the members with these names, or the message for the first name
/// that no member has.
pub open spec fn paths_named(
    members: Seq<WorkspaceMember>,
    names: Seq<Seq<char>>,
) -> Result<Seq<Seq<char>>, Seq<char>>
    decreases names.len(),
{
    if names.len() == 0 {
        Ok(Seq::empty())
    } else {
        match paths_named(members, names.drop_last()) {
            Err(message) => Err(message),
            Ok(before) => match member_path(members, names.last()) {
                Some(path) => Ok(before.push(path)),
                None => Err(unknown_message(names.last())),
            },
        }
    }
}

/// The message for `--exclude` without `--workspace`.
pub open spec fn exclude_message() -> Seq<char> {
    "`--exclude` can only be used together with `--workspace`"@
}

/// The paths that the flags select, each once and in order. A member at the
/// project root stands for everything, and so takes the place of all.
pub open spec fn scope(
    members: Seq<WorkspaceMember>,
    packages: Seq<Seq<char>>,
    workspace: bool,
    exclude: Seq<Seq<char>>,
) -> Result<Seq<Seq<char>>, Seq<char>> {
    let selected = if workspace {
        Ok(paths_kept(members, exclude))
    } else if exclude.len() > 0 {
        Err(exclude_message())
    } else {
        paths_named(members, packages)
    };
    match selected {
        Err(message) => Err(message),
        Ok(paths) => if paths.len() == 0 {
            Err("no packages left to operate on after applying `--exclude`"@)
        } else if paths.contains(Seq::empty()) {
            Ok(seq![Seq::empty()])
        } else {
            Ok(sorted::in_order(paths.to_set()))
        },
    }
}

/// Whether `list` holds the text `s`.
fn holds(list: &[String], s: &str) -> (r: bool)
    ensures
        r == text::views(list@).contains(s@),
{
    let mut i: usize = 0;
    while i < list.len()
        invariant
            i <= list@.len(),
            forall|j: int| 0 <= j < i ==> #[trigger] text::views(list@)[j] != s@,
        decreases list@.len() - i,
    {
        if same_text(list[i].as_str(), s) {
            proof {
                assert(text::views(list@)[i as int] == s@);
            }
            return true;
        }
        i = i + 1;
    }
    false
}

/// The path of the first member with this name.
fn find_member(members: &[WorkspaceMember], name: &str) -> (r: Option<String>)
    ensures
        text::view_opt(r) == member_path(members@, name@),
{
    let mut i: usize = 0;
    proof {
        assert(members@.skip(0) =~= members@);
    }
    while i < members.len()
        invariant
            i <= members@.len(),
            member_path(members@, name@) == member_path(members@.skip(i as int), name@),
        decreases members@.len() - i,
    {
        proof {
            assert(members@.skip(i as int)[0] == members@[i as int]);
            assert(members@.skip(i as int).drop_first() =~= members@.skip(i + 1));
        }
        if same_text(members[i].name.as_str(), name) {
            return Some(members[i].buck_rel_path.clone());
        }
        i = i + 1;
    }
    None
}

/// The paths of the members that are not among `exclude`, in order.
fn keep_paths(members: &[WorkspaceMember], exclude: &[String]) -> (r: Vec<String>)
    ensures
        text::views(r@) == paths_kept(members@, text::views(exclude@)),
{
    let mut out: Vec<String> = Vec::new();
    let mut i: usize = 0;
    while i < members.len()
        invariant
            i <= members@.len(),
            text::views(out@) == paths_kept(members@.take(i as int), text::views(exclude@)),
        decreases members@.len() - i,
    {
        proof {
            assert(members@.take(i + 1).drop_last() =~= members@.take(i as int));
        }
        if !holds(exclude, members[i].name.as_str()) {
            let ghost before = text::views(out@);
            out.push(members[i].buck_rel_path.clone());
            proof {
                assert(text::views(out@) =~= before.push(members@[i as int].buck_rel_path@));
            }
        }
        i = i + 1;
    }
    proof {
        assert(members@.take(i as int) =~= members@);
    }
    out
}

/// The message for a package that is no member.
fn unknown_package(name: &str) -> (r: String)
    ensures
        r@ == unknown_message(name@),
{
    let mut message = "package `".to_owned();
    message.append(name);
    message.append("` not found in the Cargo workspace");
    message
}

/// The paths of the members with these names.
fn named_paths(members: &[WorkspaceMember], names: &[String]) -> (r: Result<Vec<String>, String>)
    ensures
        paths_named(members@, text::views(names@)) == match r {
            Ok(paths) => Ok::<Seq<Seq<char>>, Seq<char>>(text::views(paths@)),
            Err(message) => Err(message@),
        },
{
    let mut out: Vec<String> = Vec::new();
    let ghost all = text::views(names@);
    let mut i: usize = 0;
    proof {
        assert(text::views(out@) =~= Seq::<Seq<char>>::empty());
        assert(all.take(0) =~= Seq::empty());
    }
    while i < names.len()
        invariant
            i <= names@.len(),
            all == text::views(names@),
            paths_named(members@, all.take(i as int)) == Ok::<Seq<Seq<char>>, Seq<char>>(
                text::views(out@),
            ),
        decreases names@.len() - i,
    {
        proof {
            assert(all.take(i + 1).drop_last() =~= all.take(i as int));
            assert(all.take(i + 1).last() == names@[i as int]@);
        }
        match find_member(members, names[i].as_str()) {
            Some(path) => {
                let ghost before = text::views(out@);
                out.push(path);
                proof {
                    assert(text::views(out@) =~= before.push(path@));
                }
            },
            None => {
                proof {
                    lemma_paths_named_fails(members@, all, i as int);
                }
                return Err(unknown_package(names[i].as_str()));
            },
        }
        i = i + 1;
    }
    proof {
        assert(all.take(i as int) =~= all);
    }
    Ok(out)
}

proof fn lemma_paths_named_fails(members: Seq<WorkspaceMember>, names: Seq<Seq<char>>, i: int)
    requires
        0 <= i < names.len(),
        paths_named(members, names.take(i)) is Ok,
        member_path(members, names[i]) is None,
    ensures
        paths_named(members, names) == Err::<Seq<Seq<char>>, Seq<char>>(unknown_message(names[i])),
    decreases names.len() - i,
{
    if i == names.len() - 1 {
        assert(names.drop_last() =~= names.take(i));
    } else {
        let head = names.drop_last();
        assert(head.take(i) =~= names.take(i));
        lemma_paths_named_fails(members, head, i);
    }
}

/// The paths that the flags `--package`, `--workspace` and `--exclude` select
/// among the members.
pub fn select_scope_paths(
    members: &[WorkspaceMember],
    packages: &[String],
    workspace: bool,
    exclude: &[String],
) -> (r: Result<Vec<String>, Error>)
    ensures
        match scope(members@, text::views(packages@), workspace, text::views(exclude@)) {
            Ok(paths) => r matches Ok(v) && text::views(v@) == paths,
            Err(message) => r matches Err(e) && e@ == seq![message],
        },
{
    let paths = if workspace {
        keep_paths(members, exclude)
    } else {
        if exclude.len() > 0 {
            return Err(
                Error::new("`--exclude` can only be used together with `--workspace`".to_owned()),
            );
        }
        match named_paths(members, packages) {
            Ok(paths) => paths,
            Err(message) => {
                return Err(Error::new(message));
            },
        }
    };
    proof {
        assert(text::views(paths@).len() == paths@.len());
    }
    if paths.len() == 0 {
        return Err(
            Error::new("no packages left to operate on after applying `--exclude`".to_owned()),
        );
    }
    proof {
        reveal_strlit("");
        assert(""@ =~= Seq::<char>::empty());
    }
    if crate::text::contains_text(&paths, "") {
        let mut out: Vec<String> = Vec::new();
        out.push(String::new());
        proof {
            assert(text::views(out@) =~= seq![Seq::<char>::empty()]);
        }
        return Ok(out);
    }
    let set = StringSet::from_list(&paths);
    Ok(copy_texts(set.items()))
}

/// Whether the flags name packages of the workspace, so that its members have to
/// be known.
pub fn needs_members(packages: &[String], workspace: bool) -> (r: bool)
    ensures
        r == (workspace || packages@.len() > 0),
{
    workspace || packages.len() > 0
}

/// The paths that a command is about: those that the flags select, or where none
/// does, the directory that it was given in.
pub open spec fn scope_or_here(
    members: Seq<WorkspaceMember>,
    packages: Seq<Seq<char>>,
    workspace: bool,
    exclude: Seq<Seq<char>>,
    here: Seq<char>,
) -> Result<Seq<Seq<char>>, Seq<char>> {
    if workspace || packages.len() > 0 {
        scope(members, packages, workspace, exclude)
    } else if exclude.len() > 0 {
        Err(exclude_message())
    } else {
        Ok(seq![here])
    }
}

/// The paths that a command is about: those that the flags select among the
/// members, or where no flag does, the directory that it was given in.
pub fn resolve_scope(
    packages: &[String],
    workspace: bool,
    exclude: &[String],
    cwd_relative: &str,
    members: &[WorkspaceMember],
) -> (r: Result<Vec<String>, Error>)
    ensures
        match scope_or_here(
            members@,
            text::views(packages@),
            workspace,
            text::views(exclude@),
            cwd_relative@,
        ) {
            Ok(paths) => r matches Ok(v) && text::views(v@) == paths,
            Err(message) => r matches Err(e) && e@ == seq![message],
        },
        if workspace || packages@.len() > 0 {
            match scope(members@, text::views(packages@), workspace, text::views(exclude@)) {
                Ok(paths) => r matches Ok(v) && text::views(v@) == paths,
                Err(message) => r matches Err(e) && e@ == seq![message],
            }
        } else if exclude@.len() > 0 {
            r matches Err(e) && e@ == seq![exclude_message()]
        } else {
            r matches Ok(v) && text::views(v@) == seq![cwd_relative@]
        },
{
    if !needs_members(packages, workspace) {
        if exclude.len() > 0 {
            return Err(
                Error::new("`--exclude` can only be used together with `--workspace`".to_owned()),
            );
        }
        let mut out: Vec<String> = Vec::new();
        out.push(cwd_relative.to_owned());
        proof {
            assert(text::views(out@) =~= seq![cwd_relative@]);
        }
        return Ok(out);
    }
    select_scope_paths(members, packages, workspace, exclude)
}

/// The path of the member with this name.
pub fn resolve_member_path(name: &str, members: &[WorkspaceMember]) -> (r: Result<String, Error>)
    ensures
        match member_path(members@, name@) {
            Some(path) => r matches Ok(s) && s@ == path,
            None => r matches Err(e) && e@ == seq![unknown_message(name@)],
        },
{
    match find_member(members, name) {
        Some(path) => Ok(path),
        None => Err(Error::new(unknown_package(name))),
    }
}

proof fn lemma_paths_named(members: Seq<WorkspaceMember>, names: Seq<Seq<char>>)
    ensures
        paths_named(members, names) is Ok <==> forall|i: int|
            0 <= i < names.len() ==> member_path(members, #[trigger] names[i]) is Some,
        paths_named(members, names) matches Ok(paths) ==> paths.len() == names.len() && forall|
            i: int,
        |
            0 <= i < names.len() ==> member_path(members, #[trigger] names[i]) == Some(paths[i]),
    decreases names.len(),
{
    if names.len() > 0 {
        let head = names.drop_last();
        lemma_paths_named(members, head);
        assert forall|i: int| 0 <= i < head.len() implies head[i] == #[trigger] names[i] by {}
        if paths_named(members, head) is Err {
            let i = choose|i: int|
                0 <= i < head.len() && member_path(members, #[trigger] head[i]) is None;
            assert(member_path(members, names[i]) is None);
        } else if member_path(members, names.last()) is None {
            assert(member_path(members, names[names.len() - 1]) is None);
        } else {
            let before = paths_named(members, head)->Ok_0;
            let paths = paths_named(members, names)->Ok_0;
            assert forall|i: int| 0 <= i < names.len() implies member_path(
                members,
                #[trigger] names[i],
            ) == Some(paths[i]) by {
                if i < head.len() {
                    assert(member_path(members, head[i]) == Some(before[i]));
                }
            }
        }
    }
}

proof fn lemma_same_paths(
    members: Seq<WorkspaceMember>,
    a: Seq<Seq<char>>,
    b: Seq<Seq<char>>,
    pa: Seq<Seq<char>>,
    pb: Seq<Seq<char>>,
    path: Seq<char>,
)
    requires
        a.to_set() == b.to_set(),
        paths_named(members, a) == Ok::<Seq<Seq<char>>, Seq<char>>(pa),
        paths_named(members, b) == Ok::<Seq<Seq<char>>, Seq<char>>(pb),
        pa.contains(path),
    ensures
        pb.contains(path),
{
    lemma_paths_named(members, a);
    lemma_paths_named(members, b);
    let i = choose|i: int| 0 <= i < pa.len() && pa[i] == path;
    assert(member_path(members, a[i]) == Some(pa[i]));
    assert(a.contains(a[i]));
    assert(a.to_set().contains(a[i]));
    assert(b.to_set().contains(a[i]) == b.contains(a[i]));
    let j = choose|j: int| 0 <= j < b.len() && b[j] == a[i];
    assert(member_path(members, b[j]) == Some(pb[j]));
}

/// In which order packages are named, and how often, makes no difference to what
/// is selected.
pub proof fn law_order_of_names_does_not_matter(
    members: Seq<WorkspaceMember>,
    a: Seq<Seq<char>>,
    b: Seq<Seq<char>>,
    workspace: bool,
    exclude: Seq<Seq<char>>,
)
    requires
        a.to_set() == b.to_set(),
    ensures
        scope(members, a, workspace, exclude) is Ok ==> scope(members, a, workspace, exclude)
            == scope(members, b, workspace, exclude),
{
    if !workspace && exclude.len() == 0 && scope(members, a, workspace, exclude) is Ok {
        lemma_paths_named(members, a);
        lemma_paths_named(members, b);
        assert forall|i: int| 0 <= i < b.len() implies member_path(
            members,
            #[trigger] b[i],
        ) is Some by {
            assert(b.contains(b[i]));
            assert(b.to_set().contains(b[i]));
            assert(a.to_set().contains(b[i]) == a.contains(b[i]));
            let j = choose|j: int| 0 <= j < a.len() && a[j] == b[i];
            assert(member_path(members, a[j]) is Some);
        }
        let pa = paths_named(members, a)->Ok_0;
        let pb = paths_named(members, b)->Ok_0;
        assert forall|path: Seq<char>| pa.contains(path) == pb.contains(path) by {
            if pa.contains(path) {
                lemma_same_paths(members, a, b, pa, pb, path);
            }
            if pb.contains(path) {
                lemma_same_paths(members, b, a, pb, pa, path);
            }
        }
        assert(pa.contains(pa[0]));
        assert(pb.contains(pa[0]));
        assert forall|path: Seq<char>| pa.to_set().contains(path) == pb.to_set().contains(path) by {
            assert(pa.to_set().contains(path) == pa.contains(path));
            assert(pb.to_set().contains(path) == pb.contains(path));
        }
        assert(pa.to_set() =~= pb.to_set());
    }
}

/// Whether the `i`-th package is a member whose directory was found at `path`.
pub open spec fn is_found_member(
    packages: Seq<MetadataPackage>,
    founds: Founds,
    i: int,
    name: Seq<char>,
    path: Seq<char>,
) -> bool {
    &&& 0 <= i < founds.len()
    &&& packages[i].is_member
    &&& packages[i].name@ == name
    &&& founds[i] == Ok::<Seq<char>, Seq<Seq<char>>>(path)
}

/// Whether the `i`-th package is the first member whose directory was not found.
pub open spec fn is_first_lost(packages: Seq<MetadataPackage>, founds: Founds, i: int) -> bool {
    &&& 0 <= i < founds.len()
    &&& packages[i].is_member
    &&& founds[i] is Err
    &&& forall|j: int| 0 <= j < i && packages[j].is_member ==> #[trigger] founds[j] is Ok
}

/// The members are the packages that are members, each with its own directory, and
/// no others. They are there if and only if the directory of each was found; else
/// the error of the first that was not is told. What is not a member does not count.
pub proof fn law_members_are_those_found(
    packages: Seq<MetadataPackage>,
    founds: Founds,
    name: Seq<char>,
    path: Seq<char>,
)
    requires
        founds.len() <= packages.len(),
    ensures
        members_given(packages, founds) is Ok <==> forall|i: int|
            0 <= i < founds.len() && packages[i].is_member ==> #[trigger] founds[i] is Ok,
        members_given(packages, founds) matches Ok(members) ==> (members.contains((name, path))
            <==> exists|i: int| #[trigger] is_found_member(packages, founds, i, name, path)),
        members_given(packages, founds) is Err ==> exists|i: int| #[trigger]
            is_first_lost(packages, founds, i) && founds[i]->Err_0 == members_given(
                packages,
                founds,
            )->Err_0,
    decreases founds.len(),
{
    if founds.len() > 0 {
        let head = founds.drop_last();
        let n = founds.len() - 1;
        law_members_are_those_found(packages, head, name, path);
        assert forall|i: int| 0 <= i < n implies #[trigger] founds[i] == head[i] by {}
        match members_given(packages, head) {
            Err(messages) => {
                let i = choose|i: int| #[trigger]
                    is_first_lost(packages, head, i) && head[i]->Err_0 == messages;
                assert(founds[i] is Err);
                assert(is_first_lost(packages, founds, i));
            },
            Ok(before) => {
                if packages[n].is_member && founds[n] is Err {
                    assert(is_first_lost(packages, founds, n));
                } else {
                    let now = members_given(packages, founds)->Ok_0;
                    if before.contains((name, path)) {
                        let k = choose|k: int| 0 <= k < before.len() && before[k] == (name, path);
                        assert(now[k] == (name, path));
                        let i = choose|i: int| #[trigger]
                            is_found_member(packages, head, i, name, path);
                        assert(is_found_member(packages, founds, i, name, path));
                    }
                    if now.contains((name, path)) && !before.contains((name, path)) {
                        let k = choose|k: int| 0 <= k < now.len() && now[k] == (name, path);
                        if k < before.len() {
                            assert(before[k] == (name, path));
                        }
                        assert(is_found_member(packages, founds, n, name, path));
                    }
                    if exists|i: int| #[trigger]
                        is_found_member(packages, founds, i, name, path) {
                        let i = choose|i: int| #[trigger]
                            is_found_member(packages, founds, i, name, path);
                        if i < n {
                            assert(is_found_member(packages, head, i, name, path));
                        } else {
                            assert(now[before.len() as int] == (name, path));
                        }
                    }
                }
            },
        }
    }
}

/// The members come in the order of the packages.
pub proof fn law_members_keep_their_order(
    packages: Seq<MetadataPackage>,
    founds: Founds,
    found: Result<Seq<char>, Seq<Seq<char>>>,
)
    requires
        founds.len() < packages.len(),
        members_given(packages, founds) is Ok,
    ensures
        ({
            let before = members_given(packages, founds)->Ok_0;
            let package = packages[founds.len() as int];
            let now = members_given(packages, founds.push(found));
            &&& !package.is_member ==> now == Ok::<Seq<(Seq<char>, Seq<char>)>, Seq<Seq<char>>>(
                before,
            )
            &&& package.is_member && found is Ok ==> now == Ok::<
                Seq<(Seq<char>, Seq<char>)>,
                Seq<Seq<char>>,
            >(before.push((package.name@, found->Ok_0)))
        }),
        members_given(packages, Seq::empty()) == Ok::<
            Seq<(Seq<char>, Seq<char>)>,
            Seq<Seq<char>>,
        >(Seq::empty()),
{
    assert(founds.push(found).drop_last() =~= founds);
}

/// The paths that are kept of two lists of members are those of the first and then
/// those of the second. A member is kept if and only if its name is not excluded.
pub proof fn law_members_are_kept(
    a: Seq<WorkspaceMember>,
    b: Seq<WorkspaceMember>,
    exclude: Seq<Seq<char>>,
    m: WorkspaceMember,
)
    ensures
        paths_kept(a + b, exclude) == paths_kept(a, exclude) + paths_kept(b, exclude),
        (forall|i: int| 0 <= i < exclude.len() ==> #[trigger] exclude[i] != m.name@) ==> paths_kept(
            seq![m],
            exclude,
        ) == seq![m.buck_rel_path@],
        (exists|i: int| 0 <= i < exclude.len() && #[trigger] exclude[i] == m.name@) ==> paths_kept(
            seq![m],
            exclude,
        ).len() == 0,
    decreases b.len(),
{
    let one = seq![m];
    assert(one.drop_last() =~= Seq::<WorkspaceMember>::empty());
    assert(paths_kept(one.drop_last(), exclude) =~= Seq::<Seq<char>>::empty());
    assert(one.last() == m);
    assert(Seq::<Seq<char>>::empty().push(m.buck_rel_path@) =~= seq![m.buck_rel_path@]);
    if exists|i: int| 0 <= i < exclude.len() && #[trigger] exclude[i] == m.name@ {
        assert(exclude.contains(m.name@));
    }
    if b.len() == 0 {
        assert(a + b =~= a);
        assert(paths_kept(a, exclude) + paths_kept(b, exclude) =~= paths_kept(a, exclude));
    } else {
        law_members_are_kept(a, b.drop_last(), exclude, m);
        assert((a + b).drop_last() =~= a + b.drop_last());
        assert((a + b).last() == b.last());
        assert(paths_kept(a + b, exclude) =~= paths_kept(a, exclude) + paths_kept(b, exclude));
    }
}

/// Whether the `i`-th member is the first with this name.
pub open spec fn is_first_named(members: Seq<WorkspaceMember>, i: int, name: Seq<char>) -> bool {
    &&& 0 <= i < members.len()
    &&& members[i].name@ == name
    &&& forall|j: int| 0 <= j < i ==> (#[trigger] members[j]).name@ != name
}

/// A package is found at the path of the first member with its name, and only where
/// there is one.
pub proof fn law_member_is_found_by_name(members: Seq<WorkspaceMember>, name: Seq<char>)
    ensures
        member_path(members, name) is Some ==> exists|i: int| #[trigger]
            is_first_named(members, i, name) && member_path(members, name)
                == Some(members[i].buck_rel_path@),
        member_path(members, name) is None <==> forall|i: int|
            0 <= i < members.len() ==> (#[trigger] members[i]).name@ != name,
    decreases members.len(),
{
    if members.len() > 0 {
        if members[0].name@ == name {
            assert(is_first_named(members, 0, name));
        } else {
            let rest = members.drop_first();
            law_member_is_found_by_name(rest, name);
            assert forall|i: int| 0 < i < members.len() implies (#[trigger] members[i]) == rest[i
                - 1] by {}
            assert forall|i: int| 0 <= i < rest.len() implies (#[trigger] rest[i]) == members[i
                + 1] by {}
            if member_path(members, name) is Some {
                let i = choose|i: int| #[trigger]
                    is_first_named(rest, i, name) && member_path(rest, name)
                        == Some(rest[i].buck_rel_path@);
                assert forall|j: int| 0 <= j < i + 1 implies (
                #[trigger] members[j]).name@ != name by {
                    if j > 0 {
                        assert(rest[j - 1].name@ != name);
                    }
                }
                assert(is_first_named(members, i + 1, name));
            } else {
                assert forall|i: int| 0 <= i < members.len() implies (
                #[trigger] members[i]).name@ != name by {
                    if i > 0 {
                        assert(rest[i - 1].name@ != name);
                    }
                }
            }
            if forall|i: int| 0 <= i < members.len() ==> (#[trigger] members[i]).name@ != name {
                assert forall|i: int| 0 <= i < rest.len() implies (
                #[trigger] rest[i]).name@ != name by {
                    assert(members[i + 1].name@ != name);
                }
            }
        }
    }
}

/// Packages that are named are found each at its own path; the first that is no
/// member is told.
pub proof fn law_named_packages_are_found(
    members: Seq<WorkspaceMember>,
    names: Seq<Seq<char>>,
    i: int,
)
    ensures
        paths_named(members, names) is Ok <==> forall|k: int|
            0 <= k < names.len() ==> member_path(members, #[trigger] names[k]) is Some,
        paths_named(members, names) matches Ok(paths) ==> paths.len() == names.len() && (0 <= i
            < names.len() ==> member_path(members, names[i]) == Some(paths[i])),
        0 <= i < names.len() && member_path(members, names[i]) is None && (forall|k: int|
            0 <= k < i ==> member_path(members, #[trigger] names[k]) is Some) ==> paths_named(
            members,
            names,
        ) == Err::<Seq<Seq<char>>, Seq<char>>(
            "package `"@ + names[i] + "` not found in the Cargo workspace"@,
        ),
{
    lemma_paths_named(members, names);
    if 0 <= i < names.len() && member_path(members, names[i]) is None && (forall|k: int|
        0 <= k < i ==> member_path(members, #[trigger] names[k]) is Some) {
        let head = names.take(i);
        assert forall|k: int| 0 <= k < head.len() implies member_path(
            members,
            #[trigger] head[k],
        ) is Some by {
            assert(head[k] == names[k]);
        }
        lemma_paths_named(members, head);
        lemma_paths_named_fails(members, names, i);
    }
}

/// With `--workspace`, what is selected is every member that is not excluded, each
/// path once and in order. A member at the project root stands for everything. It is
/// an error where nothing is left.
pub proof fn law_workspace_scope(
    members: Seq<WorkspaceMember>,
    packages: Seq<Seq<char>>,
    exclude: Seq<Seq<char>>,
    path: Seq<char>,
)
    ensures
        ({
            let r = scope(members, packages, true, exclude);
            let kept = paths_kept(members, exclude);
            &&& r is Err <==> kept.len() == 0
            &&& kept.contains(Seq::<char>::empty()) ==> r == Ok::<Seq<Seq<char>>, Seq<char>>(
                seq![Seq::<char>::empty()],
            )
            &&& kept.len() > 0 && !kept.contains(Seq::<char>::empty()) ==> (r matches Ok(paths) && (
            paths.contains(path) <==> kept.contains(path)) && sorted::strictly_sorted(paths))
        }),
{
    lemma_selected(paths_kept(members, exclude), path);
}

/// Without `--workspace`, what is selected is the paths of the packages that are
/// named, each once and in order; `--exclude` is then an error, and so is a package
/// that is no member.
pub proof fn law_named_scope(
    members: Seq<WorkspaceMember>,
    packages: Seq<Seq<char>>,
    exclude: Seq<Seq<char>>,
    path: Seq<char>,
)
    ensures
        ({
            let r = scope(members, packages, false, exclude);
            &&& exclude.len() > 0 ==> r == Err::<Seq<Seq<char>>, Seq<char>>(
                "`--exclude` can only be used together with `--workspace`"@,
            )
            &&& exclude.len() == 0 ==> match paths_named(members, packages) {
                Err(message) => r == Err::<Seq<Seq<char>>, Seq<char>>(message),
                Ok(named) => {
                    &&& named.len() == 0 ==> r is Err
                    &&& named.contains(Seq::<char>::empty()) ==> r == Ok::<
                        Seq<Seq<char>>,
                        Seq<char>,
                    >(seq![Seq::<char>::empty()])
                    &&& named.len() > 0 && !named.contains(Seq::<char>::empty()) ==> (r matches Ok(
                        paths,
                    ) && (paths.contains(path) <==> named.contains(path))
                        && sorted::strictly_sorted(paths))
                },
            }
        }),
{
    if paths_named(members, packages) is Ok {
        lemma_selected(paths_named(members, packages)->Ok_0, path);
    }
}

proof fn lemma_selected(paths: Seq<Seq<char>>, path: Seq<char>)
    ensures
        sorted::strictly_sorted(sorted::in_order(paths.to_set())),
        sorted::in_order(paths.to_set()).contains(path) <==> paths.contains(path),
{
    let set = paths.to_set();
    vstd::seq_lib::seq_to_set_is_finite(paths);
    sorted::lemma_in_order_is_order(set);
    let q = sorted::in_order(set);
    assert(q.to_set().contains(path) <==> q.contains(path));
    assert(set.contains(path) <==> paths.contains(path));
}

/// A manifest in no directory, and one outside the project root, are errors that
/// say so; else the directory relative to the root is what there is.
pub proof fn law_package_path(place: paths::PlaceModel, name: Seq<char>, root: Seq<char>)
    ensures
        package_path_in(place, name, root) is Ok <==> place is Below,
        place matches paths::PlaceModel::Below(relative) ==> package_path_in(place, name, root)
            == Ok::<Seq<char>, Seq<Seq<char>>>(relative),
        place matches paths::PlaceModel::Outside(dir) ==> package_path_in(place, name, root) == Err::<
            Seq<char>,
            Seq<Seq<char>>,
        >(
            seq![
                "package directory `"@ + dir + "` is outside the Buck2 project root `"@ + root
                    + "`"@,
            ],
        ),
        place is Nowhere ==> package_path_in(place, name, root) == Err::<
            Seq<char>,
            Seq<Seq<char>>,
        >(seq!["package `"@ + name + "` has no manifest directory"@]),
{
}

/// A directory below the project root is what follows the root, with forward
/// slashes; any other is an error that tells both.
pub proof fn law_relative_path_given(root: Seq<char>, dir: Seq<char>, stripped: Seq<char>, i: int)
    ensures
        relative_given(root, dir, None) == Err::<Seq<char>, Seq<Seq<char>>>(
            seq![
                "package directory `"@ + dir + "` is outside the Buck2 project root `"@ + root
                    + "`"@,
            ],
        ),
        relative_given(root, dir, Some(stripped)) matches Ok(relative) && relative.len()
            == stripped.len() && (0 <= i < stripped.len() ==> relative[i] == if stripped[i] == '\\' {
            '/'
        } else {
            stripped[i]
        }),
{
}

/// Where no package is named and the workspace is not asked for, a command is about
/// the directory that it was given in, and about that alone; `--exclude` is then an
/// error. Else the flags decide, whatever the directory.
pub proof fn law_commands_are_about_here(
    members: Seq<WorkspaceMember>,
    packages: Seq<Seq<char>>,
    workspace: bool,
    exclude: Seq<Seq<char>>,
    here: Seq<char>,
)
    ensures
        !workspace && packages.len() == 0 && exclude.len() == 0 ==> scope_or_here(
            members,
            packages,
            workspace,
            exclude,
            here,
        ) == Ok::<Seq<Seq<char>>, Seq<char>>(seq![here]),
        !workspace && exclude.len() > 0 ==> scope_or_here(
            members,
            packages,
            workspace,
            exclude,
            here,
        ) == Err::<Seq<Seq<char>>, Seq<char>>(
            "`--exclude` can only be used together with `--workspace`"@,
        ),
        workspace || packages.len() > 0 ==> scope_or_here(
            members,
            packages,
            workspace,
            exclude,
            here,
        ) == scope(members, packages, workspace, exclude),
{
}

} // verus!
