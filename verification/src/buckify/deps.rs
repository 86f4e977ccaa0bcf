//! The dependencies of a generated rule.

use vstd::prelude::*;

use crate::error::{Error, Notice, NoticeModel};
use crate::error;
use crate::paths::Place;
use crate::paths;
use crate::resolve::{
    BuckalDep, BuckalDepKind, BuckalNode, BuckalTarget, CargoTargetKind, DependencyKind, NodeKind, Os,
    TargetKind, TargetPlatform,
};
use crate::sorted::{StringMap, StringSet};
use crate::sorted;
use crate::text::{number, replace_char, same_text};
use crate::text;

verus! {

/// Whether a dependency of the kind `dep` is seen by a target of the kind
/// `target`. A test sees the development dependencies and the normal ones, a
/// build script the build dependencies, and everything else the normal ones.
pub open spec fn kind_matches(target: CargoTargetKind, dep: DependencyKind) -> bool {
    match target {
        CargoTargetKind::CustomBuild => dep == DependencyKind::Build,
        CargoTargetKind::Test => dep != DependencyKind::Build,
        _ => dep == DependencyKind::Normal,
    }
}

/// Whether a dependency of the kind `dep_kind` is seen by a target of the kind
/// `target_kind`.
pub fn dep_kind_matches(target_kind: CargoTargetKind, dep_kind: DependencyKind) -> (r: bool)
    ensures
        r == kind_matches(target_kind, dep_kind),
{
    match target_kind {
        CargoTargetKind::CustomBuild => dep_kind == DependencyKind::Build,
        CargoTargetKind::Test => {
            dep_kind == DependencyKind::Development || dep_kind == DependencyKind::Normal
        },
        _ => dep_kind == DependencyKind::Normal,
    }
}

/// The library targets, in order.
pub open spec fn lib_targets(targets: Seq<BuckalTarget>) -> Seq<BuckalTarget>
    decreases targets.len(),
{
    if targets.len() == 0 {
        Seq::empty()
    } else if targets.last().is_lib() {
        lib_targets(targets.drop_last()).push(targets.last())
    } else {
        lib_targets(targets.drop_last())
    }
}

/// The names of the library targets, in order.
pub open spec fn lib_names(targets: Seq<BuckalTarget>) -> Seq<Seq<char>> {
    lib_targets(targets).map_values(|t: BuckalTarget| t.name@)
}

/// The binary targets, in order.
pub open spec fn bin_targets(targets: Seq<BuckalTarget>) -> Seq<BuckalTarget>
    decreases targets.len(),
{
    if targets.len() == 0 {
        Seq::empty()
    } else if targets.last().is_of(TargetKind::Bin) {
        bin_targets(targets.drop_last()).push(targets.last())
    } else {
        bin_targets(targets.drop_last())
    }
}

/// The names of the binary targets, in order.
pub open spec fn bin_names(targets: Seq<BuckalTarget>) -> Seq<Seq<char>> {
    bin_targets(targets).map_values(|t: BuckalTarget| t.name@)
}

/// The names of the targets.
pub open spec fn target_names(targets: Seq<&BuckalTarget>) -> Seq<Seq<char>> {
    targets.map_values(|t: &BuckalTarget| t.name@)
}

/// The targets that references lead to.
pub open spec fn pointed_at(targets: Seq<&BuckalTarget>) -> Seq<BuckalTarget> {
    targets.map_values(|t: &BuckalTarget| *t)
}

/// The library targets of `node`, in order.
pub fn get_lib_targets(node: &BuckalNode) -> (r: Vec<&BuckalTarget>)
    ensures
        pointed_at(r@) == lib_targets(node.targets@),
        target_names(r@) == lib_names(node.targets@),
{
    let mut out: Vec<&BuckalTarget> = Vec::new();
    let mut i: usize = 0;
    while i < node.targets.len()
        invariant
            i <= node.targets@.len(),
            pointed_at(out@) == lib_targets(node.targets@.take(i as int)),
        decreases node.targets@.len() - i,
    {
        proof {
            assert(node.targets@.take(i + 1).drop_last() =~= node.targets@.take(i as int));
        }
        let ghost before = out@;
        if node.targets[i].is_library() {
            out.push(&node.targets[i]);
            proof {
                assert(pointed_at(out@) =~= pointed_at(before).push(node.targets@[i as int]));
            }
        }
        i = i + 1;
    }
    proof {
        assert(node.targets@.take(i as int) =~= node.targets@);
        assert(target_names(out@) =~= pointed_at(out@).map_values(|t: BuckalTarget| t.name@));
    }
    out
}

/// The binary targets of `node`, in order.
pub fn get_bin_targets(node: &BuckalNode) -> (r: Vec<&BuckalTarget>)
    ensures
        pointed_at(r@) == bin_targets(node.targets@),
        target_names(r@) == bin_names(node.targets@),
{
    let mut out: Vec<&BuckalTarget> = Vec::new();
    let mut i: usize = 0;
    while i < node.targets.len()
        invariant
            i <= node.targets@.len(),
            pointed_at(out@) == bin_targets(node.targets@.take(i as int)),
        decreases node.targets@.len() - i,
    {
        proof {
            assert(node.targets@.take(i + 1).drop_last() =~= node.targets@.take(i as int));
        }
        let ghost before = out@;
        if node.targets[i].has_kind(TargetKind::Bin) {
            out.push(&node.targets[i]);
            proof {
                assert(pointed_at(out@) =~= pointed_at(before).push(node.targets@[i as int]));
            }
        }
        i = i + 1;
    }
    proof {
        assert(node.targets@.take(i as int) =~= node.targets@);
        assert(target_names(out@) =~= pointed_at(out@).map_values(|t: BuckalTarget| t.name@));
    }
    out
}

/// The name of the rule for a library that shares its package with the binaries
/// `bins`: where one of them has its name too, the library's rule gives way.
pub open spec fn library_rule_name(bins: Seq<Seq<char>>, lib: Seq<char>) -> Seq<char> {
    if bins.contains(lib) {
        lib + "-lib"@
    } else {
        lib
    }
}

/// The name of the rule for the first of the library targets.
pub fn resolve_buckal_name(
    dep_bin_targets: &[&BuckalTarget],
    dep_lib_targets: &[&BuckalTarget],
) -> (r: String)
    requires
        dep_lib_targets@.len() > 0,
    ensures
        r@ == library_rule_name(target_names(dep_bin_targets@), dep_lib_targets@[0].name@),
{
    let mut i: usize = 0;
    let name = dep_lib_targets[0].name.as_str();
    while i < dep_bin_targets.len()
        invariant
            i <= dep_bin_targets@.len(),
            name@ == dep_lib_targets@[0].name@,
            forall|j: int| 0 <= j < i ==> #[trigger] dep_bin_targets@[j].name@ != name@,
        decreases dep_bin_targets@.len() - i,
    {
        if same_text(dep_bin_targets[i].name.as_str(), name) {
            proof {
                assert(target_names(dep_bin_targets@)[i as int] == name@);
            }
            let mut out = name.to_owned();
            out.append("-lib");
            return out;
        }
        i = i + 1;
    }
    name.to_owned()
}

/// The messages of the error for a directory outside the project root.
pub open spec fn outside_root(dir: Seq<char>, root: Seq<char>) -> Seq<Seq<char>> {
    seq![
        "dependency manifest dir `"@ + dir + "` is not under Buck2 root `"@ + root + "`"@,
    ]
}

/// The directory of a manifest that stands at `place`, relative to `root`.
pub open spec fn directory_in(place: paths::PlaceModel, root: Seq<char>) -> Result<
    Seq<char>,
    Seq<Seq<char>>,
> {
    match place {
        paths::PlaceModel::Nowhere => Err(
            seq!["manifest_path should always have a parent directory"@],
        ),
        paths::PlaceModel::Outside(dir) => Err(outside_root(dir, root)),
        paths::PlaceModel::Below(relative) => Ok(relative),
    }
}

/// What can come of looking for the directory of a manifest below the project
/// root. How paths are taken apart that are not uniform depends on the platform.
pub open spec fn directory_found(
    manifest: Seq<char>,
    root: Seq<char>,
    found: Result<Seq<char>, Seq<Seq<char>>>,
) -> bool {
    exists|place: paths::PlaceModel| #[trigger]
        paths::place_found(manifest, root, place) && found == directory_in(place, root)
}

/// The outcome of a fallible operation, with texts for values.
pub open spec fn outcome(r: Result<String, Error>) -> Result<Seq<char>, Seq<Seq<char>>> {
    match r {
        Ok(s) => Ok(s@),
        Err(e) => Err(e@),
    }
}

/// The directory of a manifest that stands at `place`, relative to `root`, with
/// forward slashes.
pub fn directory_given(place: Place, root: &str) -> (r: Result<String, Error>)
    ensures
        outcome(r) == directory_in(place@, root@),
{
    match place {
        Place::Nowhere => {
            let e = Error::new("manifest_path should always have a parent directory".to_owned());
            proof {
                assert(e@ =~= seq!["manifest_path should always have a parent directory"@]);
            }
            Err(e)
        },
        Place::Outside(dir) => {
            let mut message = "dependency manifest dir `".to_owned();
            message.append(dir.as_str());
            message.append("` is not under Buck2 root `");
            message.append(root);
            message.append("`");
            let e = Error::new(message);
            proof {
                assert(e@ =~= outside_root(dir@, root@));
            }
            Err(e)
        },
        Place::Below(relative) => Ok(relative),
    }
}

/// The directory of the manifest `manifest_path`, relative to `root`, with
/// forward slashes.
pub fn manifest_directory(manifest_path: &str, root: &str) -> (r: Result<String, Error>)
    ensures
        directory_found(manifest_path@, root@, outcome(r)),
{
    let place = paths::place_of(manifest_path, root);
    let ghost p = place@;
    let r = directory_given(place, root);
    proof {
        assert(paths::place_found(manifest_path@, root@, p));
        assert(directory_found(manifest_path@, root@, outcome(r)));
    }
    r
}

/// The label of the library of a first-party package, from the directory of its
/// manifest.
pub open spec fn first_party_label(
    node: BuckalNode,
    dir: Result<Seq<char>, Seq<Seq<char>>>,
) -> Result<Seq<char>, Seq<Seq<char>>> {
    let libs = lib_names(node.targets@);
    match dir {
        Err(messages) => Err(messages),
        Ok(relative) => if libs.len() != 1 {
            Err(
                seq![
                    "Expected exactly one library target for dependency "@ + node.name@
                        + ", but found "@ + text::decimal(libs.len()),
                ],
            )
        } else {
            Ok(
                "//"@ + relative + ":"@ + library_rule_name(bin_names(node.targets@), libs[0]),
            )
        },
    }
}

/// Whether `dir` can be found for the manifest of `node`, and leads to `found`.
pub open spec fn label_with(
    node: BuckalNode,
    root: Seq<char>,
    dir: Result<Seq<char>, Seq<Seq<char>>>,
    found: Result<Seq<char>, Seq<Seq<char>>>,
) -> bool {
    &&& directory_found(node.manifest_path@, root, dir)
    &&& found == first_party_label(node, dir)
}

/// What can come of resolving the label of a first-party package below `root`.
pub open spec fn first_party_found_below(
    node: BuckalNode,
    root: Seq<char>,
    found: Result<Seq<char>, Seq<Seq<char>>>,
) -> bool {
    exists|dir: Result<Seq<char>, Seq<Seq<char>>>| #[trigger] label_with(node, root, dir, found)
}

/// What can come of resolving the label of a first-party package. The project
/// root may be unknown.
pub open spec fn first_party_found(
    node: BuckalNode,
    root: Option<Seq<char>>,
    found: Result<Seq<char>, Seq<Seq<char>>>,
) -> bool {
    match root {
        None => found == Err::<Seq<char>, Seq<Seq<char>>>(seq!["failed to get buck2 root"@]),
        Some(root) => first_party_found_below(node, root, found),
    }
}

/// The label of the library of a first-party package, whose manifest stands in
/// the directory `dir` below the project root.
pub fn first_party_label_in(dep_node: &BuckalNode, dir: Result<String, Error>) -> (r: Result<
    String,
    Error,
>)
    ensures
        outcome(r) == first_party_label(*dep_node, outcome(dir)),
{
    let relative_path = match dir {
        Ok(relative_path) => relative_path,
        Err(e) => {
            return Err(e);
        },
    };
    let dep_bin_targets = get_bin_targets(dep_node);
    let dep_lib_targets = get_lib_targets(dep_node);
    proof {
        assert(target_names(dep_lib_targets@).len() == dep_lib_targets@.len());
    }
    if dep_lib_targets.len() != 1 {
        let mut message = "Expected exactly one library target for dependency ".to_owned();
        message.append(dep_node.name.as_str());
        message.append(", but found ");
        message.append(number(dep_lib_targets.len()).as_str());
        return Err(Error::new(message));
    }
    proof {
        assert(target_names(dep_lib_targets@)[0] == dep_lib_targets@[0].name@);
    }
    let buckal_name = resolve_buckal_name(
        dep_bin_targets.as_slice(),
        dep_lib_targets.as_slice(),
    );
    let mut label = "//".to_owned();
    label.append(relative_path.as_str());
    label.append(":");
    label.append(buckal_name.as_str());
    Ok(label)
}

/// The label of the library of a first-party package, below the project root.
pub fn resolve_first_party_label(dep_node: &BuckalNode, root: Option<&str>) -> (r: Result<
    String,
    Error,
>)
    ensures
        first_party_found(*dep_node, text::view_opt_str(root), outcome(r)),
{
    match root {
        None => {
            let e = Error::new("failed to get buck2 root".to_owned());
            proof {
                assert(e@ =~= seq!["failed to get buck2 root"@]);
            }
            Err(e)
        },
        Some(root) => {
            let dir = manifest_directory(dep_node.manifest_path.as_str(), root);
            let ghost d = outcome(dir);
            let r = first_party_label_in(dep_node, dir);
            proof {
                assert(label_with(*dep_node, root@, d, outcome(r)));
                assert(first_party_found_below(*dep_node, root@, outcome(r)));
            }
            r
        },
    }
}

/// Where the repository's configuration sends the uses of a package.
#[derive(Debug)]
pub enum Redirect {
    /// They stay with the package.
    Keep,
    /// They go to another package, such as another version of the same crate.
    To(BuckalNode),
    /// The package that they should go to is not there, for the reason given.
    Fails(String),
}

/// A dependency of a package: the edge, the package it leads to, and where the
/// uses of that package are sent.
#[derive(Debug)]
pub struct ResolvedDep {
    pub dep: BuckalDep,
    pub node: BuckalNode,
    pub redirect: Redirect,
}

/// The package that a dependency on `node` ends at.
pub open spec fn redirected(node: BuckalNode, redirect: Redirect) -> BuckalNode {
    match redirect {
        Redirect::To(other) => other,
        _ => node,
    }
}

/// The name that a dependent crate uses for a package in place of its own, if
/// it does. A crate's own name has an underscore for each hyphen of the
/// package's.
pub open spec fn alias_of(name: Seq<char>, package: Seq<char>) -> Option<Seq<char>> {
    if name != text::replace_char_in(package, '-', '_') {
        Some(name)
    } else {
        None
    }
}

/// A label and the alias it is used under.
pub type LabelModel = Result<(Seq<char>, Option<Seq<char>>), Seq<Seq<char>>>;

/// What can come of resolving the label of a dependency.
pub open spec fn label_found(d: ResolvedDep, root: Option<Seq<char>>, found: LabelModel) -> bool {
    let node = redirected(d.node, d.redirect);
    let alias = alias_of(d.dep.name@, node.name@);
    match d.redirect {
        Redirect::Fails(reason) => found == Err::<(Seq<char>, Option<Seq<char>>), Seq<Seq<char>>>(
            seq![reason@],
        ),
        _ => if node.third_party() {
            found == match node.vendor_path {
                Some(vendor) => Ok::<(Seq<char>, Option<Seq<char>>), Seq<Seq<char>>>(
                    ("//"@ + vendor@ + ":"@ + node.name@, alias),
                ),
                None => Err(seq!["package `"@ + node.package_id@ + "` has no vendor directory"@]),
            }
        } else {
            exists|label: Result<Seq<char>, Seq<Seq<char>>>|
                #[trigger] first_party_found(node, root, label) && found == match label {
                    Ok(label) => Ok::<(Seq<char>, Option<Seq<char>>), Seq<Seq<char>>>(
                        (label, alias),
                    ),
                    Err(messages) => Err(
                        seq!["failed to resolve first-party label for `"@ + node.name@ + "`"@]
                            + messages,
                    ),
                }
        },
    }
}

/// The model of a resolved label.
pub open spec fn label_model(r: Result<(String, Option<String>), Error>) -> LabelModel {
    match r {
        Ok((label, alias)) => Ok((label@, text::view_opt(alias))),
        Err(e) => Err(e@),
    }
}

/// The label of a dependency, and the alias under which the dependent crate
/// uses it, if any.
pub fn resolve_dep_label(d: &ResolvedDep, root: Option<&str>) -> (r: Result<
    (String, Option<String>),
    Error,
>)
    ensures
        label_found(*d, text::view_opt_str(root), label_model(r)),
{
    let dep_node = match &d.redirect {
        Redirect::Keep => &d.node,
        Redirect::To(other) => other,
        Redirect::Fails(reason) => {
            return Err(Error::new(reason.clone()));
        },
    };
    let own_name = replace_char(dep_node.name.as_str(), '-', '_');
    let alias = if same_text(d.dep.name.as_str(), own_name.as_str()) {
        None
    } else {
        Some(d.dep.name.clone())
    };
    proof {
        assert(text::view_opt(alias) == alias_of(d.dep.name@, dep_node.name@));
    }
    match dep_node.kind {
        NodeKind::ThirdParty => match &dep_node.vendor_path {
            Some(vendor) => {
                let mut label = "//".to_owned();
                label.append(vendor.as_str());
                label.append(":");
                label.append(dep_node.name.as_str());
                Ok((label, alias))
            },
            None => {
                let mut message = "package `".to_owned();
                message.append(dep_node.package_id.repr.as_str());
                message.append("` has no vendor directory");
                Err(Error::new(message))
            },
        },
        NodeKind::FirstParty { .. } => {
            let found = resolve_first_party_label(dep_node, root);
            let ghost f = outcome(found);
            proof {
                assert(first_party_found(*dep_node, text::view_opt_str(root), f));
            }
            match found {
                Ok(label) => Ok((label, alias)),
                Err(e) => {
                    let mut message = "failed to resolve first-party label for `".to_owned();
                    message.append(dep_node.name.as_str());
                    message.append("`");
                    Err(e.context(message))
                },
            }
        },
    }
}

/// Whether a dependency that covers `matched` covers every supported CPU of `os`.
pub open spec fn covers(
    matched: Seq<TargetPlatform>,
    supported: Seq<TargetPlatform>,
    os: Os,
) -> bool {
    forall|i: int|
        0 <= i < supported.len() && (#[trigger] supported[i]).os == os ==> matched.contains(
            supported[i],
        )
}

/// The key under which a dependency that covers `matched` is recorded for the
/// platform `p`: the operating system alone where the dependency covers every
/// supported CPU of it, and else the pair.
pub open spec fn key_for(
    matched: Seq<TargetPlatform>,
    supported: Seq<TargetPlatform>,
    p: TargetPlatform,
) -> Seq<char> {
    if covers(matched, supported, p.os) {
        p.os.key_text()
    } else {
        p.key_text()
    }
}

/// The keys under which a dependency that covers `matched` is recorded.
pub open spec fn keys_for(
    matched: Seq<TargetPlatform>,
    supported: Seq<TargetPlatform>,
) -> Set<Seq<char>> {
    matched.map_values(|p: TargetPlatform| key_for(matched, supported, p)).to_set()
}

/// Whether `platforms` holds `p`.
fn holds(platforms: &Vec<TargetPlatform>, p: TargetPlatform) -> (r: bool)
    ensures
        r == platforms@.contains(p),
{
    let mut i: usize = 0;
    while i < platforms.len()
        invariant
            i <= platforms@.len(),
            forall|j: int| 0 <= j < i ==> platforms@[j] != p,
        decreases platforms@.len() - i,
    {
        if platforms[i] == p {
            return true;
        }
        i = i + 1;
    }
    false
}

/// Whether a dependency that covers `matched` covers every supported CPU of `os`.
fn covers_os(
    matched: &Vec<TargetPlatform>,
    supported: &Vec<TargetPlatform>,
    os: Os,
) -> (r: bool)
    ensures
        r == covers(matched@, supported@, os),
{
    let mut i: usize = 0;
    while i < supported.len()
        invariant
            i <= supported@.len(),
            forall|j: int|
                0 <= j < i && (#[trigger] supported@[j]).os == os ==> matched@.contains(
                    supported@[j],
                ),
        decreases supported@.len() - i,
    {
        if supported[i].os == os && !holds(matched, supported[i]) {
            return false;
        }
        i = i + 1;
    }
    true
}

/// The keys under which a dependency that covers `matched` is recorded. A key is
/// the name of an operating system, or that of an operating system and a CPU.
pub fn platform_keys(matched: &Vec<TargetPlatform>, supported: &Vec<TargetPlatform>) -> (r:
    StringSet)
    ensures
        r@ == keys_for(matched@, supported@),
{
    let mut keys = StringSet::new();
    let mut i: usize = 0;
    let ghost key = |p: TargetPlatform| key_for(matched@, supported@, p);
    proof {
        assert(keys@ =~= matched@.take(0).map_values(key).to_set());
    }
    while i < matched.len()
        invariant
            i <= matched@.len(),
            key == (|p: TargetPlatform| key_for(matched@, supported@, p)),
            keys@ == matched@.take(i as int).map_values(key).to_set(),
        decreases matched@.len() - i,
    {
        let p = matched[i];
        let text = if covers_os(matched, supported, p.os) {
            p.os.key().to_owned()
        } else {
            p.key()
        };
        keys.insert(text);
        proof {
            let all = matched@.map_values(key);
            sorted::lemma_take_to_set(all, i as int);
            assert(all.take(i as int) =~= matched@.take(i as int).map_values(key));
            assert(all.take(i + 1) =~= matched@.take(i + 1).map_values(key));
        }
        i = i + 1;
    }
    proof {
        assert(matched@.take(i as int) =~= matched@);
    }
    keys
}

/// The dependencies of a generated rule.
#[derive(Debug)]
pub struct RuleDeps {
    /// The labels of the dependencies that apply on every platform.
    pub deps: StringSet,
    /// Those that are used under an alias, by alias.
    pub named_deps: StringMap<String>,
    /// The labels that apply under a platform key, by key.
    pub os_deps: StringMap<StringSet>,
    /// Those that are used under an alias, by alias and then by key.
    pub os_named_deps: StringMap<StringMap<String>>,
}

/// The model of [`RuleDeps`].
pub ghost struct RuleModel {
    pub deps: Set<Seq<char>>,
    pub named_deps: Map<Seq<char>, Seq<char>>,
    pub os_deps: Map<Seq<char>, Set<Seq<char>>>,
    pub os_named_deps: Map<Seq<char>, Map<Seq<char>, Seq<char>>>,
}

/// The texts that a map holds.
pub open spec fn texts(m: StringMap<String>) -> Map<Seq<char>, Seq<char>> {
    m@.map_values(|s: String| s@)
}

impl View for RuleDeps {
    type V = RuleModel;

    open spec fn view(&self) -> RuleModel {
        RuleModel {
            deps: self.deps@,
            named_deps: texts(self.named_deps),
            os_deps: self.os_deps@.map_values(|s: StringSet| s@),
            os_named_deps: self.os_named_deps@.map_values(|m: StringMap<String>| texts(m)),
        }
    }
}

impl RuleDeps {
    /// No dependencies.
    pub fn new() -> (r: RuleDeps)
        ensures
            r@ == (RuleModel {
                deps: Set::empty(),
                named_deps: Map::empty(),
                os_deps: Map::empty(),
                os_named_deps: Map::empty(),
            }),
    {
        let r = RuleDeps {
            deps: StringSet::new(),
            named_deps: StringMap::new(),
            os_deps: StringMap::new(),
            os_named_deps: StringMap::new(),
        };
        proof {
            assert(r@.named_deps =~= Map::empty());
            assert(r@.os_deps =~= Map::empty());
            assert(r@.os_named_deps =~= Map::empty());
        }
        r
    }
}

/// What a rule depends on under the platform keys, once `target` is added under
/// each of `keys`.
pub open spec fn os_deps_with(
    os_deps: Map<Seq<char>, Set<Seq<char>>>,
    target: Seq<char>,
    keys: Set<Seq<char>>,
) -> Map<Seq<char>, Set<Seq<char>>> {
    Map::new(
        |k: Seq<char>| os_deps.contains_key(k) || keys.contains(k),
        |k: Seq<char>|
            {
                let labels = if os_deps.contains_key(k) {
                    os_deps[k]
                } else {
                    Set::empty()
                };
                if keys.contains(k) {
                    labels.insert(target)
                } else {
                    labels
                }
            },
    )
}

/// The targets of `alias`, by platform key.
pub open spec fn alias_entries(
    os_named_deps: Map<Seq<char>, Map<Seq<char>, Seq<char>>>,
    alias: Seq<char>,
) -> Map<Seq<char>, Seq<char>> {
    if os_named_deps.contains_key(alias) {
        os_named_deps[alias]
    } else {
        Map::empty()
    }
}

/// Whether `key` leads to something other than `target`.
pub open spec fn conflicts(
    entries: Map<Seq<char>, Seq<char>>,
    key: Seq<char>,
    target: Seq<char>,
) -> bool {
    entries.contains_key(key) && entries[key] != target
}

/// How many of `keys` come before the first that leads to something other than
/// `target`.
pub open spec fn agreeing(
    entries: Map<Seq<char>, Seq<char>>,
    keys: Seq<Seq<char>>,
    target: Seq<char>,
) -> nat
    decreases keys.len(),
{
    if keys.len() == 0 || conflicts(entries, keys[0], target) {
        0
    } else {
        1 + agreeing(entries, keys.drop_first(), target)
    }
}

/// `entries`, with `target` under each of `keys`.
pub open spec fn entries_with(
    entries: Map<Seq<char>, Seq<char>>,
    keys: Seq<Seq<char>>,
    target: Seq<char>,
) -> Map<Seq<char>, Seq<char>> {
    Map::new(
        |k: Seq<char>| entries.contains_key(k) || keys.contains(k),
        |k: Seq<char>|
            if keys.contains(k) {
                target
            } else {
                entries[k]
            },
    )
}

/// The message for an alias that leads to two targets under one platform key.
pub open spec fn key_conflict(
    alias: Seq<char>,
    key: Seq<char>,
    existing: Seq<char>,
    target: Seq<char>,
) -> Seq<char> {
    "os_named_deps alias '"@ + alias + "' had conflicting targets for platform key '"@ + key
        + "': '"@ + existing + "' vs '"@ + target + "'"@
}

/// The message for an alias that leads to two targets on every platform.
pub open spec fn alias_conflict(
    alias: Seq<char>,
    existing: Seq<char>,
    target: Seq<char>,
) -> Seq<char> {
    "named_deps alias '"@ + alias + "' had conflicting targets: '"@ + existing + "' vs '"@ + target
        + "'"@
}

/// What becomes of a rule, of the warnings so far, and whether it ends in an
/// error.
pub ghost struct RunModel {
    pub rule: RuleModel,
    pub notices: Seq<NoticeModel>,
    pub error: Option<Seq<Seq<char>>>,
}

/// Adds `target` to a rule. Under platform keys, a conflict for an alias is an
/// error: the keys before it have been added, in their order. On every platform,
/// it is worth a warning, and the first target stays.
pub open spec fn inserted(
    rule: RuleModel,
    notices: Seq<NoticeModel>,
    target: Seq<char>,
    alias: Option<Seq<char>>,
    keys: Option<Set<Seq<char>>>,
) -> RunModel {
    match keys {
        Some(keys) => match alias {
            Some(alias) => {
                let entries = alias_entries(rule.os_named_deps, alias);
                let order = sorted::in_order(keys);
                let n = agreeing(entries, order, target);
                let next = if order.len() == 0 {
                    rule
                } else {
                    RuleModel {
                        os_named_deps: rule.os_named_deps.insert(
                            alias,
                            entries_with(entries, order.take(n as int), target),
                        ),
                        ..rule
                    }
                };
                RunModel {
                    rule: next,
                    notices,
                    error: if n < order.len() {
                        Some(
                            seq![
                                key_conflict(
                                    alias,
                                    order[n as int],
                                    entries[order[n as int]],
                                    target,
                                ),
                            ],
                        )
                    } else {
                        None
                    },
                }
            },
            None => RunModel {
                rule: RuleModel { os_deps: os_deps_with(rule.os_deps, target, keys), ..rule },
                notices,
                error: None,
            },
        },
        None => match alias {
            Some(alias) => if rule.named_deps.contains_key(alias) {
                RunModel {
                    rule,
                    notices: if rule.named_deps[alias] != target {
                        notices.push(
                            NoticeModel::Warning(
                                alias_conflict(alias, rule.named_deps[alias], target),
                            ),
                        )
                    } else {
                        notices
                    },
                    error: None,
                }
            } else {
                RunModel {
                    rule: RuleModel { named_deps: rule.named_deps.insert(alias, target), ..rule },
                    notices,
                    error: None,
                }
            },
            None => RunModel {
                rule: RuleModel { deps: rule.deps.insert(target), ..rule },
                notices,
                error: None,
            },
        },
    }
}

proof fn lemma_agreeing(
    entries: Map<Seq<char>, Seq<char>>,
    keys: Seq<Seq<char>>,
    target: Seq<char>,
    i: int,
)
    requires
        0 <= i <= keys.len(),
        forall|j: int| 0 <= j < i ==> !conflicts(entries, #[trigger] keys[j], target),
    ensures
        agreeing(entries, keys, target) == i + agreeing(entries, keys.skip(i), target),
        i < keys.len() && conflicts(entries, keys[i], target) ==> agreeing(entries, keys, target)
            == i,
        i == keys.len() ==> agreeing(entries, keys, target) == i,
    decreases i,
{
    if i == 0 {
        assert(keys.skip(0) =~= keys);
    } else {
        let rest = keys.drop_first();
        assert forall|j: int| 0 <= j < i - 1 implies !conflicts(
            entries,
            #[trigger] rest[j],
            target,
        ) by {
            assert(rest[j] == keys[j + 1]);
        }
        assert(!conflicts(entries, keys[0], target));
        lemma_agreeing(entries, rest, target, i - 1);
        assert(rest.skip(i - 1) =~= keys.skip(i));
    }
}

/// Adds `target` to the labels of `key`.
fn add_label(os_deps: &mut StringMap<StringSet>, key: &str, target: &str)
    ensures
        final(os_deps)@.map_values(|s: StringSet| s@) == os_deps_with(
            old(os_deps)@.map_values(|s: StringSet| s@),
            target@,
            set![key@],
        ),
{
    let ghost f = |s: StringSet| s@;
    let ghost before = os_deps@;
    let mut labels = match os_deps.remove(key) {
        Some(labels) => labels,
        None => StringSet::new(),
    };
    labels.insert(target.to_owned());
    let ghost new = labels@;
    os_deps.insert(key.to_owned(), labels);
    proof {
        assert(os_deps@.map_values(f) =~= before.map_values(f).insert(key@, new));
        assert(os_deps@.map_values(f) =~= os_deps_with(
            before.map_values(f),
            target@,
            set![key@],
        ));
    }
}

/// Adds `target` under each of `keys`.
fn insert_os_dep(os_deps: &mut StringMap<StringSet>, target: &str, keys: &StringSet)
    ensures
        final(os_deps)@.map_values(|s: StringSet| s@) == os_deps_with(
            old(os_deps)@.map_values(|s: StringSet| s@),
            target@,
            keys@,
        ),
{
    let ghost f = |s: StringSet| s@;
    let ghost before = os_deps@.map_values(f);
    let items = keys.items();
    let ghost all = text::views(items@);
    let mut i: usize = 0;
    proof {
        assert(before =~= os_deps_with(before, target@, all.take(0).to_set()));
    }
    while i < items.len()
        invariant
            i <= items@.len(),
            f == (|s: StringSet| s@),
            all == text::views(items@),
            os_deps@.map_values(f) == os_deps_with(before, target@, all.take(i as int).to_set()),
        decreases items@.len() - i,
    {
        add_label(os_deps, items[i].as_str(), target);
        proof {
            sorted::lemma_take_to_set(all, i as int);
            let taken = all.take(i as int).to_set();
            let more = taken.insert(all[i as int]);
            assert(os_deps_with(os_deps_with(before, target@, taken), target@, set![all[i as int]])
                =~= os_deps_with(before, target@, more)) by {
                let x = os_deps_with(os_deps_with(before, target@, taken), target@, set![
                    all[i as int],
                ]);
                let y = os_deps_with(before, target@, more);
                assert forall|k: Seq<char>| #[trigger] y.contains_key(k) implies x[k]
                    == y[k] by {
                    assert(x[k] =~= y[k]);
                }
            }
        }
        i = i + 1;
    }
    proof {
        assert(all.take(i as int) =~= all);
    }
}

/// Adds `target` for `alias` under each of `keys`.
fn insert_os_named_dep(
    os_named_deps: &mut StringMap<StringMap<String>>,
    target: &str,
    alias: &str,
    keys: &StringSet,
) -> (r: Result<(), Error>)
    ensures
        ({
            let before = old(os_named_deps)@.map_values(|m: StringMap<String>| texts(m));
            let after = final(os_named_deps)@.map_values(|m: StringMap<String>| texts(m));
            let entries = alias_entries(before, alias@);
            let order = sorted::in_order(keys@);
            let n = agreeing(entries, order, target@);
            &&& after == if order.len() == 0 {
                before
            } else {
                before.insert(alias@, entries_with(entries, order.take(n as int), target@))
            }
            &&& r is Ok <==> n >= order.len()
            &&& r matches Err(e) ==> e@ == seq![
                key_conflict(alias@, order[n as int], entries[order[n as int]], target@),
            ]
        }),
{
    let ghost f = |m: StringMap<String>| texts(m);
    let ghost before = os_named_deps@.map_values(f);
    let ghost first = alias_entries(before, alias@);
    let items = keys.items();
    let ghost order = text::views(items@);
    proof {
        assert(order == sorted::in_order(keys@));
    }
    if items.len() == 0 {
        return Ok(());
    }
    let ghost held = os_named_deps@;
    let mut entries: StringMap<String> = match os_named_deps.remove(alias) {
        Some(entries) => entries,
        None => StringMap::new(),
    };
    let ghost rest = os_named_deps@;
    let mut i: usize = 0;
    proof {
        assert(texts(entries) =~= first);
        assert(first =~= entries_with(first, order.take(0), target@));
    }
    while i < items.len()
        invariant
            i <= items@.len(),
            items@.len() > 0,
            order == text::views(items@),
            order == sorted::in_order(keys@),
            sorted::strictly_sorted(order),
            f == (|m: StringMap<String>| texts(m)),
            before == held.map_values(f),
            first == alias_entries(before, alias@),
            rest == held.remove(alias@),
            os_named_deps@ == rest,
            texts(entries) == entries_with(first, order.take(i as int), target@),
            forall|j: int| 0 <= j < i ==> !conflicts(first, #[trigger] order[j], target@),
            before == old(os_named_deps)@.map_values(f),
        decreases items@.len() - i,
    {
        let key = items[i].as_str();
        proof {
            assert(!order.take(i as int).contains(key@)) by {
                if order.take(i as int).contains(key@) {
                    let j = choose|j: int| 0 <= j < i && order.take(i as int)[j] == key@;
                    sorted::lemma_sorted_distinct(order, j, i as int);
                }
            }
            lemma_agreeing(first, order, target@, i as int);
        }
        match entries.get(key) {
            Some(existing) => {
                proof {
                    assert(texts(entries).contains_key(key@) && texts(entries)[key@] == existing@);
                    assert(first.contains_key(key@) && first[key@] == existing@);
                }
                if !same_text(existing.as_str(), target) {
                    let mut message = "os_named_deps alias '".to_owned();
                    message.append(alias);
                    message.append("' had conflicting targets for platform key '");
                    message.append(key);
                    message.append("': '");
                    message.append(existing.as_str());
                    message.append("' vs '");
                    message.append(target);
                    message.append("'");
                    let ghost n = texts(entries);
                    os_named_deps.insert(alias.to_owned(), entries);
                    proof {
                        assert(os_named_deps@.map_values(f) =~= before.insert(alias@, n));
                    }
                    return Err(Error::new(message));
                }
                proof {
                    assert(entries_with(first, order.take(i + 1), target@) =~= texts(entries)) by {
                        assert(order.take(i + 1) =~= order.take(i as int).push(key@));
                        assert forall|k: Seq<char>| order.take(i + 1).contains(k) == (order.take(
                            i as int,
                        ).contains(k) || k == key@) by {
                            lemma_take_contains(order, i as int, k);
                        }
                    }
                }
            },
            None => {
                let ghost was = texts(entries);
                proof {
                    assert(!was.contains_key(key@));
                }
                entries.insert(key.to_owned(), target.to_owned());
                proof {
                    assert(texts(entries) =~= was.insert(key@, target@));
                    assert(entries_with(first, order.take(i + 1), target@) =~= was.insert(
                        key@,
                        target@,
                    )) by {
                        assert forall|k: Seq<char>| order.take(i + 1).contains(k) == (order.take(
                            i as int,
                        ).contains(k) || k == key@) by {
                            lemma_take_contains(order, i as int, k);
                        }
                    }
                }
            },
        }
        i = i + 1;
    }
    let ghost n = texts(entries);
    os_named_deps.insert(alias.to_owned(), entries);
    proof {
        assert(os_named_deps@.map_values(f) =~= before.insert(alias@, n));
        lemma_agreeing(first, order, target@, i as int);
    }
    Ok(())
}

proof fn lemma_take_contains(order: Seq<Seq<char>>, i: int, k: Seq<char>)
    requires
        0 <= i < order.len(),
    ensures
        order.take(i + 1).contains(k) == (order.take(i).contains(k) || k == order[i]),
{
    let a = order.take(i + 1);
    let b = order.take(i);
    if a.contains(k) {
        let j = choose|j: int| 0 <= j < a.len() && a[j] == k;
        if j < i {
            assert(b[j] == k);
        }
    }
    if b.contains(k) {
        let j = choose|j: int| 0 <= j < b.len() && b[j] == k;
        assert(a[j] == k);
    }
    assert(a[i] == order[i]);
}

/// Adds the label `target` to the dependencies of a rule: to those of every
/// platform, or under each of the keys `platforms`; and under `alias`, if there
/// is one. Warnings go to `notices`.
pub fn insert_dep(
    rule: &mut RuleDeps,
    target: &str,
    alias: Option<&str>,
    platforms: Option<&StringSet>,
    notices: &mut Vec<Notice>,
) -> (r: Result<(), Error>)
    ensures
        ({
            let run = inserted(
                old(rule)@,
                error::notice_models(old(notices)@),
                target@,
                text::view_opt_str(alias),
                match platforms {
                    Some(keys) => Some(keys@),
                    None => None,
                },
            );
            &&& final(rule)@ == run.rule
            &&& error::notice_models(final(notices)@) == run.notices
            &&& r is Ok <==> run.error is None
            &&& r matches Err(e) ==> run.error == Some(e@)
        }),
{
    match platforms {
        Some(keys) => match alias {
            Some(alias) => insert_os_named_dep(&mut rule.os_named_deps, target, alias, keys),
            None => {
                insert_os_dep(&mut rule.os_deps, target, keys);
                Ok(())
            },
        },
        None => match alias {
            Some(alias) => {
                match rule.named_deps.get(alias) {
                    Some(existing) => {
                        if !same_text(existing.as_str(), target) {
                            let mut message = "named_deps alias '".to_owned();
                            message.append(alias);
                            message.append("' had conflicting targets: '");
                            message.append(existing.as_str());
                            message.append("' vs '");
                            message.append(target);
                            message.append("'");
                            let ghost before = notices@;
                            let notice = Notice::Warning(message);
                            let ghost n = notice@;
                            notices.push(notice);
                            proof {
                                assert(error::notice_models(notices@) =~= error::notice_models(
                                    before,
                                ).push(n));
                            }
                        }
                    },
                    None => {
                        let ghost before = texts(rule.named_deps);
                        rule.named_deps.insert(alias.to_owned(), target.to_owned());
                        proof {
                            assert(texts(rule.named_deps) =~= before.insert(alias@, target@));
                        }
                    },
                }
                Ok(())
            },
            None => {
                rule.deps.insert(target.to_owned());
                Ok(())
            },
        },
    }
}

/// Whether a use of a dependency applies on every platform: it has no predicate,
/// or one that covers no supported platform and names more than targets.
pub open spec fn applies_everywhere(dk: BuckalDepKind) -> bool {
    match dk.target {
        None => true,
        Some(p) => p.platforms@.len() == 0 && !p.target_only,
    }
}

/// Whether a use of a dependency names nothing but targets that are not supported.
pub open spec fn applies_nowhere(dk: BuckalDepKind) -> bool {
    dk.target matches Some(p) && p.platforms@.len() == 0 && p.target_only
}

/// Whether a target of this kind uses the dependency on every platform.
pub open spec fn used_everywhere(kinds: Seq<BuckalDepKind>, kind: CargoTargetKind) -> bool {
    exists|i: int|
        0 <= i < kinds.len() && kind_matches(kind, (#[trigger] kinds[i]).kind)
            && applies_everywhere(kinds[i])
}

/// Whether a target of this kind uses the dependency for unsupported targets.
pub open spec fn used_unsupported(kinds: Seq<BuckalDepKind>, kind: CargoTargetKind) -> bool {
    exists|i: int|
        0 <= i < kinds.len() && kind_matches(kind, (#[trigger] kinds[i]).kind) && applies_nowhere(
            kinds[i],
        )
}

/// The supported platforms on which a target of this kind uses the dependency
/// conditionally.
pub open spec fn used_on(kinds: Seq<BuckalDepKind>, kind: CargoTargetKind) -> Seq<TargetPlatform>
    decreases kinds.len(),
{
    if kinds.len() == 0 {
        Seq::empty()
    } else {
        let before = used_on(kinds.drop_last(), kind);
        match kinds.last().target {
            Some(p) if kind_matches(kind, kinds.last().kind) => before + p.platforms@,
            _ => before,
        }
    }
}

/// Whether a rule for a target of this kind depends on the dependency at all.
pub open spec fn is_used(dep: BuckalDep, kind: CargoTargetKind) -> bool {
    used_everywhere(dep.dep_kinds@, kind) || used_on(dep.dep_kinds@, kind).len() > 0
}

/// What one dependency does to a rule, given what came of resolving its label. A
/// dependency that only unsupported targets use is left out, with a note.
pub open spec fn dep_added(
    rule: RuleModel,
    notices: Seq<NoticeModel>,
    d: ResolvedDep,
    kind: CargoTargetKind,
    supported: Seq<TargetPlatform>,
    label: LabelModel,
) -> RunModel {
    let kinds = d.dep.dep_kinds@;
    if !is_used(d.dep, kind) {
        RunModel {
            rule,
            notices: if used_unsupported(kinds, kind) {
                notices.push(
                    NoticeModel::Note(
                        "Dependency '"@ + d.dep.name@ + "' (package '"@ + d.node.name@
                            + "') targets only unsupported platforms and will be omitted."@,
                    ),
                )
            } else {
                notices
            },
            error: None,
        }
    } else {
        match label {
            Err(messages) => RunModel {
                rule,
                notices,
                error: Some(
                    seq![
                        "failed to resolve dependency label for '"@ + d.dep.name@
                            + "' (package '"@ + d.node.name@ + "')"@,
                    ] + messages,
                ),
            },
            Ok((target, alias)) => inserted(
                rule,
                notices,
                target,
                alias,
                if used_everywhere(kinds, kind) {
                    None
                } else {
                    Some(keys_for(used_on(kinds, kind), supported))
                },
            ),
        }
    }
}

/// What the dependencies up to `labels.len()` do to a rule, given what came of
/// resolving their labels.
pub open spec fn deps_added(
    rule: RuleModel,
    notices: Seq<NoticeModel>,
    deps: Seq<ResolvedDep>,
    kind: CargoTargetKind,
    supported: Seq<TargetPlatform>,
    labels: Seq<LabelModel>,
) -> RunModel
    decreases labels.len(),
{
    if labels.len() == 0 {
        RunModel { rule, notices, error: None }
    } else {
        let run = deps_added(rule, notices, deps, kind, supported, labels.drop_last());
        if run.error is Some {
            run
        } else {
            dep_added(
                run.rule,
                run.notices,
                deps[labels.len() - 1],
                kind,
                supported,
                labels.last(),
            )
        }
    }
}

/// Whether `labels` can come of resolving the labels of the dependencies that
/// are used, one after the other.
pub open spec fn labels_found(
    deps: Seq<ResolvedDep>,
    kind: CargoTargetKind,
    root: Option<Seq<char>>,
    labels: Seq<LabelModel>,
) -> bool {
    &&& labels.len() <= deps.len()
    &&& forall|i: int|
        0 <= i < labels.len() && is_used(deps[i].dep, kind) ==> label_found(
            deps[i],
            root,
            #[trigger] labels[i],
        )
}

/// Whether the dependencies lead from one state of a rule to another: all of
/// them, or those up to the first that ends in an error.
pub open spec fn deps_lead_to(
    rule: RuleModel,
    notices: Seq<NoticeModel>,
    deps: Seq<ResolvedDep>,
    kind: CargoTargetKind,
    supported: Seq<TargetPlatform>,
    root: Option<Seq<char>>,
    run: RunModel,
) -> bool {
    exists|labels: Seq<LabelModel>|
        {
            &&& #[trigger] labels_found(deps, kind, root, labels)
            &&& run == deps_added(rule, notices, deps, kind, supported, labels)
            &&& run.error is None ==> labels.len() == deps.len()
        }
}

/// How a target of one kind uses a dependency.
struct Uses {
    everywhere: bool,
    unsupported: bool,
    platforms: Vec<TargetPlatform>,
}

/// How a target of the kind `kind` uses a dependency.
fn uses_of(dep: &BuckalDep, kind: CargoTargetKind) -> (r: Uses)
    ensures
        r.everywhere == used_everywhere(dep.dep_kinds@, kind),
        r.unsupported == used_unsupported(dep.dep_kinds@, kind),
        r.platforms@ == used_on(dep.dep_kinds@, kind),
{
    let mut everywhere = false;
    let mut unsupported = false;
    let mut platforms: Vec<TargetPlatform> = Vec::new();
    let mut i: usize = 0;
    while i < dep.dep_kinds.len()
        invariant
            i <= dep.dep_kinds@.len(),
            everywhere == used_everywhere(dep.dep_kinds@.take(i as int), kind),
            unsupported == used_unsupported(dep.dep_kinds@.take(i as int), kind),
            platforms@ == used_on(dep.dep_kinds@.take(i as int), kind),
        decreases dep.dep_kinds@.len() - i,
    {
        let dk = &dep.dep_kinds[i];
        let ghost was = dep.dep_kinds@.take(i as int);
        let ghost now = dep.dep_kinds@.take(i + 1);
        proof {
            assert(now.drop_last() =~= was);
            assert(now[i as int] == *dk);
            assert forall|j: int| 0 <= j < i implies was[j] == now[j] by {}
        }
        if dep_kind_matches(kind, dk.kind) {
            match &dk.target {
                None => {
                    everywhere = true;
                    proof {
                        assert(applies_everywhere(now[i as int]));
                    }
                },
                Some(p) => {
                    if p.platforms.len() == 0 {
                        if p.target_only {
                            unsupported = true;
                            proof {
                                assert(applies_nowhere(now[i as int]));
                            }
                        } else {
                            everywhere = true;
                            proof {
                                assert(applies_everywhere(now[i as int]));
                            }
                        }
                    }
                    push_all(&mut platforms, &p.platforms);
                },
            }
        }
        proof {
            if used_everywhere(was, kind) {
                let j = choose|j: int|
                    0 <= j < was.len() && kind_matches(kind, (#[trigger] was[j]).kind)
                        && applies_everywhere(was[j]);
                assert(now[j] == was[j]);
            }
            if used_unsupported(was, kind) {
                let j = choose|j: int|
                    0 <= j < was.len() && kind_matches(kind, (#[trigger] was[j]).kind)
                        && applies_nowhere(was[j]);
                assert(now[j] == was[j]);
            }
            if used_everywhere(now, kind) {
                let j = choose|j: int|
                    0 <= j < now.len() && kind_matches(kind, (#[trigger] now[j]).kind)
                        && applies_everywhere(now[j]);
                if j < i {
                    assert(was[j] == now[j]);
                }
            }
            if used_unsupported(now, kind) {
                let j = choose|j: int|
                    0 <= j < now.len() && kind_matches(kind, (#[trigger] now[j]).kind)
                        && applies_nowhere(now[j]);
                if j < i {
                    assert(was[j] == now[j]);
                }
            }
        }
        i = i + 1;
    }
    proof {
        assert(dep.dep_kinds@.take(i as int) =~= dep.dep_kinds@);
    }
    Uses { everywhere, unsupported, platforms }
}

/// Adds the platforms of `more` to `platforms`.
fn push_all(platforms: &mut Vec<TargetPlatform>, more: &Vec<TargetPlatform>)
    ensures
        final(platforms)@ == old(platforms)@ + more@,
{
    let mut i: usize = 0;
    while i < more.len()
        invariant
            i <= more@.len(),
            platforms@ == old(platforms)@ + more@.take(i as int),
        decreases more@.len() - i,
    {
        platforms.push(more[i]);
        proof {
            assert(more@.take(i + 1) =~= more@.take(i as int).push(more@[i as int]));
        }
        i = i + 1;
    }
    proof {
        assert(more@.take(i as int) =~= more@);
    }
}

/// Adds one dependency of a package to the rule for a target of it.
fn set_dep(
    rule: &mut RuleDeps,
    d: &ResolvedDep,
    kind: CargoTargetKind,
    supported: &Vec<TargetPlatform>,
    root: Option<&str>,
    notices: &mut Vec<Notice>,
) -> (r: (Ghost<LabelModel>, Result<(), Error>))
    ensures
        is_used(d.dep, kind) ==> label_found(*d, text::view_opt_str(root), r.0@),
        ({
            let run = dep_added(
                old(rule)@,
                error::notice_models(old(notices)@),
                *d,
                kind,
                supported@,
                r.0@,
            );
            &&& final(rule)@ == run.rule
            &&& error::notice_models(final(notices)@) == run.notices
            &&& r.1 is Ok <==> run.error is None
            &&& r.1 matches Err(e) ==> run.error == Some(e@)
        }),
{
    let uses = uses_of(&d.dep, kind);
    if !uses.everywhere && uses.platforms.len() == 0 {
        if uses.unsupported {
            let mut message = "Dependency '".to_owned();
            message.append(d.dep.name.as_str());
            message.append("' (package '");
            message.append(d.node.name.as_str());
            message.append("') targets only unsupported platforms and will be omitted.");
            let notice = Notice::Note(message);
            let ghost n = notice@;
            notices.push(notice);
            proof {
                assert(error::notice_models(notices@) =~= error::notice_models(
                    old(notices)@,
                ).push(n));
            }
        }
        return (Ghost(arbitrary()), Ok(()));
    }
    let found = resolve_dep_label(d, root);
    let ghost label = label_model(found);
    match found {
        Err(e) => {
            let mut message = "failed to resolve dependency label for '".to_owned();
            message.append(d.dep.name.as_str());
            message.append("' (package '");
            message.append(d.node.name.as_str());
            message.append("')");
            (Ghost(label), Err(e.context(message)))
        },
        Ok((target, alias)) => {
            let alias_str: Option<&str> = match &alias {
                Some(alias) => Some(alias.as_str()),
                None => None,
            };
            proof {
                assert(text::view_opt_str(alias_str) == text::view_opt(alias));
            }
            let r = if uses.everywhere {
                insert_dep(rule, target.as_str(), alias_str, None, notices)
            } else {
                let keys = platform_keys(&uses.platforms, supported);
                insert_dep(rule, target.as_str(), alias_str, Some(&keys), notices)
            };
            (Ghost(label), r)
        },
    }
}

/// Adds the dependencies `deps` of a package to the rule for a target of it. What
/// there is to tell the user goes to `notices`.
pub fn set_deps(
    rule: &mut RuleDeps,
    deps: &Vec<ResolvedDep>,
    kind: CargoTargetKind,
    supported: &Vec<TargetPlatform>,
    root: Option<&str>,
    notices: &mut Vec<Notice>,
) -> (r: Result<(), Error>)
    ensures
        deps_lead_to(
            old(rule)@,
            error::notice_models(old(notices)@),
            deps@,
            kind,
            supported@,
            text::view_opt_str(root),
            (RunModel {
                rule: final(rule)@,
                notices: error::notice_models(final(notices)@),
                error: match r {
                    Ok(_) => None,
                    Err(e) => Some(e@),
                },
            }),
        ),
{
    let ghost start = rule@;
    let ghost told = error::notice_models(notices@);
    let ghost mut labels: Seq<LabelModel> = Seq::empty();
    let mut i: usize = 0;
    while i < deps.len()
        invariant
            i <= deps@.len(),
            labels.len() == i,
            start == old(rule)@,
            told == error::notice_models(old(notices)@),
            labels_found(deps@, kind, text::view_opt_str(root), labels),
            ({
                let run = deps_added(start, told, deps@, kind, supported@, labels);
                &&& run.error is None
                &&& run.rule == rule@
                &&& run.notices == error::notice_models(notices@)
            }),
        decreases deps@.len() - i,
    {
        let (label, r) = set_dep(rule, &deps[i], kind, supported, root, notices);
        proof {
            let before = labels;
            labels = labels.push(label@);
            assert(labels.drop_last() =~= before);
            assert forall|j: int|
                0 <= j < labels.len() && is_used(deps@[j].dep, kind) implies label_found(
                deps@[j],
                text::view_opt_str(root),
                #[trigger] labels[j],
            ) by {
                if j < i {
                    assert(before[j] == labels[j]);
                }
            }
            assert(labels_found(deps@, kind, text::view_opt_str(root), labels));
        }
        if let Err(e) = r {
            return Err(e);
        }
        i = i + 1;
    }
    Ok(())
}

/// Whether everything that `a` depends on is what `b` depends on too, in the
/// same places.
pub open spec fn within(a: RuleModel, b: RuleModel) -> bool {
    &&& a.deps.subset_of(b.deps)
    &&& a.named_deps.submap_of(b.named_deps)
    &&& forall|k: Seq<char>| #[trigger]
        a.os_deps.contains_key(k) ==> b.os_deps.contains_key(k) && a.os_deps[k].subset_of(
            b.os_deps[k],
        )
    &&& forall|k: Seq<char>| #[trigger]
        a.os_named_deps.contains_key(k) ==> b.os_named_deps.contains_key(k)
            && a.os_named_deps[k].submap_of(b.os_named_deps[k])
}

proof fn lemma_inserted_keeps(
    rule: RuleModel,
    notices: Seq<NoticeModel>,
    target: Seq<char>,
    alias: Option<Seq<char>>,
    keys: Option<Set<Seq<char>>>,
)
    ensures
        within(rule, inserted(rule, notices, target, alias, keys).rule),
{
    if let (Some(keys), Some(alias)) = (keys, alias) {
        let entries = alias_entries(rule.os_named_deps, alias);
        let order = sorted::in_order(keys);
        let n = agreeing(entries, order, target);
        lemma_agreeing_bound(entries, order, target);
        let taken = order.take(n as int);
        assert forall|k: Seq<char>| taken.contains(k) implies !conflicts(entries, k, target) by {
            let j = choose|j: int| 0 <= j < taken.len() && taken[j] == k;
            assert(order[j] == k);
        }
        assert(entries.submap_of(entries_with(entries, taken, target)));
    }
}

proof fn lemma_agreeing_bound(
    entries: Map<Seq<char>, Seq<char>>,
    keys: Seq<Seq<char>>,
    target: Seq<char>,
)
    ensures
        agreeing(entries, keys, target) <= keys.len(),
        forall|j: int|
            0 <= j < agreeing(entries, keys, target) ==> !conflicts(
                entries,
                #[trigger] keys[j],
                target,
            ),
    decreases keys.len(),
{
    if keys.len() > 0 && !conflicts(entries, keys[0], target) {
        let rest = keys.drop_first();
        lemma_agreeing_bound(entries, rest, target);
        assert forall|j: int| 0 <= j < agreeing(entries, keys, target) implies !conflicts(
            entries,
            #[trigger] keys[j],
            target,
        ) by {
            if j > 0 {
                assert(keys[j] == rest[j - 1]);
            }
        }
    }
}

proof fn lemma_submap_is_transitive(
    a: Map<Seq<char>, Seq<char>>,
    b: Map<Seq<char>, Seq<char>>,
    c: Map<Seq<char>, Seq<char>>,
)
    requires
        a.submap_of(b),
        b.submap_of(c),
    ensures
        a.submap_of(c),
{
    assert forall|k: Seq<char>| #[trigger] a.dom().contains(k) implies c.dom().contains(k) && a[k]
        == c[k] by {
        assert(b.dom().contains(k));
        assert(c.dom().contains(k));
    }
}

proof fn lemma_within_is_transitive(a: RuleModel, b: RuleModel, c: RuleModel)
    requires
        within(a, b),
        within(b, c),
    ensures
        within(a, c),
{
    assert forall|k: Seq<char>| #[trigger] a.os_deps.contains_key(k) implies c.os_deps.contains_key(
        k,
    ) && a.os_deps[k].subset_of(c.os_deps[k]) by {
        assert(b.os_deps.contains_key(k));
    }
    assert forall|k: Seq<char>| #[trigger]
        a.os_named_deps.contains_key(k) implies c.os_named_deps.contains_key(k)
        && a.os_named_deps[k].submap_of(c.os_named_deps[k]) by {
        assert(b.os_named_deps.contains_key(k));
        lemma_submap_is_transitive(a.os_named_deps[k], b.os_named_deps[k], c.os_named_deps[k]);
    }
    lemma_submap_is_transitive(a.named_deps, b.named_deps, c.named_deps);
}

/// Adding dependencies to a rule takes nothing out of it and changes nothing in
/// it, whatever comes of resolving their labels, and also where it fails.
pub proof fn law_deps_are_only_added(
    rule: RuleModel,
    notices: Seq<NoticeModel>,
    deps: Seq<ResolvedDep>,
    kind: CargoTargetKind,
    supported: Seq<TargetPlatform>,
    labels: Seq<LabelModel>,
)
    ensures
        within(rule, deps_added(rule, notices, deps, kind, supported, labels).rule),
    decreases labels.len(),
{
    if labels.len() > 0 {
        law_deps_are_only_added(rule, notices, deps, kind, supported, labels.drop_last());
        let run = deps_added(rule, notices, deps, kind, supported, labels.drop_last());
        if run.error is None {
            let d = deps[labels.len() - 1];
            if is_used(d.dep, kind) {
                if let Ok((target, alias)) = labels.last() {
                    let keys = if used_everywhere(d.dep.dep_kinds@, kind) {
                        None
                    } else {
                        Some(keys_for(used_on(d.dep.dep_kinds@, kind), supported))
                    };
                    lemma_inserted_keeps(run.rule, run.notices, target, alias, keys);
                    lemma_within_is_transitive(
                        rule,
                        run.rule,
                        inserted(run.rule, run.notices, target, alias, keys).rule,
                    );
                }
            }
        }
    }
}

proof fn lemma_key_texts()
    ensures
        forall|a: Os, b: Os| #[trigger] a.key_text() == #[trigger] b.key_text() ==> a == b,
        forall|a: Os, p: TargetPlatform| #[trigger] a.key_text() != #[trigger] p.key_text(),
        forall|p: TargetPlatform, q: TargetPlatform|
            #[trigger] p.key_text() == #[trigger] q.key_text() ==> p == q,
{
    reveal_strlit("windows");
    reveal_strlit("macos");
    reveal_strlit("linux");
    reveal_strlit("x86_64");
    reveal_strlit("arm64");
    reveal_strlit("-");
    assert forall|a: Os, b: Os| #[trigger] a.key_text() == #[trigger] b.key_text() implies a
        == b by {
        assert(a.key_text()[0] == b.key_text()[0]);
    }
    assert forall|a: Os, p: TargetPlatform| #[trigger]
        a.key_text() != #[trigger] p.key_text() by {
        let n = p.os.key_text().len() as int;
        assert(p.key_text()[n] == '-');
        if a.key_text() == p.key_text() {
            assert(a.key_text()[n] == '-' && n < a.key_text().len());
            match a {
                Os::Windows => assert("windows"@[n] == '-'),
                Os::Macos => assert("macos"@[n] == '-'),
                Os::Linux => assert("linux"@[n] == '-'),
            }
            match p.os {
                Os::Windows => assert(n == 7),
                Os::Macos => assert(n == 5),
                Os::Linux => assert(n == 5),
            }
        }
    }
    assert forall|p: TargetPlatform, q: TargetPlatform|
        #[trigger] p.key_text() == #[trigger] q.key_text() implies p == q by {
        assert(p.key_text()[0] == p.os.key_text()[0]);
        assert(q.key_text()[0] == q.os.key_text()[0]);
        assert(p.os == q.os);
        let n = p.os.key_text().len() as int;
        assert(p.key_text()[n + 1] == p.arch.key_text()[0]);
        assert(q.key_text()[n + 1] == q.arch.key_text()[0]);
    }
}

/// A platform that a dependency covers gets one key: that of its operating
/// system where the dependency covers every supported CPU of it, and that of the
/// pair where it does not. A platform whose operating system the dependency does
/// not cover gets none.
pub proof fn law_platform_gets_one_key(
    matched: Seq<TargetPlatform>,
    supported: Seq<TargetPlatform>,
    p: TargetPlatform,
)
    ensures
        matched.contains(p) ==> {
            &&& keys_for(matched, supported).contains(p.os.key_text()) <==> covers(
                matched,
                supported,
                p.os,
            )
            &&& keys_for(matched, supported).contains(p.key_text()) <==> !covers(
                matched,
                supported,
                p.os,
            )
        },
        (forall|q: TargetPlatform| #[trigger] matched.contains(q) ==> q.os != p.os) ==> {
            &&& !keys_for(matched, supported).contains(p.os.key_text())
            &&& !keys_for(matched, supported).contains(p.key_text())
        },
{
    lemma_key_texts();
    let key = |q: TargetPlatform| key_for(matched, supported, q);
    let keys = matched.map_values(key);
    let set = keys_for(matched, supported);
    assert forall|k: Seq<char>| set.contains(k) implies exists|i: int|
        0 <= i < matched.len() && k == key_for(matched, supported, #[trigger] matched[i]) by {
        assert(set.contains(k) == keys.contains(k));
        let i = choose|i: int| 0 <= i < keys.len() && keys[i] == k;
        assert(k == key_for(matched, supported, matched[i]));
    }
    assert forall|i: int| 0 <= i < matched.len() implies matched.contains(
        #[trigger] matched[i],
    ) by {}
    if matched.contains(p) {
        let i = choose|i: int| 0 <= i < matched.len() && matched[i] == p;
        assert(keys[i] == key_for(matched, supported, p));
        assert(keys.contains(keys[i]));
        assert(set.contains(keys[i]));
    }
}

/// Build scripts see the build dependencies alone, and nothing else sees those.
/// Everything but a build script sees the normal dependencies. Tests see the
/// development dependencies too, and nothing else does.
pub proof fn law_targets_see_their_tables(target: CargoTargetKind)
    ensures
        kind_matches(target, DependencyKind::Build) <==> target == CargoTargetKind::CustomBuild,
        kind_matches(target, DependencyKind::Normal) <==> target != CargoTargetKind::CustomBuild,
        kind_matches(target, DependencyKind::Development) <==> target == CargoTargetKind::Test,
{
}

/// Whether the `i`-th use of a dependency is one that a target of this kind sees,
/// and covers the platform `p`.
pub open spec fn use_covers(
    kinds: Seq<BuckalDepKind>,
    kind: CargoTargetKind,
    i: int,
    p: TargetPlatform,
) -> bool {
    &&& 0 <= i < kinds.len()
    &&& kind_matches(kind, kinds[i].kind)
    &&& kinds[i].target matches Some(t) && t.platforms@.contains(p)
}

/// Whether the `i`-th use of a dependency is one that a target of this kind sees,
/// and is bound to no platform: it has no predicate, or one that covers no
/// supported platform and is about more than targets.
pub open spec fn use_is_unbound(
    kinds: Seq<BuckalDepKind>,
    kind: CargoTargetKind,
    i: int,
) -> bool {
    &&& 0 <= i < kinds.len()
    &&& kind_matches(kind, kinds[i].kind)
    &&& kinds[i].target matches Some(t) ==> t.platforms@.len() == 0 && !t.target_only
}

/// The platforms of every use that a target sees count together: a platform is
/// among those that a dependency is recorded for if and only if one of the uses
/// covers it.
pub proof fn law_platforms_of_all_uses_count(
    kinds: Seq<BuckalDepKind>,
    kind: CargoTargetKind,
    p: TargetPlatform,
)
    ensures
        used_on(kinds, kind).contains(p) <==> exists|i: int| #[trigger]
            use_covers(kinds, kind, i, p),
    decreases kinds.len(),
{
    if kinds.len() > 0 {
        let head = kinds.drop_last();
        let last = kinds.len() - 1;
        law_platforms_of_all_uses_count(head, kind, p);
        let before = used_on(head, kind);
        let now = used_on(kinds, kind);
        if exists|i: int| #[trigger] use_covers(kinds, kind, i, p) {
            let i = choose|i: int| #[trigger] use_covers(kinds, kind, i, p);
            if i < last {
                assert(use_covers(head, kind, i, p));
                let k = choose|k: int| 0 <= k < before.len() && before[k] == p;
                assert(now[k] == p);
            } else {
                let more = kinds[last].target->0.platforms@;
                let k = choose|k: int| 0 <= k < more.len() && more[k] == p;
                assert(now[before.len() + k] == p);
            }
        }
        if now.contains(p) {
            let k = choose|k: int| 0 <= k < now.len() && now[k] == p;
            if k < before.len() {
                assert(before[k] == p);
                let i = choose|i: int| #[trigger] use_covers(head, kind, i, p);
                assert(use_covers(kinds, kind, i, p));
            } else {
                let more = kinds[last].target->0.platforms@;
                assert(more[k - before.len()] == p);
                assert(use_covers(kinds, kind, last, p));
            }
        }
    }
}

proof fn lemma_used_everywhere(kinds: Seq<BuckalDepKind>, kind: CargoTargetKind)
    ensures
        used_everywhere(kinds, kind) <==> exists|i: int| #[trigger]
            use_is_unbound(kinds, kind, i),
{
    if used_everywhere(kinds, kind) {
        let i = choose|i: int|
            0 <= i < kinds.len() && kind_matches(kind, (#[trigger] kinds[i]).kind)
                && applies_everywhere(kinds[i]);
        assert(use_is_unbound(kinds, kind, i));
    }
    if exists|i: int| #[trigger] use_is_unbound(kinds, kind, i) {
        let i = choose|i: int| #[trigger] use_is_unbound(kinds, kind, i);
        assert(applies_everywhere(kinds[i]));
    }
}

/// A rule depends on a dependency if and only if a use that its target sees is
/// bound to no platform, or covers a supported one.
pub proof fn law_what_is_used(dep: BuckalDep, kind: CargoTargetKind)
    ensures
        is_used(dep, kind) <==> (exists|i: int| #[trigger]
            use_is_unbound(dep.dep_kinds@, kind, i)) || (exists|i: int, p: TargetPlatform|
            #[trigger] use_covers(dep.dep_kinds@, kind, i, p)),
{
    let kinds = dep.dep_kinds@;
    lemma_used_everywhere(kinds, kind);
    let on = used_on(kinds, kind);
    if on.len() > 0 {
        assert(on.contains(on[0]));
        law_platforms_of_all_uses_count(kinds, kind, on[0]);
    }
    if exists|i: int, p: TargetPlatform| #[trigger] use_covers(kinds, kind, i, p) {
        let (i, p) = choose|i: int, p: TargetPlatform| #[trigger] use_covers(kinds, kind, i, p);
        law_platforms_of_all_uses_count(kinds, kind, p);
    }
}

/// Whether the label `label` stands under the key `key` in what a rule depends on,
/// under the alias if there is one.
pub open spec fn stands_under(
    rule: RuleModel,
    key: Seq<char>,
    label: Seq<char>,
    alias: Option<Seq<char>>,
) -> bool {
    match alias {
        None => rule.os_deps.contains_key(key) && rule.os_deps[key].contains(label),
        Some(a) => rule.os_named_deps.contains_key(a) && rule.os_named_deps[a].contains_key(key)
            && rule.os_named_deps[a][key] == label,
    }
}

proof fn lemma_inserted_under_keys(
    rule: RuleModel,
    notices: Seq<NoticeModel>,
    target: Seq<char>,
    alias: Option<Seq<char>>,
    keys: Set<Seq<char>>,
    key: Seq<char>,
)
    requires
        keys.finite(),
        keys.contains(key),
        inserted(rule, notices, target, alias, Some(keys)).error is None,
    ensures
        stands_under(inserted(rule, notices, target, alias, Some(keys)).rule, key, target, alias),
{
    if let Some(a) = alias {
        let entries = alias_entries(rule.os_named_deps, a);
        let order = sorted::in_order(keys);
        sorted::lemma_in_order_is_order(keys);
        lemma_agreeing_bound(entries, order, target);
        assert(order.to_set().contains(key));
        assert(order.contains(key));
        assert(order.take(order.len() as int) =~= order);
    }
}

proof fn lemma_keys_are_finite(matched: Seq<TargetPlatform>, supported: Seq<TargetPlatform>)
    ensures
        keys_for(matched, supported).finite(),
{
    let keys = matched.map_values(|p: TargetPlatform| key_for(matched, supported, p));
    vstd::seq_lib::seq_to_set_is_finite(keys);
}

proof fn lemma_within_keeps(
    a: RuleModel,
    b: RuleModel,
    key: Seq<char>,
    label: Seq<char>,
    alias: Option<Seq<char>>,
)
    requires
        within(a, b),
        stands_under(a, key, label, alias),
    ensures
        stands_under(b, key, label, alias),
{
    if let Some(x) = alias {
        assert(a.os_named_deps.contains_key(x));
        assert(a.os_named_deps[x].dom().contains(key));
        assert(b.os_named_deps[x].dom().contains(key));
    } else {
        assert(a.os_deps.contains_key(key));
    }
}

/// Where the dependencies were added without an error, each of them that is used
/// under a label is recorded. One with a use that is bound to no platform is
/// recorded for every platform. One without is recorded for each platform that one
/// of its uses covers: under the operating system alone where its uses cover every
/// supported CPU of it, and else under the operating system and the CPU.
pub proof fn law_used_dependencies_are_recorded(
    rule: RuleModel,
    notices: Seq<NoticeModel>,
    deps: Seq<ResolvedDep>,
    kind: CargoTargetKind,
    supported: Seq<TargetPlatform>,
    labels: Seq<LabelModel>,
    n: int,
)
    requires
        deps_added(rule, notices, deps, kind, supported, labels).error is None,
        0 <= n < labels.len() <= deps.len(),
    ensures
        ({
            let out = deps_added(rule, notices, deps, kind, supported, labels).rule;
            let kinds = deps[n].dep.dep_kinds@;
            let unbound = exists|i: int| #[trigger] use_is_unbound(kinds, kind, i);
            &&& unbound || (exists|i: int, p: TargetPlatform| #[trigger]
                use_covers(kinds, kind, i, p)) ==> labels[n] is Ok
            &&& labels[n] matches Ok((label, alias)) ==> {
                &&& unbound ==> match alias {
                    None => out.deps.contains(label),
                    Some(a) => out.named_deps.contains_key(a),
                }
                &&& !unbound ==> forall|i: int, p: TargetPlatform| #[trigger]
                    use_covers(kinds, kind, i, p) ==> {
                        let whole = forall|q: TargetPlatform|
                            supported.contains(q) && q.os == p.os ==> exists|j: int| #[trigger]
                                use_covers(kinds, kind, j, q);
                        stands_under(
                            out,
                            if whole {
                                p.os.key_text()
                            } else {
                                p.key_text()
                            },
                            label,
                            alias,
                        )
                    }
            }
        }),
    decreases labels.len(),
{
    let head = labels.drop_last();
    let run = deps_added(rule, notices, deps, kind, supported, head);
    let last = labels.len() - 1;
    let end = deps_added(rule, notices, deps, kind, supported, labels);
    let kinds = deps[n].dep.dep_kinds@;
    lemma_used_everywhere(kinds, kind);
    law_what_is_used(deps[n].dep, kind);
    let d = deps[last];
    lemma_used_everywhere(d.dep.dep_kinds@, kind);
    if n < last {
        law_used_dependencies_are_recorded(rule, notices, deps, kind, supported, head, n);
        lemma_dep_added_keeps(run.rule, run.notices, d, kind, supported, labels[last]);
        assert(head[n] == labels[n]);
        if let Ok((label, alias)) = labels[n] {
            if !used_everywhere(kinds, kind) {
                assert forall|i: int, p: TargetPlatform| #[trigger]
                    use_covers(kinds, kind, i, p) implies ({
                    let whole = forall|q: TargetPlatform|
                        supported.contains(q) && q.os == p.os ==> exists|j: int| #[trigger]
                            use_covers(kinds, kind, j, q);
                    stands_under(
                        end.rule,
                        if whole {
                            p.os.key_text()
                        } else {
                            p.key_text()
                        },
                        label,
                        alias,
                    )
                }) by {
                    let whole = forall|q: TargetPlatform|
                        supported.contains(q) && q.os == p.os ==> exists|j: int| #[trigger]
                            use_covers(kinds, kind, j, q);
                    let key = if whole {
                        p.os.key_text()
                    } else {
                        p.key_text()
                    };
                    lemma_within_keeps(run.rule, end.rule, key, label, alias);
                }
            } else if let Some(a) = alias {
                assert(run.rule.named_deps.dom().contains(a));
                assert(end.rule.named_deps.dom().contains(a));
            }
        }
    } else {
        if let Ok((label, alias)) = labels[n] {
            if !used_everywhere(kinds, kind) {
                assert forall|i: int, p: TargetPlatform| #[trigger]
                    use_covers(kinds, kind, i, p) implies ({
                    let whole = forall|q: TargetPlatform|
                        supported.contains(q) && q.os == p.os ==> exists|j: int| #[trigger]
                            use_covers(kinds, kind, j, q);
                    stands_under(
                        end.rule,
                        if whole {
                            p.os.key_text()
                        } else {
                            p.key_text()
                        },
                        label,
                        alias,
                    )
                }) by {
                    let on = used_on(kinds, kind);
                    law_platforms_of_all_uses_count(kinds, kind, p);
                    lemma_covers_by_uses(kinds, kind, supported, p.os);
                    law_platform_gets_one_key(on, supported, p);
                    lemma_keys_are_finite(on, supported);
                    let whole = forall|q: TargetPlatform|
                        supported.contains(q) && q.os == p.os ==> exists|j: int| #[trigger]
                            use_covers(kinds, kind, j, q);
                    let key = if whole {
                        p.os.key_text()
                    } else {
                        p.key_text()
                    };
                    lemma_inserted_under_keys(
                        run.rule,
                        run.notices,
                        label,
                        alias,
                        keys_for(on, supported),
                        key,
                    );
                }
            }
        }
    }
}

proof fn lemma_covers_by_uses(
    kinds: Seq<BuckalDepKind>,
    kind: CargoTargetKind,
    supported: Seq<TargetPlatform>,
    os: Os,
)
    ensures
        covers(used_on(kinds, kind), supported, os) <==> forall|q: TargetPlatform|
            supported.contains(q) && q.os == os ==> exists|j: int| #[trigger]
                use_covers(kinds, kind, j, q),
{
    let on = used_on(kinds, kind);
    if covers(on, supported, os) {
        assert forall|q: TargetPlatform| supported.contains(q) && q.os == os implies exists|j: int|
            #[trigger] use_covers(kinds, kind, j, q) by {
            let i = choose|i: int| 0 <= i < supported.len() && supported[i] == q;
            assert(supported[i].os == os);
            law_platforms_of_all_uses_count(kinds, kind, q);
        }
    }
    if forall|q: TargetPlatform|
        supported.contains(q) && q.os == os ==> exists|j: int| #[trigger]
            use_covers(kinds, kind, j, q) {
        assert forall|i: int| 0 <= i < supported.len() && (#[trigger] supported[i]).os
            == os implies on.contains(supported[i]) by {
            assert(supported.contains(supported[i]));
            law_platforms_of_all_uses_count(kinds, kind, supported[i]);
        }
    }
}

proof fn lemma_dep_added_keeps(
    rule: RuleModel,
    notices: Seq<NoticeModel>,
    d: ResolvedDep,
    kind: CargoTargetKind,
    supported: Seq<TargetPlatform>,
    label: LabelModel,
)
    ensures
        within(rule, dep_added(rule, notices, d, kind, supported, label).rule),
{
    if is_used(d.dep, kind) {
        if let Ok((target, alias)) = label {
            let keys = if used_everywhere(d.dep.dep_kinds@, kind) {
                None
            } else {
                Some(keys_for(used_on(d.dep.dep_kinds@, kind), supported))
            };
            lemma_inserted_keeps(rule, notices, target, alias, keys);
        }
    }
}

/// Whether the `n`-th dependency is recorded for every platform, under `label` and
/// `alias`.
pub open spec fn gives_everywhere(
    deps: Seq<ResolvedDep>,
    kind: CargoTargetKind,
    labels: Seq<LabelModel>,
    n: int,
    label: Seq<char>,
    alias: Option<Seq<char>>,
) -> bool {
    &&& 0 <= n < labels.len()
    &&& labels[n] == Ok::<(Seq<char>, Option<Seq<char>>), Seq<Seq<char>>>((label, alias))
    &&& exists|i: int| #[trigger] use_is_unbound(deps[n].dep.dep_kinds@, kind, i)
}

/// Whether the `n`-th dependency is recorded under the key `key` for one of the
/// platforms that its uses cover, under `label` and `alias`.
pub open spec fn gives_under(
    deps: Seq<ResolvedDep>,
    kind: CargoTargetKind,
    labels: Seq<LabelModel>,
    n: int,
    key: Seq<char>,
    label: Seq<char>,
    alias: Option<Seq<char>>,
) -> bool {
    &&& 0 <= n < labels.len()
    &&& labels[n] == Ok::<(Seq<char>, Option<Seq<char>>), Seq<Seq<char>>>((label, alias))
    &&& forall|i: int| !#[trigger] use_is_unbound(deps[n].dep.dep_kinds@, kind, i)
    &&& exists|i: int, p: TargetPlatform| #[trigger]
        use_covers(deps[n].dep.dep_kinds@, kind, i, p) && (key == p.os.key_text() || key
            == p.key_text())
}

proof fn lemma_gives_more(
    deps: Seq<ResolvedDep>,
    kind: CargoTargetKind,
    labels: Seq<LabelModel>,
    n: int,
    key: Seq<char>,
    label: Seq<char>,
    alias: Option<Seq<char>>,
)
    requires
        labels.len() > 0,
    ensures
        gives_everywhere(deps, kind, labels.drop_last(), n, label, alias) ==> gives_everywhere(
            deps,
            kind,
            labels,
            n,
            label,
            alias,
        ),
        gives_under(deps, kind, labels.drop_last(), n, key, label, alias) ==> gives_under(
            deps,
            kind,
            labels,
            n,
            key,
            label,
            alias,
        ),
{
}

/// A rule depends on nothing for every platform but what it depended on before and
/// the dependencies with a use that is bound to no platform.
pub proof fn law_nothing_else_is_recorded_everywhere(
    rule: RuleModel,
    notices: Seq<NoticeModel>,
    deps: Seq<ResolvedDep>,
    kind: CargoTargetKind,
    supported: Seq<TargetPlatform>,
    labels: Seq<LabelModel>,
    label: Seq<char>,
    alias: Seq<char>,
)
    requires
        labels.len() <= deps.len(),
    ensures
        ({
            let out = deps_added(rule, notices, deps, kind, supported, labels).rule;
            &&& out.deps.contains(label) ==> rule.deps.contains(label) || exists|n: int| #[trigger]
                gives_everywhere(deps, kind, labels, n, label, None)
            &&& out.named_deps.contains_key(alias) && out.named_deps[alias] == label ==> (
            rule.named_deps.contains_key(alias) && rule.named_deps[alias] == label) || exists|n: int|
                #[trigger] gives_everywhere(deps, kind, labels, n, label, Some(alias))
        }),
    decreases labels.len(),
{
    if labels.len() > 0 {
        let head = labels.drop_last();
        let last = labels.len() - 1;
        let run = deps_added(rule, notices, deps, kind, supported, head);
        let out = deps_added(rule, notices, deps, kind, supported, labels).rule;
        let kinds = deps[last].dep.dep_kinds@;
        law_nothing_else_is_recorded_everywhere(
            rule,
            notices,
            deps,
            kind,
            supported,
            head,
            label,
            alias,
        );
        lemma_used_everywhere(kinds, kind);
        assert forall|n: int| #[trigger]
            gives_everywhere(deps, kind, head, n, label, None) implies gives_everywhere(
            deps,
            kind,
            labels,
            n,
            label,
            None,
        ) by {
            lemma_gives_more(deps, kind, labels, n, label, label, None);
        }
        assert forall|n: int| #[trigger]
            gives_everywhere(deps, kind, head, n, label, Some(alias)) implies gives_everywhere(
            deps,
            kind,
            labels,
            n,
            label,
            Some(alias),
        ) by {
            lemma_gives_more(deps, kind, labels, n, label, label, Some(alias));
        }
        if out.deps.contains(label) && !run.rule.deps.contains(label) {
            assert(gives_everywhere(deps, kind, labels, last, label, None));
        }
        if out.named_deps.contains_key(alias) && out.named_deps[alias] == label && !(
        run.rule.named_deps.contains_key(alias) && run.rule.named_deps[alias] == label) {
            assert(gives_everywhere(deps, kind, labels, last, label, Some(alias)));
        }
    }
}

proof fn lemma_inserted_came_from(
    rule: RuleModel,
    notices: Seq<NoticeModel>,
    target: Seq<char>,
    alias: Option<Seq<char>>,
    keys: Set<Seq<char>>,
    key: Seq<char>,
    label: Seq<char>,
    name: Option<Seq<char>>,
)
    requires
        keys.finite(),
        stands_under(
            inserted(rule, notices, target, alias, Some(keys)).rule,
            key,
            label,
            name,
        ),
        !stands_under(rule, key, label, name),
    ensures
        label == target,
        name == alias,
        keys.contains(key),
{
    if let Some(a) = alias {
        let entries = alias_entries(rule.os_named_deps, a);
        let order = sorted::in_order(keys);
        sorted::lemma_in_order_is_order(keys);
        lemma_agreeing_bound(entries, order, target);
        let n = agreeing(entries, order, target) as int;
        if order.len() > 0 {
            assert(name == alias);
            let taken = order.take(n);
            assert(taken.contains(key));
            let j = choose|j: int| 0 <= j < taken.len() && taken[j] == key;
            assert(order[j] == key);
            assert(order.contains(key));
            assert(order.to_set().contains(key));
        }
    }
}

proof fn lemma_key_of_a_use(
    kinds: Seq<BuckalDepKind>,
    kind: CargoTargetKind,
    supported: Seq<TargetPlatform>,
    key: Seq<char>,
)
    requires
        keys_for(used_on(kinds, kind), supported).contains(key),
    ensures
        exists|i: int, p: TargetPlatform| #[trigger]
            use_covers(kinds, kind, i, p) && (key == p.os.key_text() || key == p.key_text()),
{
    let on = used_on(kinds, kind);
    let keys = on.map_values(|p: TargetPlatform| key_for(on, supported, p));
    assert(keys.contains(key));
    let k = choose|k: int| 0 <= k < keys.len() && keys[k] == key;
    let p = on[k];
    assert(on.contains(p));
    law_platforms_of_all_uses_count(kinds, kind, p);
    let i = choose|i: int| #[trigger] use_covers(kinds, kind, i, p);
    assert(use_covers(kinds, kind, i, p) && (key == p.os.key_text() || key == p.key_text()));
}

/// A rule depends on nothing under a platform key but what it depended on before
/// and the dependencies without a use that is bound to no platform, for the
/// platforms that their uses cover.
pub proof fn law_nothing_else_is_recorded_under_a_key(
    rule: RuleModel,
    notices: Seq<NoticeModel>,
    deps: Seq<ResolvedDep>,
    kind: CargoTargetKind,
    supported: Seq<TargetPlatform>,
    labels: Seq<LabelModel>,
    key: Seq<char>,
    label: Seq<char>,
    alias: Option<Seq<char>>,
)
    requires
        labels.len() <= deps.len(),
        stands_under(
            deps_added(rule, notices, deps, kind, supported, labels).rule,
            key,
            label,
            alias,
        ),
    ensures
        stands_under(rule, key, label, alias) || exists|n: int| #[trigger]
            gives_under(deps, kind, labels, n, key, label, alias),
    decreases labels.len(),
{
    if labels.len() > 0 {
        let head = labels.drop_last();
        let last = labels.len() - 1;
        let run = deps_added(rule, notices, deps, kind, supported, head);
        let d = deps[last];
        let kinds = d.dep.dep_kinds@;
        lemma_used_everywhere(kinds, kind);
        if stands_under(run.rule, key, label, alias) {
            law_nothing_else_is_recorded_under_a_key(
                rule,
                notices,
                deps,
                kind,
                supported,
                head,
                key,
                label,
                alias,
            );
            if !stands_under(rule, key, label, alias) {
                let n = choose|n: int| #[trigger]
                    gives_under(deps, kind, head, n, key, label, alias);
                lemma_gives_more(deps, kind, labels, n, key, label, alias);
            }
        } else {
            assert(labels[last] is Ok);
            let (target, name) = labels[last]->Ok_0;
            assert(!used_everywhere(kinds, kind));
            let on = used_on(kinds, kind);
            lemma_keys_are_finite(on, supported);
            lemma_inserted_came_from(
                run.rule,
                run.notices,
                target,
                name,
                keys_for(on, supported),
                key,
                label,
                alias,
            );
            lemma_key_of_a_use(kinds, kind, supported, key);
            assert(gives_under(deps, kind, labels, last, key, label, alias));
        }
    }
}

/// On every platform the first dependency under an alias stays: that of the rule
/// before, or else the first that was added.
pub proof fn law_first_alias_stays(
    rule: RuleModel,
    notices: Seq<NoticeModel>,
    deps: Seq<ResolvedDep>,
    kind: CargoTargetKind,
    supported: Seq<TargetPlatform>,
    labels: Seq<LabelModel>,
    n: int,
    label: Seq<char>,
    alias: Seq<char>,
)
    requires
        labels.len() <= deps.len(),
        deps_added(rule, notices, deps, kind, supported, labels).error is None,
        !rule.named_deps.contains_key(alias),
        gives_everywhere(deps, kind, labels, n, label, Some(alias)),
        forall|m: int, other: Seq<char>|
            m < n ==> !#[trigger] gives_everywhere(deps, kind, labels, m, other, Some(alias)),
    ensures
        deps_added(rule, notices, deps, kind, supported, labels).rule.named_deps[alias] == label,
    decreases labels.len(),
{
    let head = labels.drop_last();
    let last = labels.len() - 1;
    let run = deps_added(rule, notices, deps, kind, supported, head);
    let d = deps[last];
    lemma_used_everywhere(deps[n].dep.dep_kinds@, kind);
    if n < last {
        assert(gives_everywhere(deps, kind, head, n, label, Some(alias)));
        assert forall|m: int, other: Seq<char>| m < n implies !#[trigger] gives_everywhere(
            deps,
            kind,
            head,
            m,
            other,
            Some(alias),
        ) by {
            lemma_gives_more(deps, kind, labels, m, other, other, Some(alias));
            assert(!gives_everywhere(deps, kind, labels, m, other, Some(alias)));
        }
        law_first_alias_stays(rule, notices, deps, kind, supported, head, n, label, alias);
        law_used_dependencies_are_recorded(rule, notices, deps, kind, supported, head, n);
        lemma_dep_added_keeps(run.rule, run.notices, d, kind, supported, labels[last]);
        assert(run.rule.named_deps.dom().contains(alias));
    } else {
        if run.rule.named_deps.contains_key(alias) {
            let other = run.rule.named_deps[alias];
            law_nothing_else_is_recorded_everywhere(
                rule,
                notices,
                deps,
                kind,
                supported,
                head,
                other,
                alias,
            );
            let m = choose|m: int| #[trigger]
                gives_everywhere(deps, kind, head, m, other, Some(alias));
            lemma_gives_more(deps, kind, labels, m, other, other, Some(alias));
            assert(gives_everywhere(deps, kind, labels, m, other, Some(alias)));
        }
    }
}

/// An alias that leads somewhere else already: under a platform key that is an
/// error, and on every platform a warning, which leaves the rule as it is.
pub proof fn law_alias_conflicts_are_told(
    rule: RuleModel,
    notices: Seq<NoticeModel>,
    target: Seq<char>,
    alias: Seq<char>,
    keys: Set<Seq<char>>,
)
    requires
        keys.finite(),
    ensures
        inserted(rule, notices, target, Some(alias), Some(keys)).error is Some <==> exists|k: Seq<
            char,
        >|
            keys.contains(k) && rule.os_named_deps.contains_key(alias) && (
            #[trigger] rule.os_named_deps[alias].contains_key(k)) && rule.os_named_deps[alias][k]
                != target,
        inserted(rule, notices, target, Some(alias), Some(keys)).notices == notices,
        inserted(rule, notices, target, Some(alias), None).error is None,
        ({
            let run = inserted(rule, notices, target, Some(alias), None);
            let other = rule.named_deps.contains_key(alias) && rule.named_deps[alias] != target;
            &&& other ==> run.rule == rule && run.notices == notices.push(
                NoticeModel::Warning(
                    "named_deps alias '"@ + alias + "' had conflicting targets: '"@
                        + rule.named_deps[alias] + "' vs '"@ + target + "'"@,
                ),
            )
            &&& !other ==> run.notices == notices && run.rule.named_deps == rule.named_deps.insert(
                alias,
                target,
            )
        }),
{
    let entries = alias_entries(rule.os_named_deps, alias);
    let order = sorted::in_order(keys);
    sorted::lemma_in_order_is_order(keys);
    lemma_agreeing_bound(entries, order, target);
    let n = agreeing(entries, order, target) as int;
    if n < order.len() {
        lemma_agreeing_stops(entries, order, target);
        assert(order.contains(order[n]));
        assert(order.to_set().contains(order[n]));
        assert(keys.contains(order[n]) && rule.os_named_deps[alias].contains_key(order[n]));
    }
    if exists|k: Seq<char>|
        keys.contains(k) && rule.os_named_deps.contains_key(alias) && (
        #[trigger] rule.os_named_deps[alias].contains_key(k)) && rule.os_named_deps[alias][k]
            != target {
        let k = choose|k: Seq<char>|
            keys.contains(k) && rule.os_named_deps.contains_key(alias) && (
            #[trigger] rule.os_named_deps[alias].contains_key(k)) && rule.os_named_deps[alias][k]
                != target;
        assert(order.to_set().contains(k));
        let j = choose|j: int| 0 <= j < order.len() && order[j] == k;
        if n == order.len() {
            assert(!conflicts(entries, order[j], target));
        }
    }
    if rule.named_deps.contains_key(alias) && rule.named_deps[alias] == target {
        assert(rule.named_deps.insert(alias, target) =~= rule.named_deps);
    }
}

proof fn lemma_agreeing_stops(
    entries: Map<Seq<char>, Seq<char>>,
    keys: Seq<Seq<char>>,
    target: Seq<char>,
)
    requires
        agreeing(entries, keys, target) < keys.len(),
    ensures
        conflicts(entries, keys[agreeing(entries, keys, target) as int], target),
    decreases keys.len(),
{
    if !conflicts(entries, keys[0], target) {
        let rest = keys.drop_first();
        lemma_agreeing_stops(entries, rest, target);
        assert(rest[agreeing(entries, rest, target) as int] == keys[agreeing(
            entries,
            keys,
            target,
        ) as int]);
    }
}

/// A dependency that no use brings to a supported platform changes nothing in the
/// rule. It is noted where a use that the target sees names nothing but targets
/// that are not supported.
pub proof fn law_unused_dependencies_change_nothing(
    rule: RuleModel,
    notices: Seq<NoticeModel>,
    d: ResolvedDep,
    kind: CargoTargetKind,
    supported: Seq<TargetPlatform>,
    label: LabelModel,
)
    requires
        forall|i: int| !#[trigger] use_is_unbound(d.dep.dep_kinds@, kind, i),
        forall|i: int, p: TargetPlatform| !#[trigger] use_covers(d.dep.dep_kinds@, kind, i, p),
    ensures
        ({
            let run = dep_added(rule, notices, d, kind, supported, label);
            &&& run.rule == rule
            &&& run.error is None
            &&& (exists|i: int|
                0 <= i < d.dep.dep_kinds@.len() && kind_matches(
                    kind,
                    (#[trigger] d.dep.dep_kinds@[i]).kind,
                )) ==> run.notices == notices.push(
                NoticeModel::Note(
                    "Dependency '"@ + d.dep.name@ + "' (package '"@ + d.node.name@
                        + "') targets only unsupported platforms and will be omitted."@,
                ),
            )
            &&& !(exists|i: int|
                0 <= i < d.dep.dep_kinds@.len() && kind_matches(
                    kind,
                    (#[trigger] d.dep.dep_kinds@[i]).kind,
                )) ==> run.notices == notices
        }),
{
    let kinds = d.dep.dep_kinds@;
    law_what_is_used(d.dep, kind);
    if exists|i: int| 0 <= i < kinds.len() && kind_matches(kind, (#[trigger] kinds[i]).kind) {
        let i = choose|i: int| 0 <= i < kinds.len() && kind_matches(kind, (#[trigger] kinds[i]).kind);
        assert(!use_is_unbound(kinds, kind, i));
        let t = kinds[i].target->0;
        if t.platforms@.len() > 0 {
            assert(t.platforms@.contains(t.platforms@[0]));
            assert(use_covers(kinds, kind, i, t.platforms@[0]));
        }
        assert(applies_nowhere(kinds[i]));
    }
}

/// A dependency is used under an alias if and only if its name in the dependent
/// crate is not the name of the package with an underscore for each hyphen.
pub proof fn law_alias_is_another_name(name: Seq<char>, package: Seq<char>)
    ensures
        alias_of(name, package) is None <==> name.len() == package.len() && forall|i: int|
            0 <= i < name.len() ==> #[trigger] name[i] == if package[i] == '-' {
                '_'
            } else {
                package[i]
            },
        alias_of(name, package) matches Some(a) ==> a == name,
{
    let own = text::replace_char_in(package, '-', '_');
    if name.len() == package.len() && forall|i: int|
        0 <= i < name.len() ==> #[trigger] name[i] == if package[i] == '-' {
            '_'
        } else {
            package[i]
        } {
        assert(name =~= own);
    }
}

/// The rule of a library has the name of the library, unless a binary of the
/// package has it.
pub proof fn law_library_gives_way_to_a_binary(bins: Seq<Seq<char>>, lib: Seq<char>)
    ensures
        (forall|i: int| 0 <= i < bins.len() ==> #[trigger] bins[i] != lib) ==> library_rule_name(
            bins,
            lib,
        ) == lib,
        (exists|i: int| 0 <= i < bins.len() && #[trigger] bins[i] == lib) ==> library_rule_name(
            bins,
            lib,
        ) == lib + "-lib"@,
{
}

/// The label of a vendored package is that of the target with its name in its
/// vendor directory; that of a package that its uses are sent to, where they are.
pub proof fn law_vendored_label(
    d: ResolvedDep,
    root: Option<Seq<char>>,
    found: LabelModel,
    node: BuckalNode,
    vendor: String,
)
    requires
        label_found(d, root, found),
        (d.redirect is Keep && node == d.node) || d.redirect == Redirect::To(node),
        node.kind is ThirdParty,
        node.vendor_path == Some(vendor),
    ensures
        found matches Ok((label, _)) && label == "//"@ + vendor@ + ":"@ + node.name@,
{
}

/// The label of a first-party package is that of the rule of its library in the
/// directory of its manifest. A package without a library, or with several, has
/// none.
pub proof fn law_first_party_label(node: BuckalNode, dir: Seq<char>, lib: int)
    requires
        0 <= lib < node.targets@.len(),
        node.targets@[lib].is_lib(),
        forall|i: int|
            0 <= i < node.targets@.len() && i != lib ==> !(#[trigger] node.targets@[i]).is_lib(),
    ensures
        first_party_label(node, Ok(dir)) matches Ok(label) && {
            let name = node.targets@[lib].name@;
            let shared = exists|i: int|
                0 <= i < node.targets@.len() && (#[trigger] node.targets@[i]).is_of(TargetKind::Bin)
                    && node.targets@[i].name@ == name;
            label == "//"@ + dir + ":"@ + if shared {
                name + "-lib"@
            } else {
                name
            }
        },
{
    let targets = node.targets@;
    lemma_only_library(targets, lib);
    let name = targets[lib].name@;
    law_bin_targets_are_the_binaries(targets, targets[lib]);
    let bins = bin_names(targets);
    assert(lib_names(targets) =~= seq![name]);
    if bins.contains(name) {
        let k = choose|k: int| 0 <= k < bins.len() && bins[k] == name;
        let t = bin_targets(targets)[k];
        assert(bin_targets(targets).contains(t));
        law_bin_targets_are_the_binaries(targets, t);
        let i = choose|i: int| 0 <= i < targets.len() && targets[i] == t;
        assert(targets[i].is_of(TargetKind::Bin) && targets[i].name@ == name);
    }
    if exists|i: int|
        0 <= i < targets.len() && (#[trigger] targets[i]).is_of(TargetKind::Bin)
            && targets[i].name@ == name {
        let i = choose|i: int|
            0 <= i < targets.len() && (#[trigger] targets[i]).is_of(TargetKind::Bin)
                && targets[i].name@ == name;
        assert(targets.contains(targets[i]));
        law_bin_targets_are_the_binaries(targets, targets[i]);
        let k = choose|k: int|
            0 <= k < bin_targets(targets).len() && bin_targets(targets)[k] == targets[i];
        assert(bins[k] == name);
    }
}

proof fn lemma_only_library(targets: Seq<BuckalTarget>, lib: int)
    requires
        0 <= lib < targets.len(),
        targets[lib].is_lib(),
        forall|i: int| 0 <= i < targets.len() && i != lib ==> !(#[trigger] targets[i]).is_lib(),
    ensures
        lib_targets(targets) == seq![targets[lib]],
    decreases targets.len(),
{
    let head = targets.drop_last();
    if lib < targets.len() - 1 {
        assert(!targets[targets.len() - 1].is_lib());
        assert forall|i: int| 0 <= i < head.len() && i != lib implies !(
        #[trigger] head[i]).is_lib() by {
            assert(head[i] == targets[i]);
        }
        lemma_only_library(head, lib);
    } else {
        assert forall|i: int| 0 <= i < head.len() implies !(#[trigger] head[i]).is_lib() by {
            assert(head[i] == targets[i]);
        }
        lemma_no_library(head);
        assert(lib_targets(targets) =~= seq![targets[lib]]);
    }
}

proof fn lemma_no_library(targets: Seq<BuckalTarget>)
    requires
        forall|i: int| 0 <= i < targets.len() ==> !(#[trigger] targets[i]).is_lib(),
    ensures
        lib_targets(targets).len() == 0,
    decreases targets.len(),
{
    if targets.len() > 0 {
        assert(!targets[targets.len() - 1].is_lib());
        let head = targets.drop_last();
        assert forall|i: int| 0 <= i < head.len() implies !(#[trigger] head[i]).is_lib() by {
            assert(head[i] == targets[i]);
        }
        lemma_no_library(head);
    }
}

/// The binary targets of a package are those of its targets with that kind.
pub proof fn law_bin_targets_are_the_binaries(targets: Seq<BuckalTarget>, t: BuckalTarget)
    ensures
        bin_targets(targets).contains(t) <==> targets.contains(t) && t.kind@.contains(
            TargetKind::Bin,
        ),
    decreases targets.len(),
{
    if targets.len() > 0 {
        let head = targets.drop_last();
        law_bin_targets_are_the_binaries(head, t);
        lemma_contains_or_last(targets, t);
        if targets.last().is_of(TargetKind::Bin) {
            let now = bin_targets(targets);
            assert(now.drop_last() =~= bin_targets(head));
            lemma_contains_or_last(now, t);
        }
    }
}

/// The library targets of a package are those of its targets with a kind of
/// library.
pub proof fn law_lib_targets_are_the_libraries(targets: Seq<BuckalTarget>, t: BuckalTarget)
    ensures
        lib_targets(targets).contains(t) <==> targets.contains(t) && exists|i: int|
            0 <= i < t.kind@.len() && {
                let kind = #[trigger] t.kind@[i];
                kind != TargetKind::Bin && kind != TargetKind::Test && kind != TargetKind::Example
                    && kind != TargetKind::Bench && kind != TargetKind::CustomBuild
            },
    decreases targets.len(),
{
    if t.is_lib() {
        let i = choose|i: int| 0 <= i < t.kind@.len() && #[trigger] crate::resolve::lib_like(
            t.kind@[i],
        );
        assert(t.kind@[i] != TargetKind::Bin);
    }
    if exists|i: int|
        0 <= i < t.kind@.len() && {
            let kind = #[trigger] t.kind@[i];
            kind != TargetKind::Bin && kind != TargetKind::Test && kind != TargetKind::Example
                && kind != TargetKind::Bench && kind != TargetKind::CustomBuild
        } {
        let i = choose|i: int|
            0 <= i < t.kind@.len() && {
                let kind = #[trigger] t.kind@[i];
                kind != TargetKind::Bin && kind != TargetKind::Test && kind != TargetKind::Example
                    && kind != TargetKind::Bench && kind != TargetKind::CustomBuild
            };
        assert(crate::resolve::lib_like(t.kind@[i]));
    }
    if targets.len() > 0 {
        let head = targets.drop_last();
        law_lib_targets_are_the_libraries(head, t);
        lemma_contains_or_last(targets, t);
        if targets.last().is_lib() {
            let now = lib_targets(targets);
            assert(now.drop_last() =~= lib_targets(head));
            lemma_contains_or_last(now, t);
        }
    }
}

proof fn lemma_contains_or_last(s: Seq<BuckalTarget>, t: BuckalTarget)
    requires
        s.len() > 0,
    ensures
        s.contains(t) <==> s.drop_last().contains(t) || s.last() == t,
{
    let head = s.drop_last();
    if s.contains(t) {
        let j = choose|j: int| 0 <= j < s.len() && s[j] == t;
        if j < head.len() {
            assert(head[j] == t);
        }
    }
    if head.contains(t) {
        let j = choose|j: int| 0 <= j < head.len() && head[j] == t;
        assert(s[j] == t);
    }
    assert(s[s.len() - 1] == s.last());
}

/// The targets of two lists are those of the first and then those of the second.
pub proof fn law_targets_keep_their_order(a: Seq<BuckalTarget>, b: Seq<BuckalTarget>)
    ensures
        lib_targets(a + b) == lib_targets(a) + lib_targets(b),
        bin_targets(a + b) == bin_targets(a) + bin_targets(b),
    decreases b.len(),
{
    if b.len() == 0 {
        assert(a + b =~= a);
        assert(lib_targets(a) + lib_targets(b) =~= lib_targets(a));
        assert(bin_targets(a) + bin_targets(b) =~= bin_targets(a));
    } else {
        law_targets_keep_their_order(a, b.drop_last());
        assert((a + b).drop_last() =~= a + b.drop_last());
        assert((a + b).last() == b.last());
        assert(lib_targets(a + b) =~= lib_targets(a) + lib_targets(b));
        assert(bin_targets(a + b) =~= bin_targets(a) + bin_targets(b));
    }
}

/// The keys of platforms are the names of the operating systems, and those names
/// with the names of the CPUs behind a hyphen.
pub proof fn law_keys_are_names()
    ensures
        Os::Linux.key_text() == "linux"@,
        Os::Macos.key_text() == "macos"@,
        Os::Windows.key_text() == "windows"@,
        forall|os: Os|
            #[trigger] (TargetPlatform { os, arch: crate::resolve::Arch::X86_64 }).key_text()
                == os.key_text() + "-x86_64"@,
        forall|os: Os|
            #[trigger] (TargetPlatform { os, arch: crate::resolve::Arch::Arm64 }).key_text()
                == os.key_text() + "-arm64"@,
{
    reveal_strlit("-");
    reveal_strlit("x86_64");
    reveal_strlit("arm64");
    reveal_strlit("-x86_64");
    reveal_strlit("-arm64");
    assert("-"@ + "x86_64"@ =~= "-x86_64"@);
    assert("-"@ + "arm64"@ =~= "-arm64"@);
    assert forall|os: Os|
        #[trigger] (TargetPlatform { os, arch: crate::resolve::Arch::X86_64 }).key_text()
            == os.key_text() + "-x86_64"@ by {
        assert(os.key_text() + "-"@ + "x86_64"@ =~= os.key_text() + ("-"@ + "x86_64"@));
    }
    assert forall|os: Os|
        #[trigger] (TargetPlatform { os, arch: crate::resolve::Arch::Arm64 }).key_text()
            == os.key_text() + "-arm64"@ by {
        assert(os.key_text() + "-"@ + "arm64"@ =~= os.key_text() + ("-"@ + "arm64"@));
    }
}

/// A platform that a dependency covers is recorded under its operating system if and
/// only if the dependency covers each supported platform with that operating system;
/// else it is recorded under its own key. No other platform makes a key.
pub proof fn law_key_of_a_platform(
    matched: Seq<TargetPlatform>,
    supported: Seq<TargetPlatform>,
    p: TargetPlatform,
    key: Seq<char>,
)
    ensures
        matched.contains(p) && (forall|i: int|
            0 <= i < supported.len() && (#[trigger] supported[i]).os == p.os ==> matched.contains(
                supported[i],
            )) ==> keys_for(matched, supported).contains(p.os.key_text()) && !keys_for(
            matched,
            supported,
        ).contains(p.key_text()),
        matched.contains(p) && (exists|i: int|
            0 <= i < supported.len() && (#[trigger] supported[i]).os == p.os && !matched.contains(
                supported[i],
            )) ==> keys_for(matched, supported).contains(p.key_text()) && !keys_for(
            matched,
            supported,
        ).contains(p.os.key_text()),
        keys_for(matched, supported).contains(key) ==> exists|k: int|
            0 <= k < matched.len() && (key == (#[trigger] matched[k]).os.key_text() || key
                == matched[k].key_text()),
{
    law_platform_gets_one_key(matched, supported, p);
    if exists|i: int|
        0 <= i < supported.len() && (#[trigger] supported[i]).os == p.os && !matched.contains(
            supported[i],
        ) {
        let i = choose|i: int|
            0 <= i < supported.len() && (#[trigger] supported[i]).os == p.os && !matched.contains(
                supported[i],
            );
        assert(!matched.contains(supported[i]));
        assert(!covers(matched, supported, p.os));
    }
    if keys_for(matched, supported).contains(key) {
        let keys = matched.map_values(|q: TargetPlatform| key_for(matched, supported, q));
        assert(keys.contains(key));
        let k = choose|k: int| 0 <= k < keys.len() && keys[k] == key;
        assert(key == key_for(matched, supported, matched[k]));
    }
}

/// A dependency that is used and whose label cannot be resolved stops the run: with
/// its name, that of its package, and the reason. The rule stays as it is.
pub proof fn law_unresolved_labels_stop_the_run(
    rule: RuleModel,
    notices: Seq<NoticeModel>,
    d: ResolvedDep,
    kind: CargoTargetKind,
    supported: Seq<TargetPlatform>,
    messages: Seq<Seq<char>>,
    i: int,
    p: TargetPlatform,
)
    requires
        use_is_unbound(d.dep.dep_kinds@, kind, i) || use_covers(d.dep.dep_kinds@, kind, i, p),
    ensures
        dep_added(rule, notices, d, kind, supported, Err(messages)) == (RunModel {
            rule,
            notices,
            error: Some(
                seq![
                    "failed to resolve dependency label for '"@ + d.dep.name@ + "' (package '"@
                        + d.node.name@ + "')"@,
                ] + messages,
            ),
        }),
{
    law_what_is_used(d.dep, kind);
}

/// The first error ends a run: what comes behind it changes nothing. Without one the
/// dependencies are added one by one.
pub proof fn law_first_error_ends_the_run(
    rule: RuleModel,
    notices: Seq<NoticeModel>,
    deps: Seq<ResolvedDep>,
    kind: CargoTargetKind,
    supported: Seq<TargetPlatform>,
    labels: Seq<LabelModel>,
    more: Seq<LabelModel>,
    label: LabelModel,
)
    ensures
        deps_added(rule, notices, deps, kind, supported, Seq::empty()) == (RunModel {
            rule,
            notices,
            error: None,
        }),
        ({
            let run = deps_added(rule, notices, deps, kind, supported, labels);
            &&& run.error is Some ==> deps_added(
                rule,
                notices,
                deps,
                kind,
                supported,
                labels + more,
            ) == run
            &&& run.error is None ==> deps_added(
                rule,
                notices,
                deps,
                kind,
                supported,
                labels.push(label),
            ) == dep_added(
                run.rule,
                run.notices,
                deps[labels.len() as int],
                kind,
                supported,
                label,
            )
        }),
    decreases more.len(),
{
    assert(labels.push(label).drop_last() =~= labels);
    if more.len() == 0 {
        assert(labels + more =~= labels);
    } else {
        law_first_error_ends_the_run(
            rule,
            notices,
            deps,
            kind,
            supported,
            labels,
            more.drop_last(),
            label,
        );
        assert((labels + more).drop_last() =~= labels + more.drop_last());
    }
}

/// A conflict under a platform key is told with the alias, the key and both targets.
pub proof fn law_key_conflicts_are_told(
    rule: RuleModel,
    notices: Seq<NoticeModel>,
    target: Seq<char>,
    alias: Seq<char>,
    keys: Set<Seq<char>>,
)
    requires
        keys.finite(),
        inserted(rule, notices, target, Some(alias), Some(keys)).error is Some,
    ensures
        exists|k: Seq<char>|
            keys.contains(k) && #[trigger] rule.os_named_deps[alias].contains_key(k)
                && rule.os_named_deps[alias][k] != target && inserted(
                rule,
                notices,
                target,
                Some(alias),
                Some(keys),
            ).error == Some(
                seq![
                    "os_named_deps alias '"@ + alias
                        + "' had conflicting targets for platform key '"@ + k + "': '"@
                        + rule.os_named_deps[alias][k] + "' vs '"@ + target + "'"@,
                ],
            ),
{
    let entries = alias_entries(rule.os_named_deps, alias);
    let order = sorted::in_order(keys);
    sorted::lemma_in_order_is_order(keys);
    lemma_agreeing_bound(entries, order, target);
    lemma_agreeing_stops(entries, order, target);
    let n = agreeing(entries, order, target) as int;
    assert(order.contains(order[n]));
    assert(order.to_set().contains(order[n]));
    assert(rule.os_named_deps[alias].contains_key(order[n]));
}

/// A first-party package without a library, or with several, has no label, and is
/// told with the number of its libraries. A directory that was not found is told as
/// it is.
pub proof fn law_no_first_party_label(
    node: BuckalNode,
    dir: Seq<char>,
    messages: Seq<Seq<char>>,
)
    ensures
        lib_targets(node.targets@).len() != 1 ==> first_party_label(node, Ok(dir)) == Err::<
            Seq<char>,
            Seq<Seq<char>>,
        >(
            seq![
                "Expected exactly one library target for dependency "@ + node.name@
                    + ", but found "@ + text::decimal(lib_targets(node.targets@).len()),
            ],
        ),
        lib_targets(node.targets@).len() == 1 ==> first_party_label(node, Ok(dir)) is Ok,
        first_party_label(node, Err(messages)) == Err::<Seq<char>, Seq<Seq<char>>>(messages),
{
    assert(lib_names(node.targets@).len() == lib_targets(node.targets@).len());
}

/// The label of a dependency on a first-party package is that of the package, and
/// its alias is told by the name of the package that the uses end at. A vendored
/// package without a directory, a redirection that fails, and a label that cannot be
/// resolved are errors that say so.
pub proof fn law_label_of_a_dependency(
    d: ResolvedDep,
    root: Option<Seq<char>>,
    found: LabelModel,
    node: BuckalNode,
    reason: String,
)
    requires
        label_found(d, root, found),
    ensures
        d.redirect == Redirect::Fails(reason) ==> found == Err::<
            (Seq<char>, Option<Seq<char>>),
            Seq<Seq<char>>,
        >(seq![reason@]),
        ((d.redirect is Keep && node == d.node) || d.redirect == Redirect::To(node))
            && node.kind is ThirdParty && node.vendor_path is None ==> found == Err::<
            (Seq<char>, Option<Seq<char>>),
            Seq<Seq<char>>,
        >(seq!["package `"@ + node.package_id@ + "` has no vendor directory"@]),
        ((d.redirect is Keep && node == d.node) || d.redirect == Redirect::To(node)) ==> (
        found matches Ok((_, alias)) ==> alias == alias_of(d.dep.name@, node.name@)),
        ((d.redirect is Keep && node == d.node) || d.redirect == Redirect::To(node))
            && node.kind is FirstParty && root is None ==> found == Err::<
            (Seq<char>, Option<Seq<char>>),
            Seq<Seq<char>>,
        >(
            seq![
                "failed to resolve first-party label for `"@ + node.name@ + "`"@,
                "failed to get buck2 root"@,
            ],
        ),
{
    if ((d.redirect is Keep && node == d.node) || d.redirect == Redirect::To(node))
        && node.kind is FirstParty && root is None {
        assert(seq!["failed to resolve first-party label for `"@ + node.name@ + "`"@] + seq![
            "failed to get buck2 root"@,
        ] =~= seq![
            "failed to resolve first-party label for `"@ + node.name@ + "`"@,
            "failed to get buck2 root"@,
        ]);
    }
}

/// The directory of a manifest below the project root is the one that was found; a
/// manifest elsewhere is an error that says where.
pub proof fn law_directory_in(dir: Seq<char>, root: Seq<char>)
    ensures
        directory_in(paths::PlaceModel::Below(dir), root) == Ok::<Seq<char>, Seq<Seq<char>>>(dir),
        directory_in(paths::PlaceModel::Outside(dir), root) == Err::<Seq<char>, Seq<Seq<char>>>(
            seq![
                "dependency manifest dir `"@ + dir + "` is not under Buck2 root `"@ + root
                    + "`"@,
            ],
        ),
        directory_in(paths::PlaceModel::Nowhere, root) is Err,
{
}

/// A dependency on a first-party package has the label of the package, or fails with
/// the name of the package before the reason why there is none.
pub proof fn law_first_party_dependency(
    d: ResolvedDep,
    root: Option<Seq<char>>,
    found: LabelModel,
    node: BuckalNode,
)
    requires
        label_found(d, root, found),
        (d.redirect is Keep && node == d.node) || d.redirect == Redirect::To(node),
        node.kind is FirstParty,
    ensures
        found matches Ok((label, _)) ==> first_party_found(node, root, Ok(label)),
        found matches Err(messages) ==> messages.len() > 0 && messages[0]
            == "failed to resolve first-party label for `"@ + node.name@ + "`"@
            && first_party_found(node, root, Err(messages.skip(1))),
{
    let label = choose|label: Result<Seq<char>, Seq<Seq<char>>>|
        #[trigger] first_party_found(node, root, label) && found == match label {
            Ok(label) => Ok::<(Seq<char>, Option<Seq<char>>), Seq<Seq<char>>>(
                (label, alias_of(d.dep.name@, node.name@)),
            ),
            Err(messages) => Err(
                seq!["failed to resolve first-party label for `"@ + node.name@ + "`"@]
                    + messages,
            ),
        };
    if let Err(messages) = label {
        assert(found->Err_0.skip(1) =~= messages);
    }
}

} // verus!
