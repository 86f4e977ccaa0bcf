//! Import-library search paths for the rules that link on Windows.
//!
//! A few crates ship a prebuilt import library, and the search path for it has
//! to reach whatever links. The rules that link get a `select()` behind their
//! `rustc_flags` which pulls in the flags that those crates' build scripts
//! print.

use vstd::prelude::*;
use vstd::string::*;
use vstd::utf8::*;

use crate::buckify::starlark::{
    parse_statements, pretty_print_expr, StarlarkArg, StarlarkExpr, StarlarkStmt, StarlarkValue,
};
use crate::resolve::{BuckalDep, BuckalNode, BuckalTarget, DependencyKind, TargetKind};
use crate::buckify::starlark;
use crate::sorted;
use crate::sorted::{less, StringSet};
use crate::text;
use crate::text::same_text;

verus! {

/// The flags that the providers of import libraries ask for.
#[derive(Debug)]
pub struct WindowsImportLibFlags {
    /// Flags for the GNU targets.
    pub gnu: Vec<String>,
    /// Flags for the MSVC targets.
    pub msvc_x86_64: Vec<String>,
}

impl Default for WindowsImportLibFlags {
    /// No flags.
    fn default() -> (r: WindowsImportLibFlags)
        ensures
            r.gnu@.len() == 0,
            r.msvc_x86_64@.len() == 0,
    {
        WindowsImportLibFlags { gnu: Vec::new(), msvc_x86_64: Vec::new() }
    }
}

/// A provider of an import library that is not vendored.
#[derive(Debug)]
pub struct UnvendoredProvider {
    /// The package's identifier.
    pub package: String,
}

/// The model of [`WindowsImportLibFlags`].
pub ghost struct FlagsModel {
    pub gnu: Seq<Seq<char>>,
    pub msvc_x86_64: Seq<Seq<char>>,
}

impl View for WindowsImportLibFlags {
    type V = FlagsModel;

    open spec fn view(&self) -> FlagsModel {
        FlagsModel { gnu: text::views(self.gnu@), msvc_x86_64: text::views(self.msvc_x86_64@) }
    }
}

/// The flag that pulls in what the build script of the package vendored at
/// `vendor_path` prints.
pub open spec fn run_flag(vendor_path: Seq<char>) -> Seq<char> {
    "@$(location //"@ + vendor_path + ":build-script-run[rustc_flags])"@
}

/// The flag that pulls in what the build script of the package vendored at
/// `vendor_path` prints.
pub fn build_script_run_flag(vendor_path: &str) -> (r: String)
    ensures
        r@ == run_flag(vendor_path@),
{
    let mut out = "@$(location //".to_owned();
    out.append(vendor_path);
    out.append(":build-script-run[rustc_flags])");
    out
}

/// `order` with `k` put behind the nodes whose version is no greater than its
/// own.
pub open spec fn placed(nodes: Seq<BuckalNode>, order: Seq<int>, k: int) -> Seq<int>
    decreases order.len(),
{
    if order.len() > 0 && sorted::lex_lt(nodes[k].version@, nodes[order.last()].version@) {
        placed(nodes, order.drop_last(), k).push(order.last())
    } else {
        order.push(k)
    }
}

/// The positions of those of the first `n` nodes that are named `name`, by
/// version; nodes of one version stay in the order of the graph.
pub open spec fn providers(nodes: Seq<BuckalNode>, name: Seq<char>, n: nat) -> Seq<int>
    decreases n,
{
    if n == 0 || n > nodes.len() {
        Seq::empty()
    } else {
        let rest = providers(nodes, name, (n - 1) as nat);
        if nodes[n - 1].name@ == name {
            placed(nodes, rest, n - 1)
        } else {
            rest
        }
    }
}

/// Whether the node at `a` comes before the one at `b`: it has the smaller
/// version, or the same version and the earlier position.
pub open spec fn version_before(nodes: Seq<BuckalNode>, a: int, b: int) -> bool {
    ||| sorted::lex_lt(nodes[a].version@, nodes[b].version@)
    ||| nodes[a].version@ == nodes[b].version@ && a < b
}

/// The flags of the nodes at the first `n` positions of `order`, or the
/// identifier of the first of them that is not vendored.
pub open spec fn collected(nodes: Seq<BuckalNode>, order: Seq<int>, n: nat) -> Result<
    Seq<Seq<char>>,
    Seq<char>,
>
    decreases n,
{
    if n == 0 || n > order.len() {
        Ok(Seq::empty())
    } else {
        match collected(nodes, order, (n - 1) as nat) {
            Err(e) => Err(e),
            Ok(v) => match nodes[order[n - 1]].vendor_path {
                Some(p) => Ok(v.push(run_flag(p@))),
                None => Err(nodes[order[n - 1]].package_id@),
            },
        }
    }
}

/// The flags of every node named `name`.
pub open spec fn flags_of(nodes: Seq<BuckalNode>, name: Seq<char>) -> Result<
    Seq<Seq<char>>,
    Seq<char>,
> {
    let order = providers(nodes, name, nodes.len());
    collected(nodes, order, order.len())
}

/// The flags that the providers of import libraries ask for.
pub open spec fn import_flags(nodes: Seq<BuckalNode>) -> Result<FlagsModel, Seq<char>> {
    match flags_of(nodes, "windows_x86_64_gnu"@) {
        Err(e) => Err(e),
        Ok(gnu) => match flags_of(nodes, "winapi-x86_64-pc-windows-gnu"@) {
            Err(e) => Err(e),
            Ok(winapi) => match flags_of(nodes, "windows_x86_64_msvc"@) {
                Err(e) => Err(e),
                Ok(msvc) => Ok(FlagsModel { gnu: gnu + winapi, msvc_x86_64: msvc }),
            },
        },
    }
}

/// The positions of a vector of indices.
pub open spec fn positions(v: Seq<usize>) -> Seq<int> {
    Seq::new(v.len(), |i: int| v[i] as int)
}

proof fn lemma_placed_insert(nodes: Seq<BuckalNode>, order: Seq<int>, k: int, p: int)
    requires
        0 <= p <= order.len(),
        forall|j: int|
            p <= j < order.len() ==> sorted::lex_lt(
                nodes[k].version@,
                nodes[#[trigger] order[j]].version@,
            ),
        p > 0 ==> !sorted::lex_lt(nodes[k].version@, nodes[order[p - 1]].version@),
    ensures
        placed(nodes, order, k) == order.insert(p, k),
    decreases order.len(),
{
    if p == order.len() {
        assert(order.insert(p, k) =~= order.push(k));
    } else {
        let rest = order.drop_last();
        assert(order[order.len() - 1] == order.last());
        assert forall|j: int| p <= j < rest.len() implies sorted::lex_lt(
            nodes[k].version@,
            nodes[#[trigger] rest[j]].version@,
        ) by {
            assert(rest[j] == order[j]);
        }
        lemma_placed_insert(nodes, rest, k, p);
        assert(rest.insert(p, k).push(order.last()) =~= order.insert(p, k));
    }
}

proof fn lemma_placed(nodes: Seq<BuckalNode>, order: Seq<int>, k: int)
    requires
        forall|i: int, j: int|
            0 <= i < j < order.len() ==> version_before(
                nodes,
                #[trigger] order[i],
                #[trigger] order[j],
            ),
        forall|i: int| 0 <= i < order.len() ==> #[trigger] order[i] < k,
    ensures
        forall|i: int, j: int|
            0 <= i < j < placed(nodes, order, k).len() ==> version_before(
                nodes,
                #[trigger] placed(nodes, order, k)[i],
                #[trigger] placed(nodes, order, k)[j],
            ),
        forall|x: int|
            #[trigger] placed(nodes, order, k).contains(x) <==> x == k || order.contains(x),
        placed(nodes, order, k).len() == order.len() + 1,
    decreases order.len(),
{
    let out = placed(nodes, order, k);
    let vk = nodes[k].version@;
    if order.len() > 0 && sorted::lex_lt(vk, nodes[order.last()].version@) {
        let rest = order.drop_last();
        let inner = placed(nodes, rest, k);
        assert forall|i: int, j: int| 0 <= i < j < rest.len() implies version_before(
            nodes,
            #[trigger] rest[i],
            #[trigger] rest[j],
        ) by {
            assert(rest[i] == order[i] && rest[j] == order[j]);
        }
        assert forall|i: int| 0 <= i < rest.len() implies #[trigger] rest[i] < k by {
            assert(rest[i] == order[i]);
        }
        lemma_placed(nodes, rest, k);
        assert(out == inner.push(order.last()));
        assert forall|i: int, j: int| 0 <= i < j < out.len() implies version_before(
            nodes,
            #[trigger] out[i],
            #[trigger] out[j],
        ) by {
            assert(out[i] == inner[i]);
            if j < inner.len() {
                assert(out[j] == inner[j]);
            } else {
                assert(inner.contains(inner[i]));
                if inner[i] != k {
                    let m = choose|m: int| 0 <= m < rest.len() && rest[m] == inner[i];
                    assert(order[m] == inner[i]);
                    assert(version_before(nodes, order[m], order[order.len() - 1]));
                }
            }
        }
        assert forall|x: int| #[trigger] out.contains(x) <==> x == k || order.contains(x) by {
            if out.contains(x) {
                let m = choose|m: int| 0 <= m < out.len() && out[m] == x;
                if m < inner.len() {
                    assert(inner[m] == x);
                    assert(inner.contains(x));
                    if x != k {
                        let q = choose|q: int| 0 <= q < rest.len() && rest[q] == x;
                        assert(order[q] == x);
                    }
                } else {
                    assert(order[order.len() - 1] == x);
                }
            }
            if x == k || order.contains(x) {
                if x == order.last() {
                    assert(out[out.len() - 1] == x);
                } else {
                    if x != k {
                        let q = choose|q: int| 0 <= q < order.len() && order[q] == x;
                        assert(rest[q] == x);
                    }
                    assert(inner.contains(x));
                    let m = choose|m: int| 0 <= m < inner.len() && inner[m] == x;
                    assert(out[m] == x);
                }
            }
        }
    } else {
        assert(out == order.push(k));
        assert forall|i: int, j: int| 0 <= i < j < out.len() implies version_before(
            nodes,
            #[trigger] out[i],
            #[trigger] out[j],
        ) by {
            assert(out[i] == order[i]);
            if j < order.len() {
                assert(out[j] == order[j]);
            } else {
                let last = order.len() - 1;
                crate::sorted::lemma_lex_total(vk, nodes[order[last]].version@);
                if i < last {
                    assert(version_before(nodes, order[i], order[last]));
                    if sorted::lex_lt(nodes[order[i]].version@, nodes[order[last]].version@) && sorted::lex_lt(
                        nodes[order[last]].version@,
                        vk,
                    ) {
                        crate::sorted::lemma_lex_transitive(
                            nodes[order[i]].version@,
                            nodes[order[last]].version@,
                            vk,
                        );
                    }
                }
            }
        }
        assert forall|x: int| #[trigger] out.contains(x) <==> x == k || order.contains(x) by {
            if out.contains(x) {
                let m = choose|m: int| 0 <= m < out.len() && out[m] == x;
                if m < order.len() {
                    assert(order[m] == x);
                }
            }
            if x == k {
                assert(out[order.len() as int] == x);
            }
            if order.contains(x) {
                let m = choose|m: int| 0 <= m < order.len() && order[m] == x;
                assert(out[m] == x);
            }
        }
    }
}

/// The providers of a name are exactly the nodes with that name, each once, in
/// the order of their versions, and nodes of one version in the order of the
/// graph.
pub proof fn law_providers_by_version(nodes: Seq<BuckalNode>, name: Seq<char>, n: nat)
    requires
        n <= nodes.len(),
    ensures
        forall|k: int|
            #[trigger] providers(nodes, name, n).contains(k) <==> 0 <= k < n && nodes[k].name@
                == name,
        forall|i: int, j: int|
            0 <= i < j < providers(nodes, name, n).len() ==> version_before(
                nodes,
                #[trigger] providers(nodes, name, n)[i],
                #[trigger] providers(nodes, name, n)[j],
            ),
    decreases n,
{
    if n > 0 {
        let rest = providers(nodes, name, (n - 1) as nat);
        law_providers_by_version(nodes, name, (n - 1) as nat);
        assert forall|i: int| 0 <= i < rest.len() implies #[trigger] rest[i] < n - 1 by {
            assert(rest.contains(rest[i]));
        }
        if nodes[n - 1].name@ == name {
            lemma_placed(nodes, rest, n - 1);
        }
    }
}

/// The positions of the nodes named `name`, by version.
pub fn provider_order(nodes: &Vec<BuckalNode>, name: &str) -> (r: Vec<usize>)
    ensures
        positions(r@) == providers(nodes@, name@, nodes@.len()),
        forall|i: int| 0 <= i < r@.len() ==> #[trigger] r@[i] < nodes@.len(),
{
    let mut order: Vec<usize> = Vec::new();
    let mut n: usize = 0;
    proof {
        assert(positions(order@) =~= providers(nodes@, name@, 0));
    }
    while n < nodes.len()
        invariant
            n <= nodes@.len(),
            positions(order@) == providers(nodes@, name@, n as nat),
            forall|i: int| 0 <= i < order@.len() ==> #[trigger] order@[i] < n,
        decreases nodes@.len() - n,
    {
        if same_text(nodes[n].name.as_str(), name) {
            let ghost before = order@;
            let mut p: usize = order.len();
            while p > 0 && less(
                nodes[n].version.as_str(),
                nodes[order[p - 1]].version.as_str(),
            )
                invariant
                    n < nodes@.len(),
                    p <= order@.len(),
                    order@ == before,
                    forall|i: int| 0 <= i < order@.len() ==> #[trigger] order@[i] < n,
                    forall|j: int|
                        p <= j < order@.len() ==> sorted::lex_lt(
                            nodes@[n as int].version@,
                            nodes@[#[trigger] order@[j] as int].version@,
                        ),
                decreases p,
            {
                p = p - 1;
            }
            proof {
                assert forall|j: int| p <= j < positions(before).len() implies sorted::lex_lt(
                    nodes@[n as int].version@,
                    nodes@[#[trigger] positions(before)[j]].version@,
                ) by {
                    assert(positions(before)[j] == before[j] as int);
                }
                lemma_placed_insert(nodes@, positions(before), n as int, p as int);
            }
            order.insert(p, n);
            proof {
                assert(positions(order@) =~= positions(before).insert(p as int, n as int));
            }
        }
        n = n + 1;
    }
    order
}

/// The flags of the nodes named `name`, behind what `out` holds, or the first
/// of them that is not vendored.
fn push_build_script_rustc_flags(
    nodes: &Vec<BuckalNode>,
    name: &str,
    out: &mut Vec<String>,
) -> (r: Result<(), UnvendoredProvider>)
    ensures
        match flags_of(nodes@, name@) {
            Ok(v) => r is Ok && text::views(final(out)@) == text::views(old(out)@) + v,
            Err(e) => r matches Err(u) && u.package@ == e,
        },
{
    let order = provider_order(nodes, name);
    let ghost spots = positions(order@);
    let mut i: usize = 0;
    proof {
        assert(text::views(out@) =~= text::views(old(out)@) + Seq::<Seq<char>>::empty());
    }
    while i < order.len()
        invariant
            i <= order@.len(),
            spots == positions(order@),
            spots == providers(nodes@, name@, nodes@.len()),
            forall|k: int| 0 <= k < order@.len() ==> #[trigger] order@[k] < nodes@.len(),
            collected(nodes@, spots, i as nat) matches Ok(v) && text::views(out@) == text::views(old(out)@)
                + v,
        decreases order@.len() - i,
    {
        let node = &nodes[order[i]];
        proof {
            assert(spots[i as int] == order@[i as int] as int);
        }
        match &node.vendor_path {
            Some(p) => {
                let ghost before = text::views(out@);
                let ghost so_far = collected(nodes@, spots, i as nat)->Ok_0;
                let flag = build_script_run_flag(p.as_str());
                out.push(flag);
                proof {
                    assert(text::views(out@) =~= before.push(flag@));
                    assert(text::views(out@) =~= text::views(old(out)@) + so_far.push(flag@));
                }
            },
            None => {
                proof {
                    lemma_collected_err(nodes@, spots, (i + 1) as nat, spots.len());
                }
                return Err(UnvendoredProvider { package: node.package_id.repr.clone() });
            },
        }
        i = i + 1;
    }
    Ok(())
}

proof fn lemma_collected_err(nodes: Seq<BuckalNode>, order: Seq<int>, n: nat, m: nat)
    requires
        n <= m <= order.len(),
        collected(nodes, order, n) is Err,
    ensures
        collected(nodes, order, m) == collected(nodes, order, n),
    decreases m - n,
{
    if n < m {
        lemma_collected_err(nodes, order, n, (m - 1) as nat);
    }
}

/// The flags that the providers of import libraries ask for, or the first
/// provider that is not vendored.
pub fn windows_import_lib_flags(nodes: &Vec<BuckalNode>) -> (r: Result<
    WindowsImportLibFlags,
    UnvendoredProvider,
>)
    ensures
        match import_flags(nodes@) {
            Ok(f) => r matches Ok(flags) && flags@ == f,
            Err(e) => r matches Err(u) && u.package@ == e,
        },
{
    let mut gnu: Vec<String> = Vec::new();
    let mut msvc_x86_64: Vec<String> = Vec::new();
    let ghost none = text::views(gnu@);

    // GNU targets.
    match push_build_script_rustc_flags(nodes, "windows_x86_64_gnu", &mut gnu) {
        Ok(()) => {},
        Err(e) => {
            return Err(e);
        },
    }
    match push_build_script_rustc_flags(nodes, "winapi-x86_64-pc-windows-gnu", &mut gnu) {
        Ok(()) => {},
        Err(e) => {
            return Err(e);
        },
    }

    // MSVC targets.
    match push_build_script_rustc_flags(nodes, "windows_x86_64_msvc", &mut msvc_x86_64) {
        Ok(()) => {},
        Err(e) => {
            return Err(e);
        },
    }
    proof {
        let f = import_flags(nodes@)->Ok_0;
        assert(text::views(gnu@) =~= f.gnu);
        assert(text::views(msvc_x86_64@) =~= f.msvc_x86_64);
    }
    Ok(WindowsImportLibFlags { gnu, msvc_x86_64 })
}

/// The lines of the first `n` string literals of a list.
pub open spec fn list_rows(items: Seq<Seq<char>>, indent: nat, n: nat) -> Seq<char>
    decreases n,
{
    if n == 0 || n > items.len() {
        Seq::empty()
    } else {
        list_rows(items, indent, (n - 1) as nat) + starlark::spaces(indent + 4) + starlark::quoted(
            items[n - 1],
        ) + ",\n"@
    }
}

/// The list of string literals with these contents, which starts in a line
/// indented by `indent`.
pub open spec fn list_text(items: Seq<Seq<char>>, indent: nat) -> Seq<char> {
    if items.len() == 0 {
        "[]"@
    } else {
        "[\n"@ + list_rows(items, indent, items.len()) + starlark::spaces(indent) + "]"@
    }
}

/// The line of an entry of a `select` that starts in a line indented by
/// `indent`.
pub open spec fn select_row(key: Seq<char>, value: Seq<char>, indent: nat) -> Seq<char> {
    starlark::spaces(indent + 4) + starlark::quoted(key) + ": "@ + value + ",\n"@
}

/// The `select` with these lines, which starts in a line indented by `indent`.
pub open spec fn select_text(rows: Seq<char>, indent: nat) -> Seq<char> {
    "select({\n"@ + rows + starlark::spaces(indent) + "})"@
}

/// The `select` over these flags: on Windows, those for the GNU ABI or those
/// for any other, and none elsewhere. No text where there are no flags.
pub open spec fn windows_select(f: FlagsModel) -> Seq<char> {
    if f.gnu.len() == 0 && f.msvc_x86_64.len() == 0 {
        Seq::empty()
    } else {
        let on_windows = select_text(
            select_row("prelude//abi/constraints:gnu"@, list_text(f.gnu, 12), 8) + select_row(
                "DEFAULT"@,
                list_text(f.msvc_x86_64, 12),
                8,
            ),
            8,
        );
        select_text(
            select_row("prelude//os/constraints:windows"@, on_windows, 4) + select_row(
                "DEFAULT"@,
                "[]"@,
                4,
            ),
            4,
        )
    }
}

/// Whether `v` is the string literals with the contents `items`.
pub open spec fn literals_of(v: Seq<StarlarkExpr>, items: Seq<Seq<char>>) -> bool {
    &&& v.len() == items.len()
    &&& forall|i: int|
        0 <= i < v.len() ==> (#[trigger] v[i] matches StarlarkExpr::Text(s) && s@ == items[i])
}

/// A string literal with the contents `s`.
pub fn build_string_literal(s: &str) -> (r: StarlarkExpr)
    ensures
        r matches StarlarkExpr::Text(t) && t@ == s@,
{
    StarlarkExpr::Text(s.to_owned())
}

/// A list of string literals.
pub fn build_string_list(items: &Vec<String>) -> (r: StarlarkExpr)
    ensures
        r matches StarlarkExpr::List(v) && literals_of(v@, text::views(items@)),
{
    let mut list_items: Vec<StarlarkExpr> = Vec::new();
    let mut i: usize = 0;
    while i < items.len()
        invariant
            i <= items@.len(),
            list_items@.len() == i,
            forall|k: int|
                0 <= k < i ==> (#[trigger] list_items@[k] matches StarlarkExpr::Text(s) && s@
                    == items@[k]@),
        decreases items@.len() - i,
    {
        list_items.push(build_string_literal(items[i].as_str()));
        i = i + 1;
    }
    StarlarkExpr::List(list_items)
}

/// A `select()` call with these dictionary entries.
pub fn build_select(entries: Vec<(StarlarkExpr, StarlarkExpr)>) -> (r: StarlarkExpr)
    ensures
        r == StarlarkExpr::Select(entries),
{
    StarlarkExpr::Select(entries)
}

proof fn lemma_rows(v: Seq<StarlarkExpr>, items: Seq<Seq<char>>, indent: nat, n: nat)
    requires
        literals_of(v, items),
        n <= v.len(),
    ensures
        starlark::pretty_items(v, indent, n) == list_rows(items, indent, n),
        starlark::items_fit(v, indent, n),
    decreases n,
{
    reveal_with_fuel(starlark::pretty_items, 2);
    reveal_with_fuel(starlark::items_fit, 2);
    if n > 0 {
        lemma_rows(v, items, indent, (n - 1) as nat);
        assert(v[n - 1] matches StarlarkExpr::Text(s) && s@ == items[n - 1]);
    }
}

proof fn lemma_list_text(v: Vec<StarlarkExpr>, items: Seq<Seq<char>>, indent: nat)
    requires
        literals_of(v@, items),
        indent + 4 <= usize::MAX,
    ensures
        starlark::pretty(StarlarkExpr::List(v), indent) == list_text(items, indent),
        starlark::indents_fit(StarlarkExpr::List(v), indent),
{
    lemma_rows(v@, items, indent, v@.len());
}

proof fn lemma_select_of_two(
    entries: Vec<(StarlarkExpr, StarlarkExpr)>,
    k0: Seq<char>,
    k1: Seq<char>,
    indent: nat,
)
    requires
        entries@.len() == 2,
        entries@[0].0 matches StarlarkExpr::Text(s) && s@ == k0,
        entries@[1].0 matches StarlarkExpr::Text(s) && s@ == k1,
        indent + 4 <= usize::MAX,
        starlark::indents_fit(entries@[0].1, indent + 4),
        starlark::indents_fit(entries@[1].1, indent + 4),
    ensures
        starlark::pretty(StarlarkExpr::Select(entries), indent) == select_text(
            select_row(k0, starlark::pretty(entries@[0].1, indent + 4), indent) + select_row(
                k1,
                starlark::pretty(entries@[1].1, indent + 4),
                indent,
            ),
            indent,
        ),
        starlark::indents_fit(StarlarkExpr::Select(entries), indent),
{
    let e = entries@;
    reveal_with_fuel(starlark::pretty_entries, 3);
    reveal_with_fuel(starlark::entries_fit, 4);
    assert(starlark::indents_fit(e[0].0, indent + 4));
    assert(starlark::indents_fit(e[1].0, indent + 4));
    assert(starlark::entries_fit(e, indent, 1));
    assert(starlark::entries_fit(e, indent, 2));
    assert(starlark::pretty_entries(e, indent, 0) =~= Seq::<char>::empty());
    assert(starlark::pretty_entries(e, indent, 1) =~= select_row(
        k0,
        starlark::pretty(e[0].1, indent + 4),
        indent,
    ));
    assert(starlark::pretty_entries(e, indent, 2) =~= select_row(
        k0,
        starlark::pretty(e[0].1, indent + 4),
        indent,
    ) + select_row(k1, starlark::pretty(e[1].1, indent + 4), indent));
}

/// The text of the `select` over these flags.
pub fn render_windows_rustc_flags_select(flags: &WindowsImportLibFlags) -> (r: String)
    ensures
        r@ == windows_select(flags@),
{
    if flags.gnu.len() == 0 && flags.msvc_x86_64.len() == 0 {
        return String::new();
    }
    let gnu = build_string_list(&flags.gnu);
    let msvc = build_string_list(&flags.msvc_x86_64);
    let none: Vec<String> = Vec::new();
    let empty = build_string_list(&none);
    proof {
        lemma_list_text(gnu->List_0, flags@.gnu, 12);
        lemma_list_text(msvc->List_0, flags@.msvc_x86_64, 12);
        lemma_list_text(empty->List_0, text::views(none@), 8);
    }
    let mut inner: Vec<(StarlarkExpr, StarlarkExpr)> = Vec::new();
    inner.push((build_string_literal("prelude//abi/constraints:gnu"), gnu));
    inner.push((build_string_literal("DEFAULT"), msvc));
    proof {
        lemma_select_of_two(inner, "prelude//abi/constraints:gnu"@, "DEFAULT"@, 8);
    }
    let windows_select = build_select(inner);
    let mut outer: Vec<(StarlarkExpr, StarlarkExpr)> = Vec::new();
    outer.push((build_string_literal("prelude//os/constraints:windows"), windows_select));
    outer.push((build_string_literal("DEFAULT"), empty));
    proof {
        lemma_select_of_two(outer, "prelude//os/constraints:windows"@, "DEFAULT"@, 4);
    }
    let select_expr = build_select(outer);
    let mut out = String::new();
    pretty_print_expr(&select_expr, &mut out, 4);
    proof {
        assert(out@ =~= starlark::pretty(select_expr, 4));
    }
    out
}

/// Whether one of the arguments names the target `target`.
pub open spec fn names_target(args: Seq<starlark::ArgModel>, target: Seq<char>) -> bool {
    exists|i: int|
        0 <= i < args.len() && (#[trigger] args[i]).name == Some("name"@) && args[i].value
            == starlark::ValueModel::Text(target)
}

/// The end of the list that the last `rustc_flags` argument with a list has.
pub open spec fn flags_list_end(args: Seq<starlark::ArgModel>) -> Option<int>
    decreases args.len(),
{
    if args.len() == 0 {
        None
    } else if args.last().name == Some("rustc_flags"@) && args.last().value is List {
        Some(args.last().value->List_0)
    } else {
        flags_list_end(args.drop_last())
    }
}

/// The end of the `rustc_flags` list in a call with these arguments, if the
/// call is that of the target `target`.
pub open spec fn call_flags_end(args: Seq<starlark::ArgModel>, target: Seq<char>) -> Option<int> {
    if names_target(args, target) {
        flags_list_end(args)
    } else {
        None
    }
}

/// The end of the `rustc_flags` list in this statement, if it calls the rule
/// `rule` for the target `target`.
pub open spec fn stmt_flags_end(
    stmt: starlark::StmtModel,
    rule: Seq<char>,
    target: Seq<char>,
) -> Option<int> {
    match stmt {
        starlark::StmtModel::Call(callee, args) => if callee == Some(rule) {
            call_flags_end(args, target)
        } else {
            None
        },
        starlark::StmtModel::Other => None,
    }
}

/// The end of the `rustc_flags` list in the first statement that has one and
/// calls the rule `rule` for the target `target`.
pub open spec fn flags_end(
    stmts: Seq<starlark::StmtModel>,
    rule: Seq<char>,
    target: Seq<char>,
) -> Option<int>
    decreases stmts.len(),
{
    if stmts.len() == 0 {
        None
    } else {
        match stmt_flags_end(stmts[0], rule, target) {
            Some(p) => Some(p),
            None => flags_end(stmts.drop_first(), rule, target),
        }
    }
}

/// The position of a byte, as an optional machine number says it.
pub open spec fn position_of(p: Option<usize>) -> Option<int> {
    match p {
        Some(i) => Some(i as int),
        None => None,
    }
}

/// The end of the `rustc_flags` list in a call with these arguments, if the
/// call is that of the target `target`.
pub fn find_rustc_flags_in_call(args: &Vec<StarlarkArg>, target: &str) -> (r: Option<usize>)
    ensures
        position_of(r) == call_flags_end(
            Seq::new(args@.len(), |i: int| args@[i]@),
            target@,
        ),
{
    let ghost models = Seq::new(args@.len(), |i: int| args@[i]@);
    let mut name_matches = false;
    let mut rustc_flags_end: Option<usize> = None;
    let mut i: usize = 0;
    proof {
        assert(models.take(0) =~= Seq::<starlark::ArgModel>::empty());
    }
    while i < args.len()
        invariant
            i <= args@.len(),
            models == Seq::new(args@.len(), |k: int| args@[k]@),
            name_matches == names_target(models.take(i as int), target@),
            position_of(rustc_flags_end) == flags_list_end(models.take(i as int)),
        decreases args@.len() - i,
    {
        let arg = &args[i];
        let ghost head = models.take(i as int);
        let ghost next = models.take(i + 1);
        let ghost was = name_matches;
        proof {
            assert(next.drop_last() =~= head);
            assert(next.last() == args@[i as int]@);
            reveal_strlit("name");
            reveal_strlit("rustc_flags");
            assert("name"@.len() != "rustc_flags"@.len());
        }
        if text::is_text(&arg.name, "name") {
            match &arg.value {
                StarlarkValue::Text(s) => {
                    if same_text(s.as_str(), target) {
                        name_matches = true;
                    }
                },
                _ => {},
            }
        } else if text::is_text(&arg.name, "rustc_flags") {
            match &arg.value {
                StarlarkValue::List(end) => {
                    rustc_flags_end = Some(*end as usize);
                },
                _ => {},
            }
        }
        proof {
            if name_matches {
                if was {
                    let k = choose|k: int|
                        0 <= k < head.len() && (#[trigger] head[k]).name == Some("name"@)
                            && head[k].value == starlark::ValueModel::Text(target@);
                    assert(next[k] == head[k]);
                } else {
                    assert(next[i as int].name == Some("name"@));
                }
            } else if names_target(next, target@) {
                let k = choose|k: int|
                    0 <= k < next.len() && (#[trigger] next[k]).name == Some("name"@)
                        && next[k].value == starlark::ValueModel::Text(target@);
                if k < i {
                    assert(head[k] == next[k]);
                }
            }
        }
        i = i + 1;
    }
    proof {
        assert(models.take(args@.len() as int) =~= models);
    }
    if name_matches {
        rustc_flags_end
    } else {
        None
    }
}

/// The end of the `rustc_flags` list in this statement, if it calls the rule
/// `rule` for the target `target`.
pub fn find_in_stmt(stmt: &StarlarkStmt, rule: &str, target: &str) -> (r: Option<usize>)
    ensures
        position_of(r) == stmt_flags_end(stmt@, rule@, target@),
{
    match stmt {
        StarlarkStmt::Call(callee, args) => {
            if text::is_text(callee, rule) {
                find_rustc_flags_in_call(args, target)
            } else {
                None
            }
        },
        StarlarkStmt::Other => None,
    }
}

/// The byte position just behind the `rustc_flags` list of the rule `rule` for
/// the target `target`, in the first statement that has one.
pub fn find_rustc_flags_end_in_rule(
    stmts: &Vec<StarlarkStmt>,
    rule: &str,
    target: &str,
) -> (r: Option<usize>)
    ensures
        position_of(r) == flags_end(starlark::stmt_models(stmts@), rule@, target@),
{
    let ghost models = starlark::stmt_models(stmts@);
    let mut i: usize = 0;
    proof {
        assert(models.skip(0) =~= models);
    }
    while i < stmts.len()
        invariant
            i <= stmts@.len(),
            models == starlark::stmt_models(stmts@),
            flags_end(models, rule@, target@) == flags_end(
                models.skip(i as int),
                rule@,
                target@,
            ),
        decreases stmts@.len() - i,
    {
        proof {
            assert(models.skip(i as int)[0] == stmts@[i as int]@);
            assert(models.skip(i as int).drop_first() =~= models.skip(i + 1));
        }
        let found = find_in_stmt(&stmts[i], rule, target);
        if found.is_some() {
            return found;
        }
        i = i + 1;
    }
    None
}

/// `content` with `inserted` put in at the byte position `at`.
pub open spec fn insert_at_byte(content: Seq<char>, at: int, inserted: Seq<char>) -> Seq<char> {
    let bytes = encode_utf8(content);
    decode_utf8(bytes.subrange(0, at)) + inserted + decode_utf8(
        bytes.subrange(at, bytes.len() as int),
    )
}

/// Whether the byte position `at` lies between two characters of `content`.
pub open spec fn between_chars(content: Seq<char>, at: int) -> bool {
    is_char_boundary(encode_utf8(content), at)
}

/// `content`, whose statements are `stmts`, with `select` added to the
/// `rustc_flags` list of the rule `rule` for the target `target`; unchanged
/// where there is no such list.
pub open spec fn with_select(
    content: Seq<char>,
    stmts: Option<Seq<starlark::StmtModel>>,
    rule: Seq<char>,
    target: Seq<char>,
    select: Seq<char>,
) -> Seq<char> {
    match stmts {
        None => content,
        Some(s) => match flags_end(s, rule, target) {
            Some(at) => if between_chars(content, at) {
                insert_at_byte(content, at, " + "@ + select)
            } else {
                content
            },
            None => content,
        },
    }
}

/// `content` with `select` added to the `rustc_flags` list of the rule `rule`
/// for the target `target`.
pub open spec fn patched(
    content: Seq<char>,
    rule: Seq<char>,
    target: Seq<char>,
    select: Seq<char>,
) -> Seq<char> {
    with_select(content, starlark::statements_of(content), rule, target, select)
}

/// The models of optional statements.
pub open spec fn stmt_models_opt(s: Option<Vec<StarlarkStmt>>) -> Option<
    Seq<starlark::StmtModel>,
> {
    match s {
        Some(v) => Some(starlark::stmt_models(v@)),
        None => None,
    }
}

/// Puts `inserted` into `content` at the byte position `at`.
pub fn insert_text_at_byte(content: &str, at: usize, inserted: &str) -> (r: String)
    requires
        between_chars(content@, at as int),
    ensures
        r@ == insert_at_byte(content@, at as int, inserted@),
{
    let (head, tail) = content.split_at(at);
    proof {
        encode_utf8_decode_utf8(head@);
        encode_utf8_decode_utf8(tail@);
    }
    let mut out = head.to_owned();
    out.append(inserted);
    out.append(tail);
    out
}

/// Adds `select_expr` to the `rustc_flags` list of the rule `rule_name` for the
/// target `bin_name`, where `parsed` holds the statements of `buck_content`, or
/// nothing if it does not parse.
pub fn patch_parsed_content(
    buck_content: &str,
    parsed: &Option<Vec<StarlarkStmt>>,
    rule_name: &str,
    bin_name: &str,
    select_expr: &str,
) -> (r: String)
    ensures
        r@ == with_select(
            buck_content@,
            stmt_models_opt(*parsed),
            rule_name@,
            bin_name@,
            select_expr@,
        ),
{
    let stmts = match parsed {
        Some(s) => s,
        None => {
            return buck_content.to_owned();
        },
    };
    match find_rustc_flags_end_in_rule(stmts, rule_name, bin_name) {
        Some(at) => {
            if buck_content.is_char_boundary(at) {
                let mut inserted = " + ".to_owned();
                inserted.append(select_expr);
                insert_text_at_byte(buck_content, at, inserted.as_str())
            } else {
                buck_content.to_owned()
            }
        },
        None => buck_content.to_owned(),
    }
}

/// Adds `select_expr` to the `rustc_flags` list of the rule `rule_name` for the
/// target `bin_name`. Content that does not parse, or that has no such list, is
/// left alone.
pub fn apply_rustc_flags_patch_to_content(
    buck_content: &str,
    rule_name: &str,
    bin_name: &str,
    select_expr: &str,
) -> (r: String)
    ensures
        r@ == patched(buck_content@, rule_name@, bin_name@, select_expr@),
{
    let parsed = parse_statements(buck_content);
    patch_parsed_content(buck_content, &parsed, rule_name, bin_name, select_expr)
}

/// The names of those of the first `n` targets that are of the kind `kind`.
pub open spec fn kind_names(targets: Seq<BuckalTarget>, kind: TargetKind, n: nat) -> Seq<
    Seq<char>,
>
    decreases n,
{
    if n == 0 || n > targets.len() {
        Seq::empty()
    } else {
        let rest = kind_names(targets, kind, (n - 1) as nat);
        if targets[n - 1].is_of(kind) {
            rest.push(targets[n - 1].name@)
        } else {
            rest
        }
    }
}

/// Whether `rule` is the name of a test rule that the target `t` gives: its own
/// name for an integration test, `unittest` for a library whose `test` flag is
/// on, and its name and `-unittest` for a binary whose `test` flag is on.
pub open spec fn gives_test_rule(t: BuckalTarget, rule: Seq<char>) -> bool {
    ||| t.is_of(TargetKind::Test) && rule == t.name@
    ||| t.is_lib() && t.test && rule == "unittest"@
    ||| t.is_of(TargetKind::Bin) && t.test && rule == t.name@ + "-unittest"@
}

/// The names of the test rules that these targets give.
pub open spec fn test_rule_names(targets: Seq<BuckalTarget>) -> Set<Seq<char>> {
    Set::new(
        |rule: Seq<char>|
            exists|i: int| 0 <= i < targets.len() && gives_test_rule(#[trigger] targets[i], rule),
    )
}

/// `content` with `select` added to the `rustc_flags` of the rules `rule` for
/// each of the targets `names`, one after the other.
pub open spec fn patched_all(
    content: Seq<char>,
    rule: Seq<char>,
    names: Seq<Seq<char>>,
    select: Seq<char>,
) -> Seq<char>
    decreases names.len(),
{
    if names.len() == 0 {
        content
    } else {
        patched(
            patched_all(content, rule, names.drop_last(), select),
            rule,
            names.last(),
            select,
        )
    }
}

/// `content`, the rules of the first-party package with these targets, with the
/// search paths added to every binary and every test.
pub open spec fn root_patched(
    content: Seq<char>,
    nodes: Seq<BuckalNode>,
    targets: Seq<BuckalTarget>,
) -> Result<Seq<char>, Seq<char>> {
    let bins = kind_names(targets, TargetKind::Bin, targets.len());
    let tests = test_rule_names(targets);
    if bins.len() == 0 && tests == Set::<Seq<char>>::empty() {
        Ok(content)
    } else {
        match import_flags(nodes) {
            Err(e) => Err(e),
            Ok(f) => {
                let select = windows_select(f);
                if select.len() == 0 {
                    Ok(content)
                } else {
                    Ok(
                        patched_all(
                            patched_all(content, "rust_binary"@, bins, select),
                            "rust_test"@,
                            sorted::in_order(tests),
                            select,
                        ),
                    )
                }
            },
        }
    }
}

/// The name of the first target that is a build script.
pub open spec fn build_script_of(targets: Seq<BuckalTarget>) -> Option<Seq<char>>
    decreases targets.len(),
{
    if targets.len() == 0 {
        None
    } else if targets[0].is_of(TargetKind::CustomBuild) {
        Some(targets[0].name@)
    } else {
        build_script_of(targets.drop_first())
    }
}

/// Whether one of these dependencies is a build-dependency.
pub open spec fn has_build_edge(deps: Seq<BuckalDep>) -> bool {
    exists|i: int|
        0 <= i < deps.len() && is_build_edge(#[trigger] deps[i])
}

/// Whether this dependency is a build-dependency.
pub open spec fn is_build_edge(dep: BuckalDep) -> bool {
    exists|j: int|
        0 <= j < dep.dep_kinds@.len() && (#[trigger] dep.dep_kinds@[j]).kind
            == DependencyKind::Build
}

/// Whether one of the flags points at the build script of `node` itself.
pub open spec fn flags_own(f: FlagsModel, node: BuckalNode) -> bool {
    node.vendor_path matches Some(p) && (f.gnu + f.msvc_x86_64).contains(run_flag(p@))
}

/// `content`, the rules of the package `node` with these dependencies, with the
/// search paths added to its build script. Only a package with
/// build-dependencies gets them, and none that provides them.
pub open spec fn buildscript_patched(
    content: Seq<char>,
    nodes: Seq<BuckalNode>,
    deps: Seq<BuckalDep>,
    node: BuckalNode,
) -> Result<Seq<char>, Seq<char>> {
    match build_script_of(node.targets@) {
        None => Ok(content),
        Some(name) => if !has_build_edge(deps) {
            Ok(content)
        } else {
            match import_flags(nodes) {
                Err(e) => Err(e),
                Ok(f) => {
                    let select = windows_select(f);
                    if flags_own(f, node) || select.len() == 0 {
                        Ok(content)
                    } else {
                        Ok(patched(content, "rust_binary"@, name, select))
                    }
                },
            }
        },
    }
}

/// The model of what a patch gives.
pub open spec fn outcome(r: Result<String, UnvendoredProvider>) -> Result<Seq<char>, Seq<char>> {
    match r {
        Ok(s) => Ok(s@),
        Err(e) => Err(e.package@),
    }
}

/// Adds `select` to the `rustc_flags` of the rules `rule` for each of the
/// targets `names`.
fn patch_each(content: String, rule: &str, names: &Vec<String>, select: &str) -> (r: String)
    ensures
        r@ == patched_all(content@, rule@, text::views(names@), select@),
{
    let mut out = content;
    let ghost start = out@;
    let mut i: usize = 0;
    proof {
        assert(text::views(names@).take(0) =~= Seq::<Seq<char>>::empty());
    }
    while i < names.len()
        invariant
            i <= names@.len(),
            out@ == patched_all(start, rule@, text::views(names@).take(i as int), select@),
        decreases names@.len() - i,
    {
        proof {
            assert(text::views(names@).take(i + 1).drop_last() =~= text::views(names@).take(
                i as int,
            ));
        }
        out = apply_rustc_flags_patch_to_content(out.as_str(), rule, names[i].as_str(), select);
        i = i + 1;
    }
    proof {
        assert(text::views(names@).take(names@.len() as int) =~= text::views(names@));
    }
    out
}

/// The names of the targets of the kind `kind`.
pub fn target_names(targets: &Vec<BuckalTarget>, kind: TargetKind) -> (r: Vec<String>)
    ensures
        text::views(r@) == kind_names(targets@, kind, targets@.len()),
{
    let mut out: Vec<String> = Vec::new();
    let mut i: usize = 0;
    proof {
        assert(text::views(out@) =~= Seq::<Seq<char>>::empty());
    }
    while i < targets.len()
        invariant
            i <= targets@.len(),
            text::views(out@) == kind_names(targets@, kind, i as nat),
        decreases targets@.len() - i,
    {
        if targets[i].has_kind(kind) {
            let ghost before = text::views(out@);
            out.push(targets[i].name.clone());
            proof {
                assert(text::views(out@) =~= before.push(targets@[i as int].name@));
            }
        }
        i = i + 1;
    }
    out
}

/// The names of the test rules that these targets give.
pub fn rust_test_names(targets: &Vec<BuckalTarget>) -> (r: StringSet)
    ensures
        r@ == test_rule_names(targets@),
{
    let mut out = StringSet::new();
    let mut i: usize = 0;
    proof {
        assert(out@ =~= test_rule_names(targets@.take(0)));
    }
    while i < targets.len()
        invariant
            i <= targets@.len(),
            out@ == test_rule_names(targets@.take(i as int)),
        decreases targets@.len() - i,
    {
        let target = &targets[i];
        let ghost before = out@;
        if target.has_kind(TargetKind::Test) {
            out.insert(target.name.clone());
        }
        if target.is_library() && target.test {
            out.insert("unittest".to_owned());
        }
        if target.has_kind(TargetKind::Bin) && target.test {
            let mut name = target.name.clone();
            name.append("-unittest");
            out.insert(name);
        }
        proof {
            let head = targets@.take(i as int);
            let next = targets@.take(i + 1);
            assert forall|rule: Seq<char>|
                out@.contains(rule) == #[trigger] test_rule_names(next).contains(rule) by {
                assert(out@.contains(rule) == (before.contains(rule) || gives_test_rule(
                    *target,
                    rule,
                )));
                if before.contains(rule) {
                    let k = choose|k: int|
                        0 <= k < head.len() && gives_test_rule(#[trigger] head[k], rule);
                    assert(next[k] == head[k]);
                }
                if gives_test_rule(*target, rule) {
                    assert(next[i as int] == *target);
                }
                if test_rule_names(next).contains(rule) {
                    let k = choose|k: int|
                        0 <= k < next.len() && gives_test_rule(#[trigger] next[k], rule);
                    if k < i {
                        assert(head[k] == next[k]);
                    }
                }
            }
            assert(out@ =~= test_rule_names(next));
        }
        i = i + 1;
    }
    proof {
        assert(targets@.take(targets@.len() as int) =~= targets@);
    }
    out
}

/// Adds the search paths to every binary and every test of the first-party
/// package `root`. Fails where a provider is not vendored.
pub fn patch_root_windows_rustc_flags(
    buck_content: String,
    nodes: &Vec<BuckalNode>,
    root: &BuckalNode,
) -> (r: Result<String, UnvendoredProvider>)
    ensures
        outcome(r) == root_patched(buck_content@, nodes@, root.targets@),
{
    let bin_names = target_names(&root.targets, TargetKind::Bin);
    let rust_test_names = rust_test_names(&root.targets);
    if bin_names.len() == 0 && rust_test_names.is_empty() {
        return Ok(buck_content);
    }
    let flags = match windows_import_lib_flags(nodes) {
        Ok(f) => f,
        Err(e) => {
            return Err(e);
        },
    };
    let select_expr = render_windows_rustc_flags_select(&flags);
    if select_expr.as_str().is_empty() {
        return Ok(buck_content);
    }
    let with_bins = patch_each(buck_content, "rust_binary", &bin_names, select_expr.as_str());
    Ok(patch_each(with_bins, "rust_test", rust_test_names.items(), select_expr.as_str()))
}

/// The rule name that the generator gives this package's build script: the
/// name of its Cargo target.
pub fn build_script_target_name(node: &BuckalNode) -> (r: Option<&str>)
    ensures
        text::view_opt_str(r) == build_script_of(node.targets@),
{
    let targets = &node.targets;
    let mut i: usize = 0;
    proof {
        assert(targets@.skip(0) =~= targets@);
    }
    while i < targets.len()
        invariant
            i <= targets@.len(),
            targets@ == node.targets@,
            build_script_of(targets@) == build_script_of(targets@.skip(i as int)),
        decreases targets@.len() - i,
    {
        proof {
            assert(targets@.skip(i as int)[0] == targets@[i as int]);
            assert(targets@.skip(i as int).drop_first() =~= targets@.skip(i + 1));
        }
        if targets[i].has_kind(TargetKind::CustomBuild) {
            return Some(targets[i].name.as_str());
        }
        i = i + 1;
    }
    None
}

/// Whether the collected flags point at this package's own build script.
pub fn references_own_build_script(flags: &WindowsImportLibFlags, node: &BuckalNode) -> (r: bool)
    ensures
        r == flags_own(flags@, *node),
{
    match &node.vendor_path {
        None => false,
        Some(vendor_path) => {
            let own = build_script_run_flag(vendor_path.as_str());
            proof {
                let g = flags@.gnu;
                let m = flags@.msvc_x86_64;
                if g.contains(own@) {
                    let k = choose|k: int| 0 <= k < g.len() && g[k] == own@;
                    assert((g + m)[k] == own@);
                }
                if m.contains(own@) {
                    let k = choose|k: int| 0 <= k < m.len() && m[k] == own@;
                    assert((g + m)[g.len() + k] == own@);
                }
                if (g + m).contains(own@) {
                    let k = choose|k: int| 0 <= k < (g + m).len() && (g + m)[k] == own@;
                    if k < g.len() {
                        assert(g[k] == own@);
                    } else {
                        assert(m[k - g.len()] == own@);
                    }
                }
            }
            text::contains_text(&flags.gnu, own.as_str()) || text::contains_text(
                &flags.msvc_x86_64,
                own.as_str(),
            )
        },
    }
}

/// Whether one of these dependencies is a build-dependency.
pub fn has_build_dependencies(deps: &Vec<BuckalDep>) -> (r: bool)
    ensures
        r == has_build_edge(deps@),
{
    let mut i: usize = 0;
    while i < deps.len()
        invariant
            i <= deps@.len(),
            forall|k: int| 0 <= k < i ==> !is_build_edge(#[trigger] deps@[k]),
        decreases deps@.len() - i,
    {
        let kinds = &deps[i].dep_kinds;
        let mut j: usize = 0;
        while j < kinds.len()
            invariant
                i < deps@.len(),
                j <= kinds@.len(),
                kinds@ == deps@[i as int].dep_kinds@,
                forall|k: int| 0 <= k < j ==> (#[trigger] kinds@[k]).kind != DependencyKind::Build,
            decreases kinds@.len() - j,
        {
            if kinds[j].kind == DependencyKind::Build {
                proof {
                    assert(is_build_edge(deps@[i as int])) by {
                        assert(deps@[i as int].dep_kinds@[j as int].kind
                            == DependencyKind::Build);
                    }
                }
                return true;
            }
            j = j + 1;
        }
        i = i + 1;
    }
    false
}

/// Adds the search paths to the build script of the package `node`, whose
/// dependencies are `deps`. A package without build-dependencies, and one that
/// provides a search path, is left alone. Fails where a provider is not
/// vendored.
pub fn patch_buildscript_windows_rustc_flags(
    buck_content: String,
    nodes: &Vec<BuckalNode>,
    deps: &Vec<BuckalDep>,
    node: &BuckalNode,
) -> (r: Result<String, UnvendoredProvider>)
    ensures
        outcome(r) == buildscript_patched(buck_content@, nodes@, deps@, *node),
{
    let build_script = match build_script_target_name(node) {
        Some(name) => name,
        None => {
            return Ok(buck_content);
        },
    };
    if !has_build_dependencies(deps) {
        return Ok(buck_content);
    }
    let flags = match windows_import_lib_flags(nodes) {
        Ok(f) => f,
        Err(e) => {
            return Err(e);
        },
    };

    // The runner that the label names executes this very binary.
    if references_own_build_script(&flags, node) {
        return Ok(buck_content);
    }
    let select_expr = render_windows_rustc_flags_select(&flags);
    if select_expr.as_str().is_empty() {
        return Ok(buck_content);
    }
    Ok(
        apply_rustc_flags_patch_to_content(
            buck_content.as_str(),
            "rust_binary",
            build_script,
            select_expr.as_str(),
        ),
    )
}

proof fn lemma_collected_has(nodes: Seq<BuckalNode>, order: Seq<int>, n: nat, i: int)
    requires
        0 <= i < n <= order.len(),
        collected(nodes, order, n) is Ok,
    ensures
        nodes[order[i]].vendor_path matches Some(p) && collected(nodes, order, n)->Ok_0.contains(
            run_flag(p@),
        ),
    decreases n,
{
    let all = collected(nodes, order, n)->Ok_0;
    let rest = collected(nodes, order, (n - 1) as nat)->Ok_0;
    if i < n - 1 {
        lemma_collected_has(nodes, order, (n - 1) as nat, i);
        let flag = run_flag(nodes[order[i]].vendor_path->0@);
        let k = choose|k: int| 0 <= k < rest.len() && rest[k] == flag;
        assert(all[k] == flag);
    } else {
        assert(all[all.len() - 1] == run_flag(nodes[order[i]].vendor_path->0@));
    }
}

/// A package that provides a search path is never pointed at its own build
/// script: the rules of every node with a provider's name come back unchanged.
pub proof fn law_provider_is_left_alone(
    content: Seq<char>,
    nodes: Seq<BuckalNode>,
    deps: Seq<BuckalDep>,
    k: int,
)
    requires
        0 <= k < nodes.len(),
        nodes[k].name@ == "windows_x86_64_gnu"@ || nodes[k].name@
            == "winapi-x86_64-pc-windows-gnu"@ || nodes[k].name@ == "windows_x86_64_msvc"@,
        import_flags(nodes) is Ok,
    ensures
        buildscript_patched(content, nodes, deps, nodes[k]) == Ok::<Seq<char>, Seq<char>>(content),
{
    let name = nodes[k].name@;
    let order = providers(nodes, name, nodes.len());
    law_providers_by_version(nodes, name, nodes.len());
    assert(order.contains(k));
    let i = choose|i: int| 0 <= i < order.len() && order[i] == k;
    lemma_collected_has(nodes, order, order.len(), i);
    let own = run_flag(nodes[k].vendor_path->0@);
    let f = import_flags(nodes)->Ok_0;
    let part = flags_of(nodes, name)->Ok_0;
    let all = f.gnu + f.msvc_x86_64;
    let j = choose|j: int| 0 <= j < part.len() && part[j] == own;
    let gnu = flags_of(nodes, "windows_x86_64_gnu"@)->Ok_0;
    if name == "windows_x86_64_gnu"@ {
        assert(all[j] == own);
    } else if name == "winapi-x86_64-pc-windows-gnu"@ {
        assert(all[gnu.len() + j] == own);
    } else {
        assert(all[f.gnu.len() + j] == own);
    }
    assert(flags_own(f, nodes[k]));
}

/// Patching only ever adds: the patched content is the old content, or the old
/// content with the sum and the `select` put in at one place.
pub proof fn law_patch_only_adds(
    content: Seq<char>,
    rule: Seq<char>,
    target: Seq<char>,
    select: Seq<char>,
)
    ensures
        patched(content, rule, target, select) == content || exists|i: int|
            0 <= i <= content.len() && patched(content, rule, target, select)
                == #[trigger] content.take(i) + (" + "@ + select) + content.skip(i),
{
    let stmts = starlark::statements_of(content);
    if stmts is Some && flags_end(stmts->0, rule, target) is Some {
        let at = flags_end(stmts->0, rule, target)->0;
        if between_chars(content, at) {
            let bytes = encode_utf8(content);
            encode_utf8_valid_utf8(content);
            encode_utf8_decode_utf8(content);
            decode_utf8_split(bytes, at);
            let head = decode_utf8(bytes.subrange(0, at));
            let tail = decode_utf8(bytes.subrange(at, bytes.len() as int));
            assert(content == head + tail);
            let i = head.len() as int;
            assert(content.take(i) =~= head);
            assert(content.skip(i) =~= tail);
            assert(patched(content, rule, target, select) == content.take(i) + (" + "@ + select)
                + content.skip(i));
        }
    }
}

/// The flags of a name are one for each package with that name, in the order of
/// the providers: the one that pulls in what its build script prints. They are
/// there if and only if every such package is vendored; else the first that is not
/// is told.
pub proof fn law_each_provider_has_its_flag(nodes: Seq<BuckalNode>, name: Seq<char>, i: int)
    ensures
        ({
            let order = providers(nodes, name, nodes.len());
            &&& flags_of(nodes, name) is Ok <==> forall|k: int|
                0 <= k < nodes.len() && (#[trigger] nodes[k]).name@ == name
                    ==> nodes[k].vendor_path is Some
            &&& flags_of(nodes, name) matches Ok(flags) ==> flags.len() == order.len() && (0 <= i
                < order.len() ==> flags[i] == "@$(location //"@
                + nodes[order[i]].vendor_path->0@ + ":build-script-run[rustc_flags])"@)
            &&& flags_of(nodes, name) matches Err(id) ==> exists|j: int|
                0 <= j < order.len() && nodes[#[trigger] order[j]].vendor_path is None
                    && nodes[order[j]].package_id@ == id && forall|p: int|
                    0 <= p < j ==> nodes[#[trigger] order[p]].vendor_path is Some
        }),
{
    let order = providers(nodes, name, nodes.len());
    law_providers_by_version(nodes, name, nodes.len());
    lemma_collected(nodes, order, order.len());
    if flags_of(nodes, name) is Ok {
        assert forall|k: int|
            0 <= k < nodes.len() && (#[trigger] nodes[k]).name@ == name implies
            nodes[k].vendor_path is Some by {
            assert(order.contains(k));
            let q = choose|q: int| 0 <= q < order.len() && order[q] == k;
            assert(nodes[order[q]].vendor_path is Some);
        }
    } else {
        let j = choose|j: int| #[trigger] first_unvendored(nodes, order, order.len(), j);
        assert(nodes[order[j]].vendor_path is None);
        assert(order.contains(order[j]));
        assert(nodes[order[j]].name@ == name);
        assert(flags_of(nodes, name)->Err_0 == nodes[order[j]].package_id@);
    }
}

/// Whether the `j`-th of the first `n` positions is the first of them whose package
/// is not vendored.
pub open spec fn first_unvendored(nodes: Seq<BuckalNode>, order: Seq<int>, n: nat, j: int) -> bool {
    &&& 0 <= j < n
    &&& nodes[order[j]].vendor_path is None
    &&& forall|p: int| 0 <= p < j ==> nodes[#[trigger] order[p]].vendor_path is Some
}

proof fn lemma_collected(nodes: Seq<BuckalNode>, order: Seq<int>, n: nat)
    requires
        n <= order.len(),
    ensures
        collected(nodes, order, n) is Ok <==> forall|p: int|
            0 <= p < n ==> nodes[#[trigger] order[p]].vendor_path is Some,
        collected(nodes, order, n) is Ok ==> collected(nodes, order, n)->Ok_0.len() == n,
        collected(nodes, order, n) is Ok ==> forall|p: int|
            0 <= p < n ==> collected(nodes, order, n)->Ok_0[p] == "@$(location //"@
                + nodes[#[trigger] order[p]].vendor_path->0@ + ":build-script-run[rustc_flags])"@,
        collected(nodes, order, n) is Err ==> exists|j: int| #[trigger]
            first_unvendored(nodes, order, n, j) && collected(nodes, order, n)->Err_0
                == nodes[order[j]].package_id@,
        forall|j: int| #[trigger]
            first_unvendored(nodes, order, n, j) ==> collected(nodes, order, n) == Err::<
                Seq<Seq<char>>,
                Seq<char>,
            >(nodes[order[j]].package_id@),
    decreases n,
{
    if n > 0 {
        let m = (n - 1) as nat;
        lemma_collected(nodes, order, m);
        if collected(nodes, order, m) is Err {
            let j = choose|j: int| #[trigger]
                first_unvendored(nodes, order, m, j) && collected(nodes, order, m)->Err_0
                    == nodes[order[j]].package_id@;
            assert(first_unvendored(nodes, order, n, j));
            assert forall|q: int| #[trigger] first_unvendored(nodes, order, n, q) implies q == j by {
                if q < j {
                    assert(nodes[order[q]].vendor_path is Some);
                } else if j < q {
                    assert(nodes[order[j]].vendor_path is Some);
                }
            }
        } else if nodes[order[n - 1]].vendor_path is None {
            assert(first_unvendored(nodes, order, n, n - 1));
            assert forall|q: int| #[trigger] first_unvendored(nodes, order, n, q) implies q == n
                - 1 by {
                if q < n - 1 {
                    assert(nodes[order[q]].vendor_path is Some);
                }
            }
        } else {
            assert forall|q: int| !#[trigger] first_unvendored(nodes, order, n, q) by {
                if 0 <= q < n {
                    assert(nodes[order[q]].vendor_path is Some);
                }
            }
        }
    }
}

/// The import libraries come from three packages: two for the GNU targets, the
/// newer family first, and one for the MSVC targets. Where one of their packages is
/// not vendored there are no flags.
pub proof fn law_import_libraries_come_from_three_packages(nodes: Seq<BuckalNode>)
    ensures
        ({
            let a = flags_of(nodes, "windows_x86_64_gnu"@);
            let b = flags_of(nodes, "winapi-x86_64-pc-windows-gnu"@);
            let c = flags_of(nodes, "windows_x86_64_msvc"@);
            &&& import_flags(nodes) is Ok <==> a is Ok && b is Ok && c is Ok
            &&& import_flags(nodes) matches Ok(f) ==> f.gnu == a->Ok_0 + b->Ok_0 && f.msvc_x86_64
                == c->Ok_0
            &&& import_flags(nodes) matches Err(id) ==> exists|k: int|
                0 <= k < nodes.len() && (#[trigger] nodes[k]).package_id@ == id
                    && nodes[k].vendor_path is None && (nodes[k].name@ == "windows_x86_64_gnu"@
                    || nodes[k].name@ == "winapi-x86_64-pc-windows-gnu"@ || nodes[k].name@
                    == "windows_x86_64_msvc"@)
        }),
{
    lemma_unvendored(nodes, "windows_x86_64_gnu"@);
    lemma_unvendored(nodes, "winapi-x86_64-pc-windows-gnu"@);
    lemma_unvendored(nodes, "windows_x86_64_msvc"@);
}

proof fn lemma_unvendored(nodes: Seq<BuckalNode>, name: Seq<char>)
    ensures
        flags_of(nodes, name) is Err ==> exists|k: int|
            0 <= k < nodes.len() && (#[trigger] nodes[k]).package_id@ == flags_of(
                nodes,
                name,
            )->Err_0 && nodes[k].vendor_path is None && nodes[k].name@ == name,
{
    if flags_of(nodes, name) is Err {
        let order = providers(nodes, name, nodes.len());
        law_providers_by_version(nodes, name, nodes.len());
        lemma_collected(nodes, order, order.len());
        let j = choose|j: int| #[trigger]
            first_unvendored(nodes, order, order.len(), j) && collected(
                nodes,
                order,
                order.len(),
            )->Err_0 == nodes[order[j]].package_id@;
        assert(order.contains(order[j]));
        let k = order[j];
        assert(nodes[k].name@ == name);
    }
}

/// Whether the `j`-th argument gives `rustc_flags` a list that ends at `end`.
pub open spec fn is_flags_list(args: Seq<starlark::ArgModel>, j: int, end: int) -> bool {
    0 <= j < args.len() && args[j].name == Some("rustc_flags"@) && args[j].value
        == starlark::ValueModel::List(end)
}

/// Whether the `j`-th argument is the last one that gives `rustc_flags` a list, and
/// that list ends at `end`.
pub open spec fn is_last_flags_list(args: Seq<starlark::ArgModel>, j: int, end: int) -> bool {
    &&& is_flags_list(args, j, end)
    &&& forall|k: int, other: int| j < k ==> !#[trigger] is_flags_list(args, k, other)
}

/// The list that is found in a call is that of the last `rustc_flags` argument that
/// has one.
pub proof fn law_last_flags_list_counts(args: Seq<starlark::ArgModel>, end: int)
    ensures
        flags_list_end(args) == Some(end) <==> exists|j: int| #[trigger]
            is_last_flags_list(args, j, end),
        flags_list_end(args) is None <==> forall|j: int, e: int| !#[trigger]
            is_flags_list(args, j, e),
    decreases args.len(),
{
    if args.len() > 0 {
        let head = args.drop_last();
        let n = args.len() - 1;
        law_last_flags_list_counts(head, end);
        assert forall|j: int, e: int| j < n implies #[trigger] is_flags_list(args, j, e)
            == is_flags_list(head, j, e) by {
            if 0 <= j < n {
                assert(head[j] == args[j]);
            }
        }
        if args.last().name == Some("rustc_flags"@) && args.last().value is List {
            let e = args.last().value->List_0;
            assert(is_flags_list(args, n, e));
            assert(is_last_flags_list(args, n, e));
            assert forall|j: int| #[trigger] is_last_flags_list(args, j, end) implies end == e by {
                if j < n {
                    assert(!is_flags_list(args, n, e));
                }
            }
        } else {
            assert forall|e: int| !#[trigger] is_flags_list(args, n, e) by {}
            if exists|j: int| #[trigger] is_last_flags_list(head, j, end) {
                let j = choose|j: int| #[trigger] is_last_flags_list(head, j, end);
                assert forall|k: int, other: int| j < k implies !#[trigger] is_flags_list(
                    args,
                    k,
                    other,
                ) by {
                    if k < n {
                        assert(!is_flags_list(head, k, other));
                    }
                }
                assert(is_last_flags_list(args, j, end));
            }
            if exists|j: int| #[trigger] is_last_flags_list(args, j, end) {
                let j = choose|j: int| #[trigger] is_last_flags_list(args, j, end);
                assert forall|k: int, other: int| j < k implies !#[trigger] is_flags_list(
                    head,
                    k,
                    other,
                ) by {
                    if k < n {
                        assert(!is_flags_list(args, k, other));
                    }
                }
                assert(is_flags_list(head, j, end));
                assert(is_last_flags_list(head, j, end));
            }
            if flags_list_end(head) is None {
                assert forall|j: int, e: int| !#[trigger] is_flags_list(args, j, e) by {
                    if j < n {
                        assert(!is_flags_list(head, j, e));
                    }
                }
            }
            if forall|j: int, e: int| !#[trigger] is_flags_list(args, j, e) {
                assert forall|j: int, e: int| !#[trigger] is_flags_list(head, j, e) by {
                    if j < n {
                        assert(!is_flags_list(args, j, e));
                    }
                }
            }
        }
    }
}

/// Whether the `i`-th statement calls the rule `rule` for the target `target`, with
/// a `rustc_flags` list in the `j`-th argument that ends at `end`.
pub open spec fn is_rule_with_flags(
    stmts: Seq<starlark::StmtModel>,
    i: int,
    rule: Seq<char>,
    target: Seq<char>,
    j: int,
    end: int,
) -> bool {
    0 <= i < stmts.len() && (stmts[i] matches starlark::StmtModel::Call(callee, args) && callee
        == Some(rule) && is_last_flags_list(args, j, end) && exists|k: int|
        0 <= k < args.len() && (#[trigger] args[k]).name == Some("name"@) && args[k].value
            == starlark::ValueModel::Text(target))
}

/// Whether the `i`-th statement is the first that calls the rule `rule` for the
/// target `target` with a `rustc_flags` list, which ends at `end`.
pub open spec fn is_first_rule_with_flags(
    stmts: Seq<starlark::StmtModel>,
    i: int,
    rule: Seq<char>,
    target: Seq<char>,
    j: int,
    end: int,
) -> bool {
    &&& is_rule_with_flags(stmts, i, rule, target, j, end)
    &&& forall|p: int, q: int, e: int|
        p < i ==> !#[trigger] is_rule_with_flags(stmts, p, rule, target, q, e)
}

proof fn lemma_statement_with_flags(
    stmts: Seq<starlark::StmtModel>,
    i: int,
    rule: Seq<char>,
    target: Seq<char>,
    end: int,
)
    requires
        0 <= i < stmts.len(),
    ensures
        stmt_flags_end(stmts[i], rule, target) == Some(end) <==> exists|j: int| #[trigger]
            is_rule_with_flags(stmts, i, rule, target, j, end),
{
    if let starlark::StmtModel::Call(callee, args) = stmts[i] {
        law_last_flags_list_counts(args, end);
        if stmt_flags_end(stmts[i], rule, target) == Some(end) {
            let j = choose|j: int| #[trigger] is_last_flags_list(args, j, end);
            assert(is_rule_with_flags(stmts, i, rule, target, j, end));
        }
        if exists|j: int| #[trigger] is_rule_with_flags(stmts, i, rule, target, j, end) {
            let j = choose|j: int| #[trigger] is_rule_with_flags(stmts, i, rule, target, j, end);
            assert(is_last_flags_list(args, j, end));
            assert(names_target(args, target));
        }
    }
}

/// The list that the flags are added to is that of the first statement that calls
/// the rule for the target and has one.
pub proof fn law_first_rule_with_flags_is_found(
    stmts: Seq<starlark::StmtModel>,
    rule: Seq<char>,
    target: Seq<char>,
)
    ensures
        flags_end(stmts, rule, target) is Some ==> exists|i: int, j: int| #[trigger]
            is_first_rule_with_flags(
                stmts,
                i,
                rule,
                target,
                j,
                flags_end(stmts, rule, target)->0,
            ),
        flags_end(stmts, rule, target) is None ==> forall|p: int, q: int, e: int| !#[trigger]
            is_rule_with_flags(stmts, p, rule, target, q, e),
    decreases stmts.len(),
{
    if stmts.len() > 0 {
        match stmt_flags_end(stmts[0], rule, target) {
            Some(end) => {
                lemma_statement_with_flags(stmts, 0, rule, target, end);
                let j = choose|j: int| #[trigger]
                    is_rule_with_flags(stmts, 0, rule, target, j, end);
                assert(is_first_rule_with_flags(stmts, 0, rule, target, j, end));
            },
            None => {
                let rest = stmts.drop_first();
                law_first_rule_with_flags_is_found(rest, rule, target);
                assert forall|q: int, e: int| !#[trigger] is_rule_with_flags(
                    stmts,
                    0,
                    rule,
                    target,
                    q,
                    e,
                ) by {
                    lemma_statement_with_flags(stmts, 0, rule, target, e);
                }
                assert forall|p: int, q: int, e: int|
                    p != 0 implies #[trigger] is_rule_with_flags(stmts, p, rule, target, q, e)
                    == is_rule_with_flags(rest, p - 1, rule, target, q, e) by {
                    if 0 < p < stmts.len() {
                        assert(rest[p - 1] == stmts[p]);
                    }
                }
                if flags_end(stmts, rule, target) is Some {
                    let end = flags_end(stmts, rule, target)->0;
                    let (i, j) = choose|i: int, j: int| #[trigger]
                        is_first_rule_with_flags(rest, i, rule, target, j, end);
                    assert forall|p: int, q: int, e: int|
                        p < i + 1 implies !#[trigger] is_rule_with_flags(
                        stmts,
                        p,
                        rule,
                        target,
                        q,
                        e,
                    ) by {
                        if p != 0 {
                            assert(!is_rule_with_flags(rest, p - 1, rule, target, q, e));
                        }
                    }
                    assert(is_rule_with_flags(stmts, i + 1, rule, target, j, end));
                    assert(is_first_rule_with_flags(stmts, i + 1, rule, target, j, end));
                } else {
                    assert forall|p: int, q: int, e: int| !#[trigger] is_rule_with_flags(
                        stmts,
                        p,
                        rule,
                        target,
                        q,
                        e,
                    ) by {
                        if p != 0 {
                            assert(!is_rule_with_flags(rest, p - 1, rule, target, q, e));
                        }
                    }
                }
            },
        }
    }
}

/// The `select` is put right behind the list, with a plus sign before it: what
/// stands up to the end of the list and what stands behind it stays. Content that
/// does not parse, or has no such list, stays as it is.
pub proof fn law_select_goes_behind_the_list(
    content: Seq<char>,
    stmts: Seq<starlark::StmtModel>,
    rule: Seq<char>,
    target: Seq<char>,
    select: Seq<char>,
    head: Seq<char>,
    tail: Seq<char>,
)
    requires
        content == head + tail,
    ensures
        flags_end(stmts, rule, target) == Some(encode_utf8(head).len() as int) ==> with_select(
            content,
            Some(stmts),
            rule,
            target,
            select,
        ) == head + " + "@ + select + tail,
        flags_end(stmts, rule, target) is None ==> with_select(
            content,
            Some(stmts),
            rule,
            target,
            select,
        ) == content,
        with_select(content, None, rule, target, select) == content,
{
    if flags_end(stmts, rule, target) == Some(encode_utf8(head).len() as int) {
        let at = encode_utf8(head).len() as int;
        let bytes = encode_utf8(content);
        crate::buckify::actions::lemma_encode_concat(head, tail);
        encode_utf8_valid_utf8(head);
        encode_utf8_valid_utf8(tail);
        encode_utf8_valid_utf8(content);
        assert(bytes.subrange(0, at) =~= encode_utf8(head));
        assert(bytes.subrange(at, bytes.len() as int) =~= encode_utf8(tail));
        encode_utf8_decode_utf8(head);
        encode_utf8_decode_utf8(tail);
        lemma_boundary(head, tail);
        assert(insert_at_byte(content, at, " + "@ + select) =~= head + " + "@ + select + tail);
    }
}

proof fn lemma_boundary(head: Seq<char>, tail: Seq<char>)
    ensures
        is_char_boundary(encode_utf8(head + tail), encode_utf8(head).len() as int),
    decreases head.len(),
{
    let all = head + tail;
    let bytes = encode_utf8(all);
    encode_utf8_valid_utf8(all);
    if head.len() > 0 {
        let rest = head.drop_first();
        assert(all.drop_first() =~= rest + tail);
        assert(all[0] == head[0]);
        encode_utf8_first_scalar(all);
        encode_utf8_first_scalar(head);
        assert(pop_first_scalar(bytes) =~= encode_utf8(rest + tail));
        crate::buckify::actions::lemma_encode_concat(head, tail);
        lemma_boundary(rest, tail);
    }
}

/// The targets are patched one after the other, each with the rule that is asked
/// for.
pub proof fn law_every_target_is_patched(
    content: Seq<char>,
    rule: Seq<char>,
    a: Seq<Seq<char>>,
    b: Seq<Seq<char>>,
    select: Seq<char>,
    name: Seq<char>,
)
    ensures
        patched_all(content, rule, a + b, select) == patched_all(
            patched_all(content, rule, a, select),
            rule,
            b,
            select,
        ),
        patched_all(content, rule, seq![name], select) == with_select(
            content,
            starlark::statements_of(content),
            rule,
            name,
            select,
        ),
        patched_all(content, rule, Seq::empty(), select) == content,
    decreases b.len(),
{
    let one = seq![name];
    assert(one.drop_last() =~= Seq::<Seq<char>>::empty());
    assert(patched_all(content, rule, one.drop_last(), select) == content);
    assert(one.last() == name);
    if b.len() == 0 {
        assert(a + b =~= a);
    } else {
        law_every_target_is_patched(content, rule, a, b.drop_last(), select, name);
        assert((a + b).drop_last() =~= a + b.drop_last());
        assert((a + b).last() == b.last());
    }
}

/// The names of a kind are those of the targets of that kind, in their order.
pub proof fn law_names_of_a_kind(
    targets: Seq<BuckalTarget>,
    kind: TargetKind,
    t: BuckalTarget,
    name: Seq<char>,
)
    ensures
        kind_names(targets, kind, targets.len()).contains(name) <==> exists|i: int|
            0 <= i < targets.len() && (#[trigger] targets[i]).kind@.contains(kind)
                && targets[i].name@ == name,
        kind_names(targets.push(t), kind, targets.len() + 1) == if t.kind@.contains(kind) {
            kind_names(targets, kind, targets.len()).push(t.name@)
        } else {
            kind_names(targets, kind, targets.len())
        },
        kind_names(Seq::empty(), kind, 0).len() == 0,
{
    lemma_kind_names(targets, kind, targets.len(), name);
    lemma_kind_names_push(targets, kind, t, targets.len());
    let more = targets.push(t);
    assert(more[more.len() - 1] == t);
}

proof fn lemma_kind_names_push(
    targets: Seq<BuckalTarget>,
    kind: TargetKind,
    t: BuckalTarget,
    n: nat,
)
    requires
        n <= targets.len(),
    ensures
        kind_names(targets.push(t), kind, n) == kind_names(targets, kind, n),
    decreases n,
{
    if n > 0 {
        lemma_kind_names_push(targets, kind, t, (n - 1) as nat);
        assert(targets.push(t)[n - 1] == targets[n - 1]);
    }
}

proof fn lemma_kind_names(targets: Seq<BuckalTarget>, kind: TargetKind, n: nat, name: Seq<char>)
    requires
        n <= targets.len(),
    ensures
        kind_names(targets, kind, n).contains(name) <==> exists|i: int|
            0 <= i < n && (#[trigger] targets[i]).kind@.contains(kind) && targets[i].name@ == name,
    decreases n,
{
    if n > 0 {
        let m = (n - 1) as nat;
        lemma_kind_names(targets, kind, m, name);
        let before = kind_names(targets, kind, m);
        let now = kind_names(targets, kind, n);
        if before.contains(name) {
            let k = choose|k: int| 0 <= k < before.len() && before[k] == name;
            assert(now[k] == name);
        }
        if now.contains(name) && !before.contains(name) {
            let k = choose|k: int| 0 <= k < now.len() && now[k] == name;
            if k < before.len() {
                assert(before[k] == name);
            }
            assert(targets[n - 1].kind@.contains(kind));
        }
        if targets[n - 1].kind@.contains(kind) && targets[n - 1].name@ == name {
            assert(now[before.len() as int] == name);
        }
    }
}

/// A test rule is there for an integration test under its name, for a library with
/// the `test` flag under `unittest`, and for a binary with the `test` flag under its
/// name and `-unittest`; and for nothing else.
pub proof fn law_test_rules(targets: Seq<BuckalTarget>, rule: Seq<char>)
    ensures
        test_rule_names(targets).contains(rule) <==> exists|i: int|
            0 <= i < targets.len() && {
                let t = #[trigger] targets[i];
                ||| t.kind@.contains(TargetKind::Test) && rule == t.name@
                ||| t.test && t.is_lib() && rule == "unittest"@
                ||| t.test && t.kind@.contains(TargetKind::Bin) && rule == t.name@ + "-unittest"@
            },
{
    if test_rule_names(targets).contains(rule) {
        let i = choose|i: int| 0 <= i < targets.len() && gives_test_rule(#[trigger] targets[i], rule);
        let t = targets[i];
        assert(gives_test_rule(t, rule));
    }
    if exists|i: int|
        0 <= i < targets.len() && {
            let t = #[trigger] targets[i];
            ||| t.kind@.contains(TargetKind::Test) && rule == t.name@
            ||| t.test && t.is_lib() && rule == "unittest"@
            ||| t.test && t.kind@.contains(TargetKind::Bin) && rule == t.name@ + "-unittest"@
        } {
        let i = choose|i: int|
            0 <= i < targets.len() && {
                let t = #[trigger] targets[i];
                ||| t.kind@.contains(TargetKind::Test) && rule == t.name@
                ||| t.test && t.is_lib() && rule == "unittest"@
                ||| t.test && t.kind@.contains(TargetKind::Bin) && rule == t.name@ + "-unittest"@
            };
        assert(gives_test_rule(targets[i], rule));
    }
}

/// The rules of a first-party package are patched where there are flags: those of
/// its binaries, and then those of its tests. Without a binary or a test, and
/// without flags, they stay as they are; and a provider that is not vendored is an
/// error only where there is something to patch.
pub proof fn law_root_rules_are_patched(
    content: Seq<char>,
    nodes: Seq<BuckalNode>,
    targets: Seq<BuckalTarget>,
)
    ensures
        ({
            let bins = kind_names(targets, TargetKind::Bin, targets.len());
            let none = bins.len() == 0 && forall|rule: Seq<char>| !#[trigger]
                test_rule_names(targets).contains(rule);
            let r = root_patched(content, nodes, targets);
            &&& none ==> r == Ok::<Seq<char>, Seq<char>>(content)
            &&& !none ==> match import_flags(nodes) {
                Err(id) => r == Err::<Seq<char>, Seq<char>>(id),
                Ok(f) => if f.gnu.len() == 0 && f.msvc_x86_64.len() == 0 {
                    r == Ok::<Seq<char>, Seq<char>>(content)
                } else {
                    r == Ok::<Seq<char>, Seq<char>>(
                        patched_all(
                            patched_all(content, "rust_binary"@, bins, windows_select(f)),
                            "rust_test"@,
                            sorted::in_order(test_rule_names(targets)),
                            windows_select(f),
                        ),
                    )
                },
            }
        }),
{
    let tests = test_rule_names(targets);
    if forall|rule: Seq<char>| !#[trigger] tests.contains(rule) {
        assert(tests =~= Set::<Seq<char>>::empty());
    }
    if import_flags(nodes) is Ok {
        lemma_select_is_empty(import_flags(nodes)->Ok_0);
    }
}

proof fn lemma_select_is_empty(f: FlagsModel)
    ensures
        windows_select(f).len() == 0 <==> f.gnu.len() == 0 && f.msvc_x86_64.len() == 0,
{
    reveal_strlit("select({\n");
}

/// The build script of a package is patched where the package has a
/// build-dependency, there are flags, and none of them comes from that very build
/// script. Else its rules stay as they are; and a provider that is not vendored is
/// an error only where there is a build script with a build-dependency.
pub proof fn law_build_script_is_patched(
    content: Seq<char>,
    nodes: Seq<BuckalNode>,
    deps: Seq<BuckalDep>,
    node: BuckalNode,
    i: int,
)
    requires
        0 <= i <= node.targets@.len(),
        forall|j: int|
            0 <= j < i ==> !(#[trigger] node.targets@[j]).kind@.contains(TargetKind::CustomBuild),
        i < node.targets@.len() ==> node.targets@[i].kind@.contains(TargetKind::CustomBuild),
    ensures
        ({
            let r = buildscript_patched(content, nodes, deps, node);
            let wanted = i < node.targets@.len() && exists|d: int, k: int|
                0 <= d < deps.len() && 0 <= k < deps[d].dep_kinds@.len() && (
                #[trigger] deps[d].dep_kinds@[k]).kind == DependencyKind::Build;
            &&& !wanted ==> r == Ok::<Seq<char>, Seq<char>>(content)
            &&& wanted ==> match import_flags(nodes) {
                Err(id) => r == Err::<Seq<char>, Seq<char>>(id),
                Ok(f) => if (f.gnu.len() == 0 && f.msvc_x86_64.len() == 0) || points_at(f, node) {
                    r == Ok::<Seq<char>, Seq<char>>(content)
                } else {
                    r == Ok::<Seq<char>, Seq<char>>(
                        patched(
                            content,
                            "rust_binary"@,
                            node.targets@[i].name@,
                            windows_select(f),
                        ),
                    )
                },
            }
        }),
{
    lemma_build_script(node.targets@, i);
    if exists|d: int, k: int|
        0 <= d < deps.len() && 0 <= k < deps[d].dep_kinds@.len() && (
        #[trigger] deps[d].dep_kinds@[k]).kind == DependencyKind::Build {
        let (d, k) = choose|d: int, k: int|
            0 <= d < deps.len() && 0 <= k < deps[d].dep_kinds@.len() && (
            #[trigger] deps[d].dep_kinds@[k]).kind == DependencyKind::Build;
        assert(deps[d].dep_kinds@[k].kind == DependencyKind::Build);
        assert(is_build_edge(deps[d]));
        assert(has_build_edge(deps));
    }
    if has_build_edge(deps) {
        let d = choose|d: int| 0 <= d < deps.len() && is_build_edge(#[trigger] deps[d]);
        let k = choose|k: int|
            0 <= k < deps[d].dep_kinds@.len() && (#[trigger] deps[d].dep_kinds@[k]).kind
                == DependencyKind::Build;
        assert(deps[d].dep_kinds@[k].kind == DependencyKind::Build);
    }
    if import_flags(nodes) is Ok {
        let f = import_flags(nodes)->Ok_0;
        lemma_select_is_empty(f);
        lemma_points_at(f, node);
    }
}

/// Whether one of the flags is that of the package `node`.
pub open spec fn points_at(f: FlagsModel, node: BuckalNode) -> bool {
    node.vendor_path is Some && ((exists|i: int|
        0 <= i < f.gnu.len() && #[trigger] f.gnu[i] == "@$(location //"@ + node.vendor_path->0@
            + ":build-script-run[rustc_flags])"@) || (exists|i: int|
        0 <= i < f.msvc_x86_64.len() && #[trigger] f.msvc_x86_64[i] == "@$(location //"@
            + node.vendor_path->0@ + ":build-script-run[rustc_flags])"@))
}

proof fn lemma_points_at(f: FlagsModel, node: BuckalNode)
    ensures
        flags_own(f, node) == points_at(f, node),
{
    if let Some(p) = node.vendor_path {
        let all = f.gnu + f.msvc_x86_64;
        let own = run_flag(p@);
        if all.contains(own) {
            let k = choose|k: int| 0 <= k < all.len() && all[k] == own;
            if k < f.gnu.len() {
                assert(f.gnu[k] == own);
            } else {
                assert(f.msvc_x86_64[k - f.gnu.len()] == own);
            }
        }
        if exists|i: int| 0 <= i < f.gnu.len() && #[trigger] f.gnu[i] == own {
            let i = choose|i: int| 0 <= i < f.gnu.len() && #[trigger] f.gnu[i] == own;
            assert(all[i] == own);
        }
        if exists|i: int| 0 <= i < f.msvc_x86_64.len() && #[trigger] f.msvc_x86_64[i] == own {
            let i = choose|i: int| 0 <= i < f.msvc_x86_64.len() && #[trigger] f.msvc_x86_64[i] == own;
            assert(all[f.gnu.len() + i] == own);
        }
    }
}

proof fn lemma_build_script(targets: Seq<BuckalTarget>, i: int)
    requires
        0 <= i <= targets.len(),
        forall|j: int|
            0 <= j < i ==> !(#[trigger] targets[j]).kind@.contains(TargetKind::CustomBuild),
        i < targets.len() ==> targets[i].kind@.contains(TargetKind::CustomBuild),
    ensures
        build_script_of(targets) == if i < targets.len() {
            Some(targets[i].name@)
        } else {
            None
        },
    decreases i,
{
    if i > 0 {
        assert(!targets[0].kind@.contains(TargetKind::CustomBuild));
        let rest = targets.drop_first();
        assert forall|j: int| 0 <= j < i - 1 implies !(#[trigger] rest[j]).kind@.contains(
            TargetKind::CustomBuild,
        ) by {
            assert(rest[j] == targets[j + 1]);
        }
        lemma_build_script(rest, i - 1);
    }
}

proof fn lemma_select_opens()
    ensures
        "select({\n        \"prelude//os/constraints:windows\": select({\n            \"prelude//abi/constraints:gnu\": "@
            == "select({\n"@ + starlark::spaces(8) + starlark::quoted(
            "prelude//os/constraints:windows"@,
        ) + ": "@ + "select({\n"@ + starlark::spaces(12) + starlark::quoted(
            "prelude//abi/constraints:gnu"@,
        ) + ": "@,
{
    lemma_quoted_keys();
    reveal_strlit("select({\n");
    reveal_strlit(": ");
    reveal_strlit("prelude//os/constraints:windows");
    reveal_strlit("prelude//abi/constraints:gnu");
    reveal_strlit("select({\n        \"prelude//os/constraints:windows\": select({\n            \"prelude//abi/constraints:gnu\": ");
    assert("select({\n        \"prelude//os/constraints:windows\": select({\n            \"prelude//abi/constraints:gnu\": "@
        =~= "select({\n"@ + starlark::spaces(8) + starlark::quoted(
        "prelude//os/constraints:windows"@,
    ) + ": "@ + "select({\n"@ + starlark::spaces(12) + starlark::quoted(
        "prelude//abi/constraints:gnu"@,
    ) + ": "@);
}

proof fn lemma_select_goes_on()
    ensures
        ",\n            \"DEFAULT\": "@ == ",\n"@ + starlark::spaces(12) + starlark::quoted(
            "DEFAULT"@,
        ) + ": "@,
{
    lemma_quoted_keys();
    reveal_strlit(": ");
    reveal_strlit(",\n");
    reveal_strlit("DEFAULT");
    reveal_strlit(",\n            \"DEFAULT\": ");
    assert(",\n            \"DEFAULT\": "@ =~= ",\n"@ + starlark::spaces(12) + starlark::quoted(
        "DEFAULT"@,
    ) + ": "@);
}

proof fn lemma_select_closes()
    ensures
        ",\n        }),\n        \"DEFAULT\": [],\n    })"@ == ",\n"@ + starlark::spaces(8)
            + "})"@ + ",\n"@ + starlark::spaces(8) + starlark::quoted("DEFAULT"@) + ": "@ + "[]"@
            + ",\n"@ + starlark::spaces(4) + "})"@,
{
    lemma_quoted_keys();
    reveal_strlit(": ");
    reveal_strlit(",\n");
    reveal_strlit("})");
    reveal_strlit("[]");
    reveal_strlit("DEFAULT");
    reveal_strlit(",\n        }),\n        \"DEFAULT\": [],\n    })");
    assert(",\n        }),\n        \"DEFAULT\": [],\n    })"@ =~= ",\n"@ + starlark::spaces(8)
        + "})"@ + ",\n"@ + starlark::spaces(8) + starlark::quoted("DEFAULT"@) + ": "@ + "[]"@
        + ",\n"@ + starlark::spaces(4) + "})"@);
}

/// The `select` has the flags for the GNU targets under the GNU ABI and those for
/// the MSVC targets under any other, on Windows, and no flags elsewhere. Where there
/// are no flags there is no `select`.
pub proof fn law_select_text(f: FlagsModel)
    ensures
        windows_select(f).len() == 0 <==> f.gnu.len() == 0 && f.msvc_x86_64.len() == 0,
        windows_select(f).len() > 0 ==> windows_select(f) == "select({\n        \"prelude//os/constraints:windows\": select({\n            \"prelude//abi/constraints:gnu\": "@
            + list_text(f.gnu, 12) + ",\n            \"DEFAULT\": "@ + list_text(
            f.msvc_x86_64,
            12,
        ) + ",\n        }),\n        \"DEFAULT\": [],\n    })"@,
{
    lemma_select_is_empty(f);
    lemma_select_opens();
    lemma_select_goes_on();
    lemma_select_closes();
    if windows_select(f).len() > 0 {
        lemma_select_parts(f);
    }
}

proof fn lemma_assoc(a: Seq<char>, b: Seq<char>, c: Seq<char>)
    ensures
        a + (b + c) == a + b + c,
{
    assert(a + (b + c) =~= a + b + c);
}

proof fn lemma_inner_rows(
    s: Seq<char>,
    a: Seq<char>,
    g: Seq<char>,
    end: Seq<char>,
    b: Seq<char>,
    m: Seq<char>,
    w: Seq<char>,
)
    ensures
        s + ((a + g + end) + (b + m + end)) + w == s + a + g + (end + b) + m + (end + w),
{
    let x = a + g + end;
    let y = b + m + end;
    lemma_assoc(s, x, y);
    lemma_assoc(s, a + g, end);
    lemma_assoc(s, a, g);
    assert(s + x == s + a + g + end);
    let h = s + a + g;
    lemma_assoc(h + end, b + m, end);
    lemma_assoc(h + end, b, m);
    lemma_assoc(h, end, b);
    assert(s + x + y == h + (end + b) + m + end);
    lemma_assoc(h + (end + b) + m, end, w);
}

proof fn lemma_outer_rows(
    s: Seq<char>,
    d: Seq<char>,
    v: Seq<char>,
    end: Seq<char>,
    r: Seq<char>,
    w: Seq<char>,
)
    ensures
        s + ((d + v + end) + r) + w == s + d + v + (end + r + w),
{
    lemma_assoc(s, d + v + end, r);
    lemma_assoc(s, d + v, end);
    lemma_assoc(s, d, v);
    let h = s + d + v;
    lemma_assoc(h, end, r);
    lemma_assoc(h, end + r, w);
}

proof fn lemma_select_parts(f: FlagsModel)
    requires
        f.gnu.len() > 0 || f.msvc_x86_64.len() > 0,
    ensures
        windows_select(f) == ("select({\n"@ + starlark::spaces(8) + starlark::quoted(
            "prelude//os/constraints:windows"@,
        ) + ": "@ + "select({\n"@ + starlark::spaces(12) + starlark::quoted(
            "prelude//abi/constraints:gnu"@,
        ) + ": "@) + list_text(f.gnu, 12) + (",\n"@ + starlark::spaces(12) + starlark::quoted(
            "DEFAULT"@,
        ) + ": "@) + list_text(f.msvc_x86_64, 12) + (",\n"@ + starlark::spaces(8) + "})"@ + ",\n"@
            + starlark::spaces(8) + starlark::quoted("DEFAULT"@) + ": "@ + "[]"@ + ",\n"@
            + starlark::spaces(4) + "})"@),
{
    let s = "select({\n"@;
    let c = "})"@;
    let col = ": "@;
    let end = ",\n"@;
    let q1 = starlark::quoted("prelude//os/constraints:windows"@);
    let q2 = starlark::quoted("prelude//abi/constraints:gnu"@);
    let q3 = starlark::quoted("DEFAULT"@);
    let a = starlark::spaces(12) + q2 + col;
    let b = starlark::spaces(12) + q3 + col;
    let d = starlark::spaces(8) + q1 + col;
    let g = list_text(f.gnu, 12);
    let m = list_text(f.msvc_x86_64, 12);
    let w8 = starlark::spaces(8) + c;
    let w4 = starlark::spaces(4) + c;
    let r = starlark::spaces(8) + q3 + col + "[]"@ + end;
    let v = s + ((a + g + end) + (b + m + end)) + w8;
    let inner = (a + g + end) + (b + m + end);
    assert(windows_select(f) == s + ((d + v + end) + r) + w4) by {
        lemma_assoc(s + inner, starlark::spaces(8), c);
        lemma_assoc(s + ((d + v + end) + r), starlark::spaces(4), c);
    }
    lemma_inner_rows(s, a, g, end, b, m, w8);
    lemma_outer_rows(s, d, v, end, r, w4);
    let p1 = s + d + (s + a);
    let p2 = end + b;
    let p3 = (end + w8) + (end + r + w4);
    assert(windows_select(f) == p1 + g + p2 + m + p3) by {
        let tail = end + r + w4;
        lemma_assoc(s + d, s + a + g + p2 + m, end + w8);
        lemma_assoc(s + d, s + a + g + p2, m);
        lemma_assoc(s + d, s + a + g, p2);
        lemma_assoc(s + d, s + a, g);
        lemma_assoc(p1 + g + p2 + m, end + w8, tail);
    }
    assert(p1 == s + starlark::spaces(8) + q1 + col + s + starlark::spaces(12) + q2 + col) by {
        lemma_assoc(s, starlark::spaces(8) + q1, col);
        lemma_assoc(s, starlark::spaces(8), q1);
        lemma_assoc(s + d, s, a);
        lemma_assoc(s + d + s, starlark::spaces(12) + q2, col);
        lemma_assoc(s + d + s, starlark::spaces(12), q2);
    }
    assert(p2 == end + starlark::spaces(12) + q3 + col) by {
        lemma_assoc(end, starlark::spaces(12) + q3, col);
        lemma_assoc(end, starlark::spaces(12), q3);
    }
    assert(p3 == end + starlark::spaces(8) + c + end + starlark::spaces(8) + q3 + col + "[]"@ + end
        + starlark::spaces(4) + c) by {
        let h = end + w8;
        lemma_assoc(end, starlark::spaces(8), c);
        lemma_assoc(h, end + r, w4);
        lemma_assoc(h, end, r);
        lemma_assoc(h + end, starlark::spaces(8) + q3 + col + "[]"@, end);
        lemma_assoc(h + end, starlark::spaces(8) + q3 + col, "[]"@);
        lemma_assoc(h + end, starlark::spaces(8) + q3, col);
        lemma_assoc(h + end, starlark::spaces(8), q3);
        lemma_assoc(h + end + r, starlark::spaces(4), c);
    }
}

proof fn lemma_quoted_keys()
    ensures
        starlark::quoted("prelude//os/constraints:windows"@) == seq!['"']
            + "prelude//os/constraints:windows"@ + seq!['"'],
        starlark::quoted("prelude//abi/constraints:gnu"@) == seq!['"']
            + "prelude//abi/constraints:gnu"@ + seq!['"'],
        starlark::quoted("DEFAULT"@) == seq!['"'] + "DEFAULT"@ + seq!['"'],
{
    reveal_strlit("prelude//os/constraints:windows");
    reveal_strlit("prelude//abi/constraints:gnu");
    reveal_strlit("DEFAULT");
    starlark::law_bare_text_is_quoted("prelude//os/constraints:windows"@);
    starlark::law_bare_text_is_quoted("prelude//abi/constraints:gnu"@);
    starlark::law_bare_text_is_quoted("DEFAULT"@);
}

/// A list of flags has each flag in quotes in a line of its own, in order.
pub proof fn law_flags_stand_in_lines(items: Seq<Seq<char>>, item: Seq<char>, indent: nat)
    ensures
        list_text(Seq::empty(), indent) == "[]"@,
        items.len() > 0 ==> list_text(items, indent) == "[\n"@ + list_rows(
            items,
            indent,
            items.len(),
        ) + starlark::spaces(indent) + "]"@,
        list_rows(items.push(item), indent, items.len() + 1) == list_rows(
            items,
            indent,
            items.len(),
        ) + starlark::spaces(indent + 4) + starlark::quoted(item) + ",\n"@,
        list_rows(items, indent, 0).len() == 0,
{
    lemma_list_rows_push(items, item, indent, items.len());
    assert(items.push(item)[items.len() as int] == item);
}

proof fn lemma_list_rows_push(items: Seq<Seq<char>>, item: Seq<char>, indent: nat, n: nat)
    requires
        n <= items.len(),
    ensures
        list_rows(items.push(item), indent, n) == list_rows(items, indent, n),
    decreases n,
{
    if n > 0 {
        lemma_list_rows_push(items, item, indent, (n - 1) as nat);
        assert(items.push(item)[n - 1] == items[n - 1]);
    }
}

} // verus!
