//! The cache of what the last run saw: a fingerprint for every package.
//!
//! The packages of a cache are keyed by identifiers that do not depend on where
//! the workspace stands: see [`PackageIdExt`].

use vstd::prelude::*;
use vstd::utf8::*;

use crate::paths;
use crate::resolve::PackageId;
use crate::sorted::StringMap;
use crate::sorted;
use crate::text::{number, starts_with, strip_prefix};
use crate::text;

verus! {

/// The version of the cache's format, and of what is generated from a package.
///
/// Version 2: multi-platform support. Version 3: fingerprints over the packages
/// of the graph. Version 4: the version patches count. Version 5: identifiers
/// inside the workspace are stored in a form that does not depend on where it
/// stands. Version 6: conditional dependencies tell CPUs apart; no fingerprint
/// shows that, so every file has to be written again.
pub const CACHE_VERSION: u32 = 6;

/// The digit of `d` in lower-case hexadecimal.
pub open spec fn hex_digit(d: int) -> char {
    if d < 10 {
        (('0' as u32) + d) as char
    } else {
        (('a' as u32) + d - 10) as char
    }
}

/// The lower-case hexadecimal text of `bytes`: two digits a byte.
pub open spec fn hex_text(bytes: Seq<u8>) -> Seq<char> {
    Seq::new(
        2 * bytes.len(),
        |i: int|
            if i % 2 == 0 {
                hex_digit(bytes[i / 2] as int / 16)
            } else {
                hex_digit(bytes[i / 2] as int % 16)
            },
    )
}

/// What a hexadecimal digit of either case stands for.
pub open spec fn hex_value(c: char) -> Option<int> {
    if '0' <= c <= '9' {
        Some(c as int - '0' as int)
    } else if 'a' <= c <= 'f' {
        Some(c as int - 'a' as int + 10)
    } else if 'A' <= c <= 'F' {
        Some(c as int - 'A' as int + 10)
    } else {
        None
    }
}

/// The bytes that `s` is a hexadecimal text of, if it is one.
pub open spec fn hex_bytes(s: Seq<char>) -> Option<Seq<u8>> {
    if s.len() % 2 == 0 && forall|i: int| 0 <= i < s.len() ==> hex_value(#[trigger] s[i]) is Some {
        Some(
            Seq::new(
                s.len() / 2,
                |i: int| (16 * hex_value(s[2 * i])->0 + hex_value(s[2 * i + 1])->0) as u8,
            ),
        )
    } else {
        None
    }
}

/// The error of `hex::decode`, which is handed on as it is.
#[verifier::external_type_specification]
#[verifier::external_body]
pub struct ExFromHexError(hex::FromHexError);

/// `hex::encode`: the lower-case hexadecimal text of `bytes`.
#[verifier::external_body]
fn hex_encode(bytes: &[u8]) -> (r: String)
    ensures
        r@ == hex_text(bytes@),
{
    hex::encode(bytes)
}

/// `hex::decode`: the bytes that `s` is a hexadecimal text of. Digits of either
/// case are taken; an odd number of them, or another character, is an error.
#[verifier::external_body]
fn hex_decode(s: &str) -> (r: Result<Vec<u8>, hex::FromHexError>)
    ensures
        r is Ok <==> hex_bytes(s@) is Some,
        r matches Ok(v) ==> hex_bytes(s@) == Some(v@),
{
    hex::decode(s)
}

/// A fingerprint of a package.
#[derive(Debug, Clone, Copy, PartialEq, Eq, Hash)]
pub struct Fingerprint([u8; 32]);

impl View for Fingerprint {
    type V = Seq<u8>;

    closed spec fn view(&self) -> Seq<u8> {
        self.0@
    }
}

/// Why a text is no fingerprint.
#[derive(Debug)]
pub enum FingerprintError {
    /// It is not hexadecimal.
    NotHex(hex::FromHexError),
    /// It does not stand for thirty-two bytes.
    WrongLength,
}

/// The bytes of a fingerprint that no package has.
pub open spec fn invalid_bytes() -> Seq<u8> {
    Seq::new(32, |i: int| 0u8)
}

impl Fingerprint {
    /// The fingerprint with these bytes.
    pub fn new(bytes: [u8; 32]) -> (r: Fingerprint)
        ensures
            r@ == bytes@,
    {
        Fingerprint(bytes)
    }

    /// A fingerprint that no package is expected to have.
    pub fn invalid() -> (r: Fingerprint)
        ensures
            r@ == invalid_bytes(),
    {
        let bytes = [0u8; 32];
        proof {
            assert(bytes@ =~= invalid_bytes());
        }
        Fingerprint(bytes)
    }

    /// Whether both are the same.
    pub fn same(&self, other: &Fingerprint) -> (r: bool)
        ensures
            r == (self@ == other@),
    {
        let mut i: usize = 0;
        while i < 32
            invariant
                i <= 32,
                self.0@.len() == 32,
                other.0@.len() == 32,
                forall|j: int| 0 <= j < i ==> self.0@[j] == other.0@[j],
            decreases 32 - i,
        {
            if self.0[i] != other.0[i] {
                return false;
            }
            i = i + 1;
        }
        proof {
            assert(self@ =~= other@);
        }
        true
    }

    /// The hexadecimal text of the fingerprint.
    pub fn to_hex(&self) -> (r: String)
        ensures
            r@ == hex_text(self@),
            self@.len() == 32,
    {
        hex_encode(self.0.as_slice())
    }

    /// The fingerprint that `s` is the hexadecimal text of.
    pub fn from_hex(s: &str) -> (r: Result<Fingerprint, FingerprintError>)
        ensures
            match hex_bytes(s@) {
                None => r matches Err(e) && e is NotHex,
                Some(bytes) => if bytes.len() != 32 {
                    r matches Err(e) && e is WrongLength
                } else {
                    r matches Ok(f) && f@ == bytes
                },
            },
    {
        match hex_decode(s) {
            Err(e) => Err(FingerprintError::NotHex(e)),
            Ok(bytes) => {
                if bytes.len() != 32 {
                    return Err(FingerprintError::WrongLength);
                }
                let mut arr = [0u8; 32];
                let mut i: usize = 0;
                while i < 32
                    invariant
                        i <= 32,
                        bytes@.len() == 32,
                        arr@.len() == 32,
                        forall|j: int| 0 <= j < i ==> arr@[j] == bytes@[j],
                    decreases 32 - i,
                {
                    arr[i] = bytes[i];
                    i = i + 1;
                }
                proof {
                    assert(arr@ =~= bytes@);
                }
                Ok(Fingerprint(arr))
            },
        }
    }
}

/// What can be told apart by a fingerprint.
pub trait BuckalHash {
    fn fingerprint(&self) -> Fingerprint;
}

/// Reading back the hexadecimal text of bytes gives the bytes.
pub proof fn law_hex_text_reads_back(bytes: Seq<u8>)
    ensures
        hex_bytes(hex_text(bytes)) == Some(bytes),
{
    let s = hex_text(bytes);
    assert forall|i: int| 0 <= i < s.len() implies hex_value(#[trigger] s[i]) is Some && hex_value(
        s[i],
    )->0 == if i % 2 == 0 {
        bytes[i / 2] as int / 16
    } else {
        bytes[i / 2] as int % 16
    } by {
        let d = if i % 2 == 0 {
            bytes[i / 2] as int / 16
        } else {
            bytes[i / 2] as int % 16
        };
        assert(0 <= d < 16);
        assert(s[i] == hex_digit(d));
    }
    assert forall|i: int| 0 <= i < bytes.len() implies 16 * hex_value(s[2 * i])->0 + hex_value(
        s[2 * i + 1],
    )->0 == #[trigger] bytes[i] by {
        assert((2 * i) % 2 == 0 && (2 * i) / 2 == i && (2 * i + 1) % 2 == 1 && (2 * i + 1) / 2
            == i);
        let a = s[2 * i];
        let b = s[2 * i + 1];
    }
    assert(hex_bytes(s)->0 =~= bytes);
}

/// What stands for the workspace root in an identifier that does not depend on
/// where the workspace is.
pub const WORKSPACE_ID_PLACEHOLDER: &'static str = "path+file://($WORKSPACE)";

/// Whether a byte is written as a percent sign and two digits in the path of a
/// `file` URL: control characters, everything beyond ASCII, and the characters
/// that mean something in a URL.
pub open spec fn escapes(b: u8) -> bool {
    ||| b < 0x20
    ||| b >= 0x7f
    ||| b == 0x20 || b == 0x22 || b == 0x23 || b == 0x25 || b == 0x3c || b == 0x3e || b == 0x3f
    ||| b == 0x5c || b == 0x60 || b == 0x7b || b == 0x7d
}

/// The digit of `d` in upper-case hexadecimal.
pub open spec fn upper_hex_digit(d: int) -> char {
    if d < 10 {
        (('0' as u32) + d) as char
    } else {
        (('A' as u32) + d - 10) as char
    }
}

/// The text of a byte in the path of a `file` URL.
pub open spec fn url_byte(b: u8) -> Seq<char> {
    if escapes(b) {
        seq!['%', upper_hex_digit(b as int / 16), upper_hex_digit(b as int % 16)]
    } else {
        seq![b as char]
    }
}

/// The text of bytes in the path of a `file` URL.
pub open spec fn url_bytes(bytes: Seq<u8>) -> Seq<char>
    decreases bytes.len(),
{
    if bytes.len() == 0 {
        Seq::empty()
    } else {
        url_byte(bytes[0]) + url_bytes(bytes.drop_first())
    }
}

/// The `file` URL of the root or of a plain path.
pub open spec fn file_url_of(path: Seq<char>) -> Seq<char> {
    "file://"@ + url_bytes(encode_utf8(path))
}

/// Whether some platform may take `path` for an absolute one: it starts with a
/// separator, or it may start with a drive or the like, which has a colon.
pub open spec fn may_be_absolute(path: Seq<char>) -> bool {
    path.len() > 0 && (path[0] == '/' || path[0] == '\\' || path.contains(':'))
}

/// `url::Url::from_file_path`: the `file` URL of an absolute path. What counts as
/// absolute depends on the platform, and with it whether there is a URL, so that
/// there is one is left unsaid. The claim is that there is none for a path that
/// is absolute on no platform, that a URL of a uniform path is the path, without
/// the slashes that it repeats or ends with and with the bytes escaped that cannot
/// stand in a URL, and that every such URL has the `file` scheme.
#[verifier::external_body]
fn file_url(path: &str) -> (r: Option<String>)
    ensures
        !may_be_absolute(path@) ==> r is None,
        r matches Some(u) ==> "file://"@.is_prefix_of(u@),
        r matches Some(u) ==> (paths::uniform(path@) ==> u@ == file_url_of(paths::tidied(path@))),
{
    url::Url::from_file_path(path).ok().map(|u| u.as_str().to_owned())
}

/// Where a workspace stands, in the form in which Cargo's identifiers say it.
#[derive(Debug)]
pub struct WorkspaceRoot {
    prefix: String,
}

impl View for WorkspaceRoot {
    type V = Seq<char>;

    /// What the identifiers of the packages under the root start with.
    closed spec fn view(&self) -> Seq<char> {
        self.prefix@
    }
}

impl WorkspaceRoot {
    /// The workspace root `path`. There is none where the path is not absolute
    /// on this platform. Some paths are absolute on no platform.
    pub fn new(path: &str) -> (r: Option<WorkspaceRoot>)
        ensures
            !may_be_absolute(path@) ==> r is None,
            r matches Some(root) ==> "path+file://"@.is_prefix_of(root@),
            r matches Some(root) ==> (paths::uniform(path@) ==> root@ == "path+"@ + file_url_of(
                paths::tidied(path@),
            )),
            r matches Some(root) ==> (paths::rooted(path@) ==> root@ == "path+"@ + file_url_of(
                path@,
            )),
    {
        proof {
            if paths::rooted(path@) {
                paths::lemma_rooted_is_uniform(path@);
            }
        }
        WorkspaceRoot::from_file_url(file_url(path))
    }

    /// The workspace root, from what came of asking for the `file` URL of its
    /// path: there is one if and only if there is a URL.
    pub fn from_file_url(url: Option<String>) -> (r: Option<WorkspaceRoot>)
        ensures
            match url {
                Some(u) => r matches Some(root) && root@ == "path+"@ + u@ && ("file://"@.is_prefix_of(
                    u@,
                ) ==> "path+file://"@.is_prefix_of(root@)),
                None => r is None,
            },
    {
        match url {
            Some(url) => Some(WorkspaceRoot::from_url(url.as_str())),
            None => None,
        }
    }

    /// The workspace root whose `file` URL is `url`.
    pub fn from_url(url: &str) -> (r: WorkspaceRoot)
        ensures
            r@ == "path+"@ + url@,
            "file://"@.is_prefix_of(url@) ==> "path+file://"@.is_prefix_of(r@),
    {
        let mut prefix = "path+".to_owned();
        prefix.append(url);
        proof {
            reveal_strlit("path+");
            reveal_strlit("file://");
            reveal_strlit("path+file://");
            if "file://"@.is_prefix_of(url@) {
                assert("path+file://"@ =~= prefix@.subrange(0, 12)) by {
                    assert(url@.subrange(0, 7) == "file://"@);
                    assert forall|i: int| 5 <= i < 12 implies prefix@[i] == "file://"@[i - 5] by {
                        assert(prefix@[i] == url@[i - 5]);
                        assert(url@.subrange(0, 7)[i - 5] == url@[i - 5]);
                    }
                }
            }
        }
        WorkspaceRoot { prefix }
    }

    /// What the identifiers of the packages under the root start with.
    pub fn workspace_id_prefix(&self) -> (r: &str)
        ensures
            r@ == self@,
    {
        self.prefix.as_str()
    }
}

/// Whether what follows a prefix in an identifier goes on below it or ends the
/// path, so that the prefix is not merely the start of another name.
pub open spec fn id_boundary(rest: Seq<char>) -> bool {
    rest.len() > 0 && (rest[0] == '/' || rest[0] == '#')
}

/// Whether `rest` starts where a path can end.
pub fn is_id_boundary(rest: &str) -> (r: bool)
    ensures
        r == id_boundary(rest@),
{
    proof {
        reveal_strlit("/");
        reveal_strlit("#");
        assert("/"@.is_prefix_of(rest@) <==> rest@.len() > 0 && rest@[0] == '/') by {
            if rest@.len() > 0 && rest@[0] == '/' {
                assert("/"@ =~= rest@.subrange(0, 1));
            }
            if "/"@.is_prefix_of(rest@) {
                assert(rest@.subrange(0, 1)[0] == '/');
            }
        }
        assert("#"@.is_prefix_of(rest@) <==> rest@.len() > 0 && rest@[0] == '#') by {
            if rest@.len() > 0 && rest@[0] == '#' {
                assert("#"@ =~= rest@.subrange(0, 1));
            }
            if "#"@.is_prefix_of(rest@) {
                assert(rest@.subrange(0, 1)[0] == '#');
            }
        }
    }
    starts_with(rest, "/") || starts_with(rest, "#")
}

/// Whether `id` lies at `prefix` or below it.
pub open spec fn lies_under(id: Seq<char>, prefix: Seq<char>) -> bool {
    prefix.is_prefix_of(id) && id_boundary(id.skip(prefix.len() as int))
}

/// `id` with `to` for `from` at its start, where it lies under `from`.
pub open spec fn prefix_swapped(id: Seq<char>, from: Seq<char>, to: Seq<char>) -> Seq<char> {
    if lies_under(id, from) {
        to + id.skip(from.len() as int)
    } else {
        id
    }
}

/// The identifier that stands for `id` wherever the workspace is.
pub open spec fn canonical(id: Seq<char>, prefix: Seq<char>) -> Seq<char> {
    prefix_swapped(id, prefix, WORKSPACE_ID_PLACEHOLDER@)
}

/// The identifier that `id` stands for in this workspace.
pub open spec fn resolved(id: Seq<char>, prefix: Seq<char>) -> Seq<char> {
    prefix_swapped(id, WORKSPACE_ID_PLACEHOLDER@, prefix)
}

/// `id` with `to` for `from` at its start, where it lies under `from`.
fn swap_prefix(id: &str, from: &str, to: &str) -> (r: String)
    ensures
        r@ == prefix_swapped(id@, from@, to@),
{
    match strip_prefix(id, from) {
        Some(rest) if is_id_boundary(rest.as_str()) => {
            let mut out = to.to_owned();
            out.append(rest.as_str());
            out
        },
        _ => id.to_owned(),
    }
}

/// Identifiers that do not depend on where the workspace stands.
pub trait PackageIdExt: Sized {
    /// The identifier that this one stands for in the workspace.
    fn resolve(&self, workspace_root: &WorkspaceRoot) -> (r: Self);

    /// The identifier that stands for this one wherever the workspace is.
    fn canonicalize(&self, workspace_root: &WorkspaceRoot) -> (r: Self);
}

impl PackageIdExt for PackageId {
    fn resolve(&self, workspace_root: &WorkspaceRoot) -> (r: Self)
        ensures
            r@ == resolved(self@, workspace_root@),
    {
        PackageId {
            repr: swap_prefix(
                self.repr.as_str(),
                WORKSPACE_ID_PLACEHOLDER,
                workspace_root.workspace_id_prefix(),
            ),
        }
    }

    fn canonicalize(&self, workspace_root: &WorkspaceRoot) -> (r: Self)
        ensures
            r@ == canonical(self@, workspace_root@),
    {
        PackageId {
            repr: swap_prefix(
                self.repr.as_str(),
                workspace_root.workspace_id_prefix(),
                WORKSPACE_ID_PLACEHOLDER,
            ),
        }
    }
}

proof fn lemma_swap_back(id: Seq<char>, from: Seq<char>, to: Seq<char>)
    requires
        lies_under(id, from),
    ensures
        prefix_swapped(prefix_swapped(id, from, to), to, from) == id,
{
    let rest = id.skip(from.len() as int);
    let out = to + rest;
    assert(out.subrange(0, to.len() as int) =~= to);
    assert(out.skip(to.len() as int) =~= rest);
    assert(from + rest =~= id);
}

/// An identifier comes back from the one that stands for it: every identifier in
/// the workspace, and every other one that holds no placeholder to resolve.
pub proof fn law_resolve_undoes_canonicalize(id: Seq<char>, prefix: Seq<char>)
    requires
        lies_under(id, prefix) || resolved(id, prefix) == id,
    ensures
        resolved(canonical(id, prefix), prefix) == id,
{
    if lies_under(id, prefix) {
        lemma_swap_back(id, prefix, WORKSPACE_ID_PLACEHOLDER@);
    }
}

/// An identifier comes back from the one that it stands for: every identifier
/// with the placeholder, and every other one that lies outside the workspace.
pub proof fn law_canonicalize_undoes_resolve(id: Seq<char>, prefix: Seq<char>)
    requires
        lies_under(id, WORKSPACE_ID_PLACEHOLDER@) || canonical(id, prefix) == id,
    ensures
        canonical(resolved(id, prefix), prefix) == id,
{
    let from = WORKSPACE_ID_PLACEHOLDER@;
    if lies_under(id, from) {
        lemma_swap_back(id, from, prefix);
    }
}

/// An identifier outside the workspace is left alone: one that does not start
/// with the root, or goes on with another name behind it.
pub proof fn law_other_ids_are_left_alone(id: Seq<char>, prefix: Seq<char>)
    requires
        !lies_under(id, prefix),
    ensures
        canonical(id, prefix) == id,
{
}

/// How a package differs between two runs.
#[derive(Debug, Clone, Copy, PartialEq, Eq, Structural)]
pub enum ChangeType {
    Added,
    Removed,
    Changed,
}

/// The packages that differ between two runs, by identifier.
#[derive(Debug)]
pub struct BuckalChange {
    pub changes: StringMap<ChangeType>,
}

/// The fingerprints of the packages that a run saw.
#[derive(Debug)]
pub struct BuckalCache {
    /// The fingerprints, by the identifiers that do not depend on where the
    /// workspace stands.
    pub fingerprints: StringMap<Fingerprint>,
    pub version: u32,
}

/// The bytes of the fingerprints that a map holds.
pub open spec fn prints(m: StringMap<Fingerprint>) -> Map<Seq<char>, Seq<u8>> {
    m@.map_values(|f: Fingerprint| f@)
}

impl View for BuckalCache {
    type V = Map<Seq<char>, Seq<u8>>;

    open spec fn view(&self) -> Map<Seq<char>, Seq<u8>> {
        prints(self.fingerprints)
    }
}

/// Why a cache that was read is not used.
#[derive(Debug)]
pub enum LoadError {
    /// It was written by a newer version of the program, which the user has to
    /// get first.
    Newer(String),
    /// It has to be built again.
    Stale(String),
}

/// The fingerprints of a list of packages, under the identifiers that stand for
/// them: where two packages have the same, that of the later one.
pub open spec fn listed(
    nodes: Seq<(PackageId, Fingerprint)>,
    prefix: Seq<char>,
) -> Map<Seq<char>, Seq<u8>>
    decreases nodes.len(),
{
    if nodes.len() == 0 {
        Map::empty()
    } else {
        listed(nodes.drop_last(), prefix).insert(
            canonical(nodes.last().0@, prefix),
            nodes.last().1@,
        )
    }
}

/// `m` under the identifiers that stand for those of `ids`: where two have the
/// same, the value of the later one.
pub open spec fn rekeyed(
    m: Map<Seq<char>, Seq<u8>>,
    ids: Seq<Seq<char>>,
    prefix: Seq<char>,
) -> Map<Seq<char>, Seq<u8>>
    decreases ids.len(),
{
    if ids.len() == 0 {
        Map::empty()
    } else {
        rekeyed(m, ids.drop_last(), prefix).insert(canonical(ids.last(), prefix), m[ids.last()])
    }
}

/// What a run reports of the packages `ids` that it saw, `new`, against those of
/// the run before it, `old`.
pub open spec fn seen_changes(
    new: Map<Seq<char>, Seq<u8>>,
    old: Map<Seq<char>, Seq<u8>>,
    ids: Seq<Seq<char>>,
    prefix: Seq<char>,
) -> Map<Seq<char>, ChangeType>
    decreases ids.len(),
{
    if ids.len() == 0 {
        Map::empty()
    } else {
        let before = seen_changes(new, old, ids.drop_last(), prefix);
        let id = ids.last();
        if !old.contains_key(id) {
            before.insert(resolved(id, prefix), ChangeType::Added)
        } else if new[id] != old[id] {
            before.insert(resolved(id, prefix), ChangeType::Changed)
        } else {
            before
        }
    }
}

/// `changes`, and what a run reports of the packages `ids` of the run before it
/// that it did not see.
pub open spec fn with_removals(
    changes: Map<Seq<char>, ChangeType>,
    new: Map<Seq<char>, Seq<u8>>,
    ids: Seq<Seq<char>>,
    prefix: Seq<char>,
) -> Map<Seq<char>, ChangeType>
    decreases ids.len(),
{
    if ids.len() == 0 {
        changes
    } else {
        let before = with_removals(changes, new, ids.drop_last(), prefix);
        if !new.contains_key(ids.last()) {
            before.insert(resolved(ids.last(), prefix), ChangeType::Removed)
        } else {
            before
        }
    }
}

/// What a run that saw `new` reports against one that saw `old`.
pub open spec fn differences(
    new: Map<Seq<char>, Seq<u8>>,
    old: Map<Seq<char>, Seq<u8>>,
    prefix: Seq<char>,
) -> Map<Seq<char>, ChangeType> {
    with_removals(
        seen_changes(new, old, sorted::in_order(new.dom()), prefix),
        new,
        sorted::in_order(old.dom()),
        prefix,
    )
}

/// The same packages, each with a fingerprint that no package has.
pub open spec fn forgotten(m: Map<Seq<char>, Seq<u8>>) -> Map<Seq<char>, Seq<u8>> {
    m.map_values(|f: Seq<u8>| invalid_bytes())
}

/// What a cache of the version `version` that holds `m` comes to once it is brought
/// up to date, if it can be.
pub open spec fn brought_up(
    version: u32,
    m: Map<Seq<char>, Seq<u8>>,
    prefix: Seq<char>,
) -> Option<Map<Seq<char>, Seq<u8>>> {
    if version == CACHE_VERSION {
        Some(m)
    } else if version == 5 {
        Some(forgotten(m))
    } else if version == 4 {
        Some(forgotten(rekeyed(m, sorted::in_order(m.dom()), prefix)))
    } else {
        None
    }
}

/// The message for a cache of a newer version.
pub open spec fn newer_message(found: u32) -> Seq<char> {
    "Cache was written by a newer version of Buckal (found v"@ + text::decimal(found as nat)
        + ", expected v"@ + text::decimal(CACHE_VERSION as nat) + "). Please upgrade Buckal."@
}

/// The message for a cache of an older version.
pub open spec fn stale_message(found: u32) -> Seq<char> {
    "Cache version is stale (found "@ + text::decimal(found as nat) + ", expected "@
        + text::decimal(CACHE_VERSION as nat) + ")"@
}

/// The message for a cache of a version that is too old to be brought up to date.
pub open spec fn unmigratable_message(found: u32) -> Seq<char> {
    "Cache version is stale and not migratable (found "@ + text::decimal(found as nat)
        + ", expected "@ + text::decimal(CACHE_VERSION as nat) + ")"@
}

/// A message with the version that was found and the one that is expected.
fn version_message(before: &str, found: u32, between: &str, after: &str) -> (r: String)
    ensures
        r@ == before@ + text::decimal(found as nat) + between@ + text::decimal(
            CACHE_VERSION as nat,
        ) + after@,
{
    let mut message = before.to_owned();
    message.append(number(found as usize).as_str());
    message.append(between);
    message.append(number(CACHE_VERSION as usize).as_str());
    message.append(after);
    message
}

impl BuckalCache {
    /// The cache of a run that sees the packages `nodes`, each with its
    /// fingerprint.
    pub fn from_resolve(
        nodes: &Vec<(PackageId, Fingerprint)>,
        workspace_root: &WorkspaceRoot,
    ) -> (r: BuckalCache)
        ensures
            r@ == listed(nodes@, workspace_root@),
            r.version == CACHE_VERSION,
    {
        let mut fingerprints: StringMap<Fingerprint> = StringMap::new();
        let mut i: usize = 0;
        proof {
            assert(prints(fingerprints) =~= Map::empty());
        }
        while i < nodes.len()
            invariant
                i <= nodes@.len(),
                prints(fingerprints) == listed(nodes@.take(i as int), workspace_root@),
            decreases nodes@.len() - i,
        {
            let ghost before = prints(fingerprints);
            let id = nodes[i].0.canonicalize(workspace_root);
            let f = nodes[i].1;
            let ghost key = id@;
            fingerprints.insert(id.repr, f);
            proof {
                assert(nodes@.take(i + 1).drop_last() =~= nodes@.take(i as int));
                assert(prints(fingerprints) =~= before.insert(key, f@));
            }
            i = i + 1;
        }
        proof {
            assert(nodes@.take(i as int) =~= nodes@);
        }
        BuckalCache { fingerprints, version: CACHE_VERSION }
    }

    /// The cache of a run that saw no package.
    pub fn new_empty() -> (r: BuckalCache)
        ensures
            r@ == Map::<Seq<char>, Seq<u8>>::empty(),
            r.version == CACHE_VERSION,
    {
        let r = BuckalCache { fingerprints: StringMap::new(), version: CACHE_VERSION };
        proof {
            assert(r@ =~= Map::empty());
        }
        r
    }

    /// Why the cache cannot be read by this version of the program, if it cannot.
    fn refused(&self) -> (r: Option<LoadError>)
        ensures
            r is Some <==> self.version > CACHE_VERSION,
            r matches Some(e) ==> (e matches LoadError::Newer(m) && m@ == newer_message(
                self.version,
            )),
    {
        if self.version > CACHE_VERSION {
            Some(
                LoadError::Newer(
                    version_message(
                        "Cache was written by a newer version of Buckal (found v",
                        self.version,
                        ", expected v",
                        "). Please upgrade Buckal.",
                    ),
                ),
            )
        } else {
            None
        }
    }

    /// The cache that was read, if it has the current version.
    pub fn load(cache: BuckalCache) -> (r: Result<BuckalCache, LoadError>)
        ensures
            cache.version == CACHE_VERSION ==> r == Ok::<BuckalCache, LoadError>(cache),
            cache.version < CACHE_VERSION ==> (r matches Err(LoadError::Stale(m)) && m@
                == stale_message(cache.version)),
            cache.version > CACHE_VERSION ==> (r matches Err(LoadError::Newer(m)) && m@
                == newer_message(cache.version)),
    {
        if let Some(e) = cache.refused() {
            return Err(e);
        }
        if cache.version < CACHE_VERSION {
            return Err(
                LoadError::Stale(
                    version_message(
                        "Cache version is stale (found ",
                        cache.version,
                        ", expected ",
                        ")",
                    ),
                ),
            );
        }
        Ok(cache)
    }

    /// The cache that was read, brought up to date. One of version 4 gets the
    /// identifiers of version 5 first. The packages of an older cache are kept,
    /// so that it still shows which of them are gone; their fingerprints are
    /// not, so that every file is written again. The workspace root is needed for
    /// a cache of version 4 alone.
    pub fn load_migrated(cache: BuckalCache, workspace_root: Option<&WorkspaceRoot>) -> (r: Result<
        BuckalCache,
        LoadError,
    >)
        requires
            cache.version == 4 ==> workspace_root is Some,
        ensures
            ({
                let prefix = match workspace_root {
                    Some(root) => root@,
                    None => Seq::empty(),
                };
                brought_up(cache.version, cache@, prefix) == match r {
                    Ok(c) => Some(c@),
                    Err(_) => None,
                }
            }),
            cache.version == CACHE_VERSION ==> r == Ok::<BuckalCache, LoadError>(cache),
            cache.version == 4 ==> (r matches Ok(c) && c.version == CACHE_VERSION && c@
                == forgotten(
                rekeyed(cache@, sorted::in_order(cache@.dom()), workspace_root->0@),
            )),
            cache.version == 5 ==> (r matches Ok(c) && c.version == CACHE_VERSION && c@
                == forgotten(cache@)),
            cache.version < 4 ==> (r matches Err(LoadError::Stale(m)) && m@
                == unmigratable_message(cache.version)),
            cache.version > CACHE_VERSION ==> (r matches Err(LoadError::Newer(m)) && m@
                == newer_message(cache.version)),
    {
        if let Some(e) = cache.refused() {
            return Err(e);
        }
        if cache.version == CACHE_VERSION {
            Ok(cache)
        } else if cache.version == 4 {
            Ok(cache.rekeyed_v4_to_v5(workspace_root.unwrap()).invalidated())
        } else if cache.version == 5 {
            Ok(cache.invalidated())
        } else {
            Err(
                LoadError::Stale(
                    version_message(
                        "Cache version is stale and not migratable (found ",
                        cache.version,
                        ", expected ",
                        ")",
                    ),
                ),
            )
        }
    }

    /// The same packages, each with a fingerprint that no package has.
    pub fn invalidated(self) -> (r: BuckalCache)
        ensures
            r@ == forgotten(self@),
            r.version == CACHE_VERSION,
    {
        let mut fingerprints: StringMap<Fingerprint> = StringMap::new();
        let n = self.fingerprints.len();
        let ghost keys = self.fingerprints.keys();
        let mut i: usize = 0;
        while i < n
            invariant
                i <= n,
                n == keys.len(),
                keys == self.fingerprints.keys(),
                keys.to_set() == self.fingerprints@.dom(),
                forall|k: Seq<char>|
                    prints(fingerprints).contains_key(k) <==> keys.take(i as int).contains(k),
                forall|k: Seq<char>| #[trigger]
                    prints(fingerprints).contains_key(k) ==> prints(fingerprints)[k]
                        == invalid_bytes(),
            decreases n - i,
        {
            let key = self.fingerprints.key_at(i).clone();
            let ghost before = prints(fingerprints);
            let ghost k0 = key@;
            fingerprints.insert(key, Fingerprint::invalid());
            proof {
                assert(prints(fingerprints) =~= before.insert(k0, invalid_bytes()));
                assert forall|k: Seq<char>|
                    prints(fingerprints).contains_key(k) <==> keys.take(i + 1).contains(k) by {
                    let a = keys.take(i + 1);
                    let b = keys.take(i as int);
                    if a.contains(k) {
                        let j = choose|j: int| 0 <= j < a.len() && a[j] == k;
                        if j < i {
                            assert(b[j] == k);
                        }
                    }
                    if b.contains(k) {
                        let j = choose|j: int| 0 <= j < b.len() && b[j] == k;
                        assert(a[j] == k);
                    }
                    assert(a[i as int] == k0);
                }
            }
            i = i + 1;
        }
        proof {
            assert(keys.take(i as int) =~= keys);
            assert forall|k: Seq<char>|
                forgotten(self@).contains_key(k) == prints(fingerprints).contains_key(k) by {
                assert(keys.to_set().contains(k) == keys.contains(k));
                assert(self.fingerprints@.dom().contains(k) == self@.contains_key(k));
            }
            assert(prints(fingerprints) =~= forgotten(self@));
        }
        BuckalCache { fingerprints, version: CACHE_VERSION }
    }

    /// The same fingerprints under the identifiers of version 5, which do not
    /// depend on where the workspace stands.
    pub fn rekeyed_v4_to_v5(self, workspace_root: &WorkspaceRoot) -> (r: BuckalCache)
        ensures
            r@ == rekeyed(self@, sorted::in_order(self@.dom()), workspace_root@),
            r.version == CACHE_VERSION,
    {
        let mut fingerprints: StringMap<Fingerprint> = StringMap::new();
        let n = self.fingerprints.len();
        let ghost keys = self.fingerprints.keys();
        let mut i: usize = 0;
        proof {
            sorted::lemma_in_order(keys);
            assert(self@.dom() =~= self.fingerprints@.dom());
            assert(prints(fingerprints) =~= Map::empty());
        }
        while i < n
            invariant
                i <= n,
                n == keys.len(),
                keys == self.fingerprints.keys(),
                prints(fingerprints) == rekeyed(self@, keys.take(i as int), workspace_root@),
            decreases n - i,
        {
            let id = PackageId { repr: self.fingerprints.key_at(i).clone() };
            let key = id.canonicalize(workspace_root);
            let f = *self.fingerprints.value_at(i);
            let ghost before = prints(fingerprints);
            let ghost k0 = key@;
            fingerprints.insert(key.repr, f);
            proof {
                assert(keys.take(i + 1).drop_last() =~= keys.take(i as int));
                assert(self@[keys[i as int]] == f@);
                assert(prints(fingerprints) =~= before.insert(k0, f@));
            }
            i = i + 1;
        }
        proof {
            assert(keys.take(i as int) =~= keys);
        }
        BuckalCache { fingerprints, version: CACHE_VERSION }
    }

    /// What the run of this cache reports against the run of the cache `other`.
    pub fn diff(&self, other: &BuckalCache, workspace_root: &WorkspaceRoot) -> (r: BuckalChange)
        ensures
            r.changes@ == differences(self@, other@, workspace_root@),
    {
        let mut changes: StringMap<ChangeType> = StringMap::new();
        let n = self.fingerprints.len();
        let ghost keys = self.fingerprints.keys();
        proof {
            sorted::lemma_in_order(keys);
            assert(self@.dom() =~= self.fingerprints@.dom());
        }
        let mut i: usize = 0;
        while i < n
            invariant
                i <= n,
                n == keys.len(),
                keys == self.fingerprints.keys(),
                changes@ == seen_changes(self@, other@, keys.take(i as int), workspace_root@),
            decreases n - i,
        {
            let key = self.fingerprints.key_at(i);
            let f = self.fingerprints.value_at(i);
            let id = PackageId { repr: key.clone() };
            proof {
                assert(keys.take(i + 1).drop_last() =~= keys.take(i as int));
                assert(self@[keys[i as int]] == f@);
            }
            match other.fingerprints.get(key.as_str()) {
                Some(other_f) => {
                    proof {
                        assert(other@[key@] == other_f@);
                    }
                    if !f.same(other_f) {
                        changes.insert(id.resolve(workspace_root).repr, ChangeType::Changed);
                    }
                },
                None => {
                    changes.insert(id.resolve(workspace_root).repr, ChangeType::Added);
                },
            }
            i = i + 1;
        }
        let m = other.fingerprints.len();
        let ghost old_keys = other.fingerprints.keys();
        let ghost seen = changes@;
        proof {
            assert(keys.take(i as int) =~= keys);
            sorted::lemma_in_order(old_keys);
            assert(other@.dom() =~= other.fingerprints@.dom());
        }
        let mut j: usize = 0;
        while j < m
            invariant
                j <= m,
                m == old_keys.len(),
                old_keys == other.fingerprints.keys(),
                changes@ == with_removals(
                    seen,
                    self@,
                    old_keys.take(j as int),
                    workspace_root@,
                ),
            decreases m - j,
        {
            let key = other.fingerprints.key_at(j);
            proof {
                assert(old_keys.take(j + 1).drop_last() =~= old_keys.take(j as int));
            }
            if !self.fingerprints.contains_key(key.as_str()) {
                let id = PackageId { repr: key.clone() };
                changes.insert(id.resolve(workspace_root).repr, ChangeType::Removed);
            }
            j = j + 1;
        }
        proof {
            assert(old_keys.take(j as int) =~= old_keys);
        }
        BuckalChange { changes }
    }
}

/// Whether the packages of `m` have identifiers that do not depend on where the
/// workspace stands.
pub open spec fn portable(m: Map<Seq<char>, Seq<u8>>, prefix: Seq<char>) -> bool {
    &&& m.dom().finite()
    &&& forall|id: Seq<char>| #[trigger]
        m.contains_key(id) ==> lies_under(id, WORKSPACE_ID_PLACEHOLDER@) || canonical(id, prefix)
            == id
}

/// What there is to report of a package.
pub open spec fn verdict(
    new: Map<Seq<char>, Seq<u8>>,
    old: Map<Seq<char>, Seq<u8>>,
    id: Seq<char>,
) -> Option<ChangeType> {
    if new.contains_key(id) && !old.contains_key(id) {
        Some(ChangeType::Added)
    } else if !new.contains_key(id) && old.contains_key(id) {
        Some(ChangeType::Removed)
    } else if new.contains_key(id) && new[id] != old[id] {
        Some(ChangeType::Changed)
    } else {
        None
    }
}

/// What is reported under the identifier `r`.
pub open spec fn reported(
    changes: Map<Seq<char>, ChangeType>,
    r: Seq<char>,
) -> Option<ChangeType> {
    if changes.contains_key(r) {
        Some(changes[r])
    } else {
        None
    }
}

proof fn lemma_seen_changes(
    new: Map<Seq<char>, Seq<u8>>,
    old: Map<Seq<char>, Seq<u8>>,
    ids: Seq<Seq<char>>,
    prefix: Seq<char>,
)
    requires
        portable(new, prefix),
        portable(old, prefix),
        forall|i: int| 0 <= i < ids.len() ==> new.contains_key(#[trigger] ids[i]),
    ensures
        forall|id: Seq<char>|
            new.contains_key(id) || old.contains_key(id) ==> reported(
                seen_changes(new, old, ids, prefix),
                #[trigger] resolved(id, prefix),
            ) == if ids.contains(id) {
                verdict(new, old, id)
            } else {
                None
            },
        forall|r: Seq<char>| #[trigger]
            seen_changes(new, old, ids, prefix).contains_key(r) ==> exists|id: Seq<char>|
                ids.contains(id) && r == #[trigger] resolved(id, prefix),
    decreases ids.len(),
{
    if ids.len() > 0 {
        let head = ids.drop_last();
        let last = ids.last();
        assert(new.contains_key(ids[ids.len() - 1]));
        assert forall|i: int| 0 <= i < head.len() implies new.contains_key(#[trigger] head[i]) by {
            assert(head[i] == ids[i]);
        }
        lemma_seen_changes(new, old, head, prefix);
        assert forall|id: Seq<char>| ids.contains(id) == (head.contains(id) || id == last) by {
            lemma_contains_last(ids, id);
        }
        assert forall|id: Seq<char>|
            new.contains_key(id) || old.contains_key(id) implies reported(
            seen_changes(new, old, ids, prefix),
            #[trigger] resolved(id, prefix),
        ) == if ids.contains(id) {
            verdict(new, old, id)
        } else {
            None
        } by {
            law_canonicalize_undoes_resolve(id, prefix);
            law_canonicalize_undoes_resolve(last, prefix);
        }
        assert forall|r: Seq<char>| #[trigger]
            seen_changes(new, old, ids, prefix).contains_key(r) implies exists|id: Seq<char>|
            ids.contains(id) && r == #[trigger] resolved(id, prefix) by {
            if r == resolved(last, prefix) {
                assert(ids.contains(last));
            } else {
                assert(seen_changes(new, old, head, prefix).contains_key(r));
                let id = choose|id: Seq<char>|
                    head.contains(id) && r == #[trigger] resolved(id, prefix);
                assert(ids.contains(id) && r == resolved(id, prefix));
            }
        }
    }
}

proof fn lemma_contains_last(ids: Seq<Seq<char>>, id: Seq<char>)
    requires
        ids.len() > 0,
    ensures
        ids.contains(id) == (ids.drop_last().contains(id) || id == ids.last()),
{
    let head = ids.drop_last();
    if ids.contains(id) {
        let j = choose|j: int| 0 <= j < ids.len() && ids[j] == id;
        if j < head.len() {
            assert(head[j] == id);
        }
    }
    if head.contains(id) {
        let j = choose|j: int| 0 <= j < head.len() && head[j] == id;
        assert(ids[j] == id);
    }
    assert(ids[ids.len() - 1] == ids.last());
}

proof fn lemma_with_removals(
    changes: Map<Seq<char>, ChangeType>,
    new: Map<Seq<char>, Seq<u8>>,
    old: Map<Seq<char>, Seq<u8>>,
    ids: Seq<Seq<char>>,
    prefix: Seq<char>,
)
    requires
        portable(new, prefix),
        portable(old, prefix),
        forall|i: int| 0 <= i < ids.len() ==> old.contains_key(#[trigger] ids[i]),
    ensures
        forall|id: Seq<char>|
            new.contains_key(id) || old.contains_key(id) ==> reported(
                with_removals(changes, new, ids, prefix),
                #[trigger] resolved(id, prefix),
            ) == if ids.contains(id) && !new.contains_key(id) {
                Some(ChangeType::Removed)
            } else {
                reported(changes, resolved(id, prefix))
            },
        forall|r: Seq<char>| #[trigger]
            with_removals(changes, new, ids, prefix).contains_key(r) ==> changes.contains_key(r)
                || exists|id: Seq<char>| ids.contains(id) && r == #[trigger] resolved(id, prefix),
    decreases ids.len(),
{
    if ids.len() > 0 {
        let head = ids.drop_last();
        let last = ids.last();
        assert(old.contains_key(ids[ids.len() - 1]));
        assert forall|i: int| 0 <= i < head.len() implies old.contains_key(#[trigger] head[i]) by {
            assert(head[i] == ids[i]);
        }
        lemma_with_removals(changes, new, old, head, prefix);
        assert forall|id: Seq<char>| ids.contains(id) == (head.contains(id) || id == last) by {
            lemma_contains_last(ids, id);
        }
        assert forall|id: Seq<char>|
            new.contains_key(id) || old.contains_key(id) implies reported(
            with_removals(changes, new, ids, prefix),
            #[trigger] resolved(id, prefix),
        ) == if ids.contains(id) && !new.contains_key(id) {
            Some(ChangeType::Removed)
        } else {
            reported(changes, resolved(id, prefix))
        } by {
            law_canonicalize_undoes_resolve(id, prefix);
            law_canonicalize_undoes_resolve(last, prefix);
        }
        assert forall|r: Seq<char>| #[trigger]
            with_removals(changes, new, ids, prefix).contains_key(r) implies changes.contains_key(r)
            || exists|id: Seq<char>| ids.contains(id) && r == #[trigger] resolved(id, prefix) by {
            if r == resolved(last, prefix) {
                assert(ids.contains(last));
            } else {
                assert(with_removals(changes, new, head, prefix).contains_key(r));
                if !changes.contains_key(r) {
                    let id = choose|id: Seq<char>|
                        head.contains(id) && r == #[trigger] resolved(id, prefix);
                    assert(ids.contains(id) && r == resolved(id, prefix));
                }
            }
        }
    }
}

/// What is reported of a package is that it is new, or gone, or has another
/// fingerprint; a package that is the same is not reported, and nothing else is.
pub proof fn law_every_package_gets_its_verdict(
    new: Map<Seq<char>, Seq<u8>>,
    old: Map<Seq<char>, Seq<u8>>,
    prefix: Seq<char>,
)
    requires
        portable(new, prefix),
        portable(old, prefix),
    ensures
        forall|id: Seq<char>|
            new.contains_key(id) || old.contains_key(id) ==> reported(
                differences(new, old, prefix),
                #[trigger] resolved(id, prefix),
            ) == verdict(new, old, id),
        forall|r: Seq<char>| #[trigger]
            differences(new, old, prefix).contains_key(r) ==> exists|id: Seq<char>|
                (new.contains_key(id) || old.contains_key(id)) && r == #[trigger] resolved(
                    id,
                    prefix,
                ),
{
    let news = sorted::in_order(new.dom());
    let olds = sorted::in_order(old.dom());
    sorted::lemma_in_order_is_order(new.dom());
    sorted::lemma_in_order_is_order(old.dom());
    assert forall|id: Seq<char>| new.contains_key(id) == news.contains(id) by {
        assert(news.to_set().contains(id) == news.contains(id));
    }
    assert forall|id: Seq<char>| old.contains_key(id) == olds.contains(id) by {
        assert(olds.to_set().contains(id) == olds.contains(id));
    }
    assert forall|i: int| 0 <= i < news.len() implies new.contains_key(#[trigger] news[i]) by {
        assert(news.contains(news[i]));
    }
    assert forall|i: int| 0 <= i < olds.len() implies old.contains_key(#[trigger] olds[i]) by {
        assert(olds.contains(olds[i]));
    }
    let seen = seen_changes(new, old, news, prefix);
    lemma_seen_changes(new, old, news, prefix);
    lemma_with_removals(seen, new, old, olds, prefix);
    assert forall|r: Seq<char>| #[trigger]
        differences(new, old, prefix).contains_key(r) implies exists|id: Seq<char>|
        (new.contains_key(id) || old.contains_key(id)) && r == #[trigger] resolved(id, prefix) by {
        if seen.contains_key(r) {
            let id = choose|id: Seq<char>| news.contains(id) && r == #[trigger] resolved(id, prefix);
            assert(new.contains_key(id) && r == resolved(id, prefix));
        } else {
            let id = choose|id: Seq<char>| olds.contains(id) && r == #[trigger] resolved(id, prefix);
            assert(old.contains_key(id) && r == resolved(id, prefix));
        }
    }
}

/// Against a cache whose fingerprints were forgotten, every package that is
/// still there is reported as changed, and every package that is gone as
/// removed: provided that no package has the fingerprint that none has.
pub proof fn law_forgotten_packages_are_written_again(
    new: Map<Seq<char>, Seq<u8>>,
    old: Map<Seq<char>, Seq<u8>>,
    prefix: Seq<char>,
)
    requires
        portable(new, prefix),
        portable(old, prefix),
        forall|id: Seq<char>| #[trigger] new.contains_key(id) ==> new[id] != invalid_bytes(),
    ensures
        forall|id: Seq<char>|
            old.contains_key(id) ==> reported(
                differences(new, forgotten(old), prefix),
                #[trigger] resolved(id, prefix),
            ) == Some(
                if new.contains_key(id) {
                    ChangeType::Changed
                } else {
                    ChangeType::Removed
                },
            ),
{
    assert(forgotten(old).dom() =~= old.dom());
    assert forall|id: Seq<char>| #[trigger] forgotten(old).contains_key(id) implies lies_under(
        id,
        WORKSPACE_ID_PLACEHOLDER@,
    ) || canonical(id, prefix) == id by {
        assert(old.contains_key(id));
    }
    law_every_package_gets_its_verdict(new, forgotten(old), prefix);
    assert forall|id: Seq<char>| old.contains_key(id) implies reported(
        differences(new, forgotten(old), prefix),
        #[trigger] resolved(id, prefix),
    ) == Some(
        if new.contains_key(id) {
            ChangeType::Changed
        } else {
            ChangeType::Removed
        },
    ) by {
        assert(forgotten(old).contains_key(id));
        assert(verdict(new, forgotten(old), id) is Some);
    }
}

proof fn lemma_canonical_is_portable(id: Seq<char>, prefix: Seq<char>)
    ensures
        lies_under(canonical(id, prefix), WORKSPACE_ID_PLACEHOLDER@) || canonical(
            canonical(id, prefix),
            prefix,
        ) == canonical(id, prefix),
{
    if lies_under(id, prefix) {
        let to = WORKSPACE_ID_PLACEHOLDER@;
        let rest = id.skip(prefix.len() as int);
        assert((to + rest).subrange(0, to.len() as int) =~= to);
        assert((to + rest).skip(to.len() as int) =~= rest);
    }
}

/// The cache of a run has identifiers that do not depend on where the workspace
/// stands.
pub proof fn law_cache_of_a_run_is_portable(
    nodes: Seq<(PackageId, Fingerprint)>,
    prefix: Seq<char>,
)
    ensures
        portable(listed(nodes, prefix), prefix),
    decreases nodes.len(),
{
    if nodes.len() > 0 {
        law_cache_of_a_run_is_portable(nodes.drop_last(), prefix);
        lemma_canonical_is_portable(nodes.last().0@, prefix);
    }
}

proof fn lemma_rekeyed(
    m: Map<Seq<char>, Seq<u8>>,
    ids: Seq<Seq<char>>,
    prefix: Seq<char>,
)
    ensures
        portable(rekeyed(m, ids, prefix), prefix),
        forall|i: int|
            0 <= i < ids.len() ==> rekeyed(m, ids, prefix).contains_key(
                canonical(#[trigger] ids[i], prefix),
            ),
        forall|k: Seq<char>| #[trigger]
            rekeyed(m, ids, prefix).contains_key(k) ==> exists|i: int|
                0 <= i < ids.len() && k == canonical(#[trigger] ids[i], prefix),
    decreases ids.len(),
{
    if ids.len() > 0 {
        let head = ids.drop_last();
        lemma_rekeyed(m, head, prefix);
        lemma_canonical_is_portable(ids.last(), prefix);
        assert forall|i: int| 0 <= i < ids.len() implies rekeyed(m, ids, prefix).contains_key(
            canonical(#[trigger] ids[i], prefix),
        ) by {
            if i < head.len() {
                assert(head[i] == ids[i]);
            }
        }
        assert forall|k: Seq<char>| #[trigger]
            rekeyed(m, ids, prefix).contains_key(k) implies exists|i: int|
            0 <= i < ids.len() && k == canonical(#[trigger] ids[i], prefix) by {
            if k == canonical(ids.last(), prefix) {
                assert(k == canonical(ids[ids.len() - 1], prefix));
            } else {
                assert(rekeyed(m, head, prefix).contains_key(k));
                let i = choose|i: int|
                    0 <= i < head.len() && k == canonical(#[trigger] head[i], prefix);
                assert(ids[i] == head[i]);
            }
        }
    }
}

/// Giving a cache the identifiers of version 5 keeps its packages: those that
/// stand for them are there and no others, so that a package that is gone still
/// shows.
pub proof fn law_rekeying_keeps_the_packages(m: Map<Seq<char>, Seq<u8>>, prefix: Seq<char>)
    requires
        m.dom().finite(),
    ensures
        ({
            let r = rekeyed(m, sorted::in_order(m.dom()), prefix);
            &&& portable(r, prefix)
            &&& forall|id: Seq<char>|
                m.contains_key(id) ==> r.contains_key(#[trigger] canonical(id, prefix))
            &&& forall|k: Seq<char>| #[trigger]
                r.contains_key(k) ==> exists|id: Seq<char>|
                    m.contains_key(id) && k == #[trigger] canonical(id, prefix)
        }),
{
    let ids = sorted::in_order(m.dom());
    sorted::lemma_in_order_is_order(m.dom());
    lemma_rekeyed(m, ids, prefix);
    let r = rekeyed(m, ids, prefix);
    assert forall|id: Seq<char>| m.contains_key(id) implies r.contains_key(
        #[trigger] canonical(id, prefix),
    ) by {
        assert(ids.to_set().contains(id) == ids.contains(id));
        let i = choose|i: int| 0 <= i < ids.len() && ids[i] == id;
        assert(r.contains_key(canonical(ids[i], prefix)));
    }
    assert forall|k: Seq<char>| #[trigger] r.contains_key(k) implies exists|id: Seq<char>|
        m.contains_key(id) && k == #[trigger] canonical(id, prefix) by {
        let i = choose|i: int| 0 <= i < ids.len() && k == canonical(#[trigger] ids[i], prefix);
        assert(ids.contains(ids[i]));
        assert(ids.to_set().contains(ids[i]));
        assert(m.contains_key(ids[i]));
    }
}

/// The cache of a run holds each package of the list with its own fingerprint,
/// under the identifier that stands for it: where several packages have the same,
/// the last of them counts.
pub proof fn law_cache_holds_each_package(
    nodes: Seq<(PackageId, Fingerprint)>,
    prefix: Seq<char>,
    i: int,
)
    requires
        0 <= i < nodes.len(),
        forall|j: int|
            i < j < nodes.len() ==> canonical((#[trigger] nodes[j]).0@, prefix) != canonical(
                nodes[i].0@,
                prefix,
            ),
    ensures
        listed(nodes, prefix).contains_key(canonical(nodes[i].0@, prefix)),
        listed(nodes, prefix)[canonical(nodes[i].0@, prefix)] == nodes[i].1@,
    decreases nodes.len(),
{
    if i < nodes.len() - 1 {
        let head = nodes.drop_last();
        assert forall|j: int| i < j < head.len() implies canonical((#[trigger] head[j]).0@, prefix)
            != canonical(head[i].0@, prefix) by {
            assert(head[j] == nodes[j]);
        }
        law_cache_holds_each_package(head, prefix, i);
        assert(canonical(nodes[nodes.len() - 1].0@, prefix) != canonical(nodes[i].0@, prefix));
    }
}

/// The cache of a run holds the packages of the list, and nothing else.
pub proof fn law_cache_holds_no_other_package(
    nodes: Seq<(PackageId, Fingerprint)>,
    prefix: Seq<char>,
    key: Seq<char>,
)
    ensures
        listed(nodes, prefix).contains_key(key) <==> exists|i: int|
            0 <= i < nodes.len() && canonical((#[trigger] nodes[i]).0@, prefix) == key,
    decreases nodes.len(),
{
    if nodes.len() > 0 {
        let head = nodes.drop_last();
        law_cache_holds_no_other_package(head, prefix, key);
        if listed(head, prefix).contains_key(key) {
            let i = choose|i: int|
                0 <= i < head.len() && canonical((#[trigger] head[i]).0@, prefix) == key;
            assert(head[i] == nodes[i]);
        }
        if listed(nodes, prefix).contains_key(key) && !listed(head, prefix).contains_key(key) {
            assert(canonical(nodes[nodes.len() - 1].0@, prefix) == key);
        }
        if exists|i: int|
            0 <= i < nodes.len() && canonical((#[trigger] nodes[i]).0@, prefix) == key {
            let i = choose|i: int|
                0 <= i < nodes.len() && canonical((#[trigger] nodes[i]).0@, prefix) == key;
            if i < head.len() {
                assert(head[i] == nodes[i]);
            }
        }
    }
}

/// Whether `rest` goes on below a directory or ends the path to it.
pub open spec fn goes_on(rest: Seq<char>) -> bool {
    rest.len() > 0 && (rest[0] == '/' || rest[0] == '#')
}

/// An identifier below the root of the workspace is written with the placeholder
/// for the root, and read back with the root for the placeholder. What follows
/// stays as it is.
pub proof fn law_root_and_placeholder_change_places(prefix: Seq<char>, rest: Seq<char>)
    requires
        goes_on(rest),
    ensures
        canonical(prefix + rest, prefix) == "path+file://($WORKSPACE)"@ + rest,
        resolved("path+file://($WORKSPACE)"@ + rest, prefix) == prefix + rest,
{
    let to = "path+file://($WORKSPACE)"@;
    assert((prefix + rest).subrange(0, prefix.len() as int) =~= prefix);
    assert((prefix + rest).skip(prefix.len() as int) =~= rest);
    assert((to + rest).subrange(0, to.len() as int) =~= to);
    assert((to + rest).skip(to.len() as int) =~= rest);
}

/// Every identifier that is not below the root of the workspace is written as it
/// is, and every one without the placeholder is read as it is.
pub proof fn law_ids_from_elsewhere_stay(id: Seq<char>, prefix: Seq<char>)
    ensures
        (forall|rest: Seq<char>| id == #[trigger] (prefix + rest) ==> !goes_on(rest)) ==> canonical(
            id,
            prefix,
        ) == id,
        (forall|rest: Seq<char>|
            id == #[trigger] ("path+file://($WORKSPACE)"@ + rest) ==> !goes_on(rest)) ==> resolved(
            id,
            prefix,
        ) == id,
{
    let to = "path+file://($WORKSPACE)"@;
    if lies_under(id, prefix) {
        assert(id =~= prefix + id.skip(prefix.len() as int));
    }
    if lies_under(id, to) {
        assert(id =~= to + id.skip(to.len() as int));
    }
}

/// Against the run before it, a run reports a package that only the new one saw
/// as added, one that only the old one saw as removed, and one that both saw with
/// different fingerprints as changed. One that both saw with the same fingerprint
/// is not reported.
pub proof fn law_changes_are_told_apart(
    new: Map<Seq<char>, Seq<u8>>,
    old: Map<Seq<char>, Seq<u8>>,
    prefix: Seq<char>,
    id: Seq<char>,
)
    requires
        portable(new, prefix),
        portable(old, prefix),
        new.contains_key(id) || old.contains_key(id),
    ensures
        ({
            let changes = differences(new, old, prefix);
            let at = resolved(id, prefix);
            let both = new.contains_key(id) && old.contains_key(id);
            &&& changes.contains_key(at) <==> !(both && new[id] == old[id])
            &&& !old.contains_key(id) ==> changes[at] == ChangeType::Added
            &&& !new.contains_key(id) ==> changes[at] == ChangeType::Removed
            &&& both && new[id] != old[id] ==> changes[at] == ChangeType::Changed
        }),
{
    law_every_package_gets_its_verdict(new, old, prefix);
    assert(reported(differences(new, old, prefix), resolved(id, prefix)) == verdict(new, old, id));
}

/// Two runs over lists of packages: a package of the new list whose identifier
/// stands for no other is reported as added where the old list does not have it,
/// as changed where the old list has it with another fingerprint, and not at all
/// where it has it with the same one.
pub proof fn law_runs_are_compared_by_fingerprint(
    new: Seq<(PackageId, Fingerprint)>,
    old: Seq<(PackageId, Fingerprint)>,
    prefix: Seq<char>,
    i: int,
)
    requires
        0 <= i < new.len(),
        forall|j: int|
            0 <= j < new.len() && j != i ==> canonical((#[trigger] new[j]).0@, prefix) != canonical(
                new[i].0@,
                prefix,
            ),
    ensures
        ({
            let key = canonical(new[i].0@, prefix);
            let at = resolved(key, prefix);
            let changes = differences(listed(new, prefix), listed(old, prefix), prefix);
            &&& (forall|k: int|
                0 <= k < old.len() ==> canonical((#[trigger] old[k]).0@, prefix) != key) ==> (
            changes.contains_key(at) && changes[at] == ChangeType::Added)
            &&& forall|k: int|
                0 <= k < old.len() && canonical((#[trigger] old[k]).0@, prefix) == key && (
                forall|j: int|
                    k < j < old.len() ==> canonical((#[trigger] old[j]).0@, prefix) != key) ==> {
                    &&& changes.contains_key(at) <==> new[i].1@ != old[k].1@
                    &&& new[i].1@ != old[k].1@ ==> changes[at] == ChangeType::Changed
                }
        }),
{
    law_cache_holds_each_package(new, prefix, i);
    law_cache_of_a_run_is_portable(new, prefix);
    law_cache_of_a_run_is_portable(old, prefix);
    let key = canonical(new[i].0@, prefix);
    law_cache_holds_no_other_package(old, prefix, key);
    assert forall|k: int|
        0 <= k < old.len() && canonical((#[trigger] old[k]).0@, prefix) == key && (forall|j: int|
            k < j < old.len() ==> canonical((#[trigger] old[j]).0@, prefix) != key) implies listed(
        old,
        prefix,
    ).contains_key(key) && listed(old, prefix)[key] == old[k].1@ by {
        law_cache_holds_each_package(old, prefix, k);
    }
    law_changes_are_told_apart(listed(new, prefix), listed(old, prefix), prefix, key);
}

/// A package of the old list that the new list does not have is reported as
/// removed.
pub proof fn law_runs_miss_what_is_gone(
    new: Seq<(PackageId, Fingerprint)>,
    old: Seq<(PackageId, Fingerprint)>,
    prefix: Seq<char>,
    k: int,
)
    requires
        0 <= k < old.len(),
        forall|j: int|
            0 <= j < new.len() ==> canonical((#[trigger] new[j]).0@, prefix) != canonical(
                old[k].0@,
                prefix,
            ),
    ensures
        ({
            let at = resolved(canonical(old[k].0@, prefix), prefix);
            let changes = differences(listed(new, prefix), listed(old, prefix), prefix);
            changes.contains_key(at) && changes[at] == ChangeType::Removed
        }),
{
    law_cache_of_a_run_is_portable(new, prefix);
    law_cache_of_a_run_is_portable(old, prefix);
    let key = canonical(old[k].0@, prefix);
    law_cache_holds_no_other_package(new, prefix, key);
    law_cache_holds_no_other_package(old, prefix, key);
    law_changes_are_told_apart(listed(new, prefix), listed(old, prefix), prefix, key);
}

/// Forgetting the fingerprints keeps every package, each with thirty-two zeros.
pub proof fn law_forgetting_keeps_the_packages(m: Map<Seq<char>, Seq<u8>>)
    ensures
        forgotten(m).dom() == m.dom(),
        forall|id: Seq<char>| #[trigger]
            m.contains_key(id) ==> forgotten(m)[id].len() == 32 && forall|i: int|
                0 <= i < 32 ==> #[trigger] forgotten(m)[id][i] == 0,
{
    assert(forgotten(m).dom() =~= m.dom());
}

/// Giving a cache the identifiers of version 5 keeps its fingerprints: those of
/// every package whose new identifier stands for no other.
pub proof fn law_rekeying_keeps_the_fingerprints(
    m: Map<Seq<char>, Seq<u8>>,
    prefix: Seq<char>,
    id: Seq<char>,
)
    requires
        m.dom().finite(),
        m.contains_key(id),
        forall|other: Seq<char>|
            m.contains_key(other) && other != id ==> #[trigger] canonical(other, prefix)
                != canonical(id, prefix),
    ensures
        rekeyed(m, sorted::in_order(m.dom()), prefix)[canonical(id, prefix)] == m[id],
{
    let ids = sorted::in_order(m.dom());
    sorted::lemma_in_order_is_order(m.dom());
    assert(ids.to_set().contains(id) == ids.contains(id));
    assert forall|i: int| 0 <= i < ids.len() implies m.contains_key(#[trigger] ids[i]) by {
        assert(ids.contains(ids[i]));
        assert(ids.to_set().contains(ids[i]));
    }
    lemma_rekeyed_value(m, ids, prefix, id);
}

proof fn lemma_rekeyed_value(
    m: Map<Seq<char>, Seq<u8>>,
    ids: Seq<Seq<char>>,
    prefix: Seq<char>,
    id: Seq<char>,
)
    requires
        ids.contains(id),
        forall|i: int| 0 <= i < ids.len() ==> m.contains_key(#[trigger] ids[i]),
        forall|other: Seq<char>|
            m.contains_key(other) && other != id ==> #[trigger] canonical(other, prefix)
                != canonical(id, prefix),
    ensures
        rekeyed(m, ids, prefix)[canonical(id, prefix)] == m[id],
    decreases ids.len(),
{
    let head = ids.drop_last();
    lemma_contains_last(ids, id);
    if ids.last() != id {
        assert(m.contains_key(ids[ids.len() - 1]));
        assert forall|i: int| 0 <= i < head.len() implies m.contains_key(#[trigger] head[i]) by {
            assert(head[i] == ids[i]);
        }
        lemma_rekeyed_value(m, head, prefix, id);
    }
}

/// The hexadecimal text of bytes has two digits for each byte, the higher one
/// first, with letters in lower case.
pub proof fn law_hex_text_has_two_digits_for_each_byte(bytes: Seq<u8>, i: int)
    requires
        0 <= i < bytes.len(),
    ensures
        hex_text(bytes).len() == 2 * bytes.len(),
        hex_text(bytes)[2 * i] == "0123456789abcdef"@[bytes[i] as int / 16],
        hex_text(bytes)[2 * i + 1] == "0123456789abcdef"@[bytes[i] as int % 16],
{
    reveal_strlit("0123456789abcdef");
    assert((2 * i) % 2 == 0 && (2 * i) / 2 == i && (2 * i + 1) % 2 == 1 && (2 * i + 1) / 2 == i);
    let h = bytes[i] as int / 16;
    let l = bytes[i] as int % 16;
    assert(0 <= h < 16 && 0 <= l < 16);
    assert(hex_digit(h) == "0123456789abcdef"@[h]);
    assert(hex_digit(l) == "0123456789abcdef"@[l]);
}

/// The messages for a cache of another version tell the version that was found and
/// the current one.
pub proof fn law_messages_tell_both_versions(found: u32)
    ensures
        newer_message(found) == "Cache was written by a newer version of Buckal (found v"@
            + text::decimal(found as nat) + ", expected v"@ + text::decimal(6)
            + "). Please upgrade Buckal."@,
        stale_message(found) == "Cache version is stale (found "@ + text::decimal(found as nat)
            + ", expected "@ + text::decimal(6) + ")"@,
        unmigratable_message(found) == "Cache version is stale and not migratable (found "@
            + text::decimal(found as nat) + ", expected "@ + text::decimal(6) + ")"@,
{
}

/// The fingerprint that no package has is thirty-two zero bytes.
pub proof fn law_invalid_fingerprint(i: int)
    ensures
        invalid_bytes().len() == 32,
        0 <= i < 32 ==> invalid_bytes()[i] == 0,
{
}

/// A cache of the current version is used as it is. One of the two versions before it
/// keeps its packages and none of its fingerprints: under the same identifiers, or
/// under those that stand for them wherever the workspace is. No other cache is used.
pub proof fn law_which_caches_are_used(
    version: u32,
    m: Map<Seq<char>, Seq<u8>>,
    prefix: Seq<char>,
    id: Seq<char>,
)
    requires
        m.dom().finite(),
    ensures
        brought_up(version, m, prefix) is Some <==> 4 <= version <= 6,
        version == 6 ==> brought_up(version, m, prefix) == Some(m),
        version == 5 ==> (brought_up(version, m, prefix)->0.contains_key(id) <==> m.contains_key(
            id,
        )),
        version == 4 && m.contains_key(id) ==> brought_up(version, m, prefix)->0.contains_key(
            canonical(id, prefix),
        ),
        (version == 4 || version == 5) && brought_up(version, m, prefix)->0.contains_key(id)
            ==> forall|k: int|
            0 <= k < 32 ==> #[trigger] brought_up(version, m, prefix)->0[id][k] == 0,
{
    if version == 4 && m.contains_key(id) {
        law_rekeying_keeps_the_packages(m, prefix);
    }
}

} // verus!
