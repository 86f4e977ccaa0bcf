//! The resolved dependency graph, as plain values.
//!
//! A package of the graph is a [`BuckalNode`], an edge a [`BuckalDep`]. What
//! only a running `rustc` or the project's directory can tell (which platforms
//! a Cargo `cfg` predicate covers, where a package is vendored) is part of the
//! values.

use vstd::prelude::*;


verus! {

/// The identifier that Cargo gives a package of the graph.
#[derive(Debug)]
pub struct PackageId {
    /// The identifier as `cargo metadata` prints it.
    pub repr: String,
}

impl View for PackageId {
    type V = Seq<char>;

    open spec fn view(&self) -> Seq<char> {
        self.repr@
    }
}

impl PackageId {
    /// A copy of the identifier.
    pub fn copy(&self) -> (r: PackageId)
        ensures
            r@ == self@,
    {
        PackageId { repr: self.repr.clone() }
    }
}

/// The kind of a Cargo target.
#[derive(Debug, Clone, Copy, PartialEq, Eq, Structural)]
pub enum TargetKind {
    Bench,
    Bin,
    CustomBuild,
    CDyLib,
    DyLib,
    Example,
    Lib,
    ProcMacro,
    RLib,
    StaticLib,
    Test,
}

/// The table of a manifest that a dependency stands in.
#[derive(Debug, Clone, Copy, PartialEq, Eq, Structural)]
pub enum DependencyKind {
    Normal,
    Development,
    Build,
}

/// The kind of Cargo target that a Buck2 rule is generated for.
#[derive(Debug, Clone, Copy, PartialEq, Eq, Structural)]
pub enum CargoTargetKind {
    Lib,
    Bin,
    CustomBuild,
    Test,
}

/// An operating system that rules can be keyed by.
#[derive(Debug, Clone, Copy, PartialEq, Eq, Structural)]
pub enum Os {
    Windows,
    Macos,
    Linux,
}

/// A CPU that rules can be keyed by.
#[derive(Debug, Clone, Copy, PartialEq, Eq, Structural)]
pub enum Arch {
    X86_64,
    Arm64,
}

/// A pair of an operating system and a CPU.
#[derive(Debug, Clone, Copy, PartialEq, Eq, Structural)]
pub struct TargetPlatform {
    pub os: Os,
    pub arch: Arch,
}

/// A Cargo platform predicate, evaluated against the supported platforms.
#[derive(Debug)]
pub struct PlatformPredicate {
    /// The supported platforms that the predicate covers.
    pub platforms: Vec<TargetPlatform>,
    /// Whether the predicate names nothing but targets.
    pub target_only: bool,
}

/// One use of a dependency: the table it stands in and its predicate, if any.
#[derive(Debug)]
pub struct BuckalDepKind {
    pub kind: DependencyKind,
    pub target: Option<PlatformPredicate>,
}

/// An edge of the graph.
#[derive(Debug)]
pub struct BuckalDep {
    /// The name under which the dependent crate sees the dependency.
    pub name: String,
    pub dep_kinds: Vec<BuckalDepKind>,
}

/// A Cargo target of a package.
#[derive(Debug)]
pub struct BuckalTarget {
    pub name: String,
    pub kind: Vec<TargetKind>,
    /// Cargo's per-target `test` flag.
    pub test: bool,
}

/// Where a package comes from.
#[derive(Debug)]
pub enum NodeKind {
    FirstParty { relative_path: String },
    ThirdParty,
}

/// A package of the graph.
#[derive(Debug)]
pub struct BuckalNode {
    pub package_id: PackageId,
    pub name: String,
    pub version: String,
    pub kind: NodeKind,
    pub manifest_path: String,
    pub targets: Vec<BuckalTarget>,
    /// The directory that the package is vendored in, relative to the project
    /// root. A first-party package has none.
    pub vendor_path: Option<String>,
}

/// Whether a target of this kind is a library.
pub open spec fn lib_like(kind: TargetKind) -> bool {
    ||| kind == TargetKind::Lib
    ||| kind == TargetKind::RLib
    ||| kind == TargetKind::DyLib
    ||| kind == TargetKind::CDyLib
    ||| kind == TargetKind::StaticLib
    ||| kind == TargetKind::ProcMacro
}

/// Whether a target of this kind is a library.
pub fn is_lib_like(kind: TargetKind) -> (r: bool)
    ensures
        r == lib_like(kind),
{
    match kind {
        TargetKind::Lib
        | TargetKind::RLib
        | TargetKind::DyLib
        | TargetKind::CDyLib
        | TargetKind::StaticLib
        | TargetKind::ProcMacro => true,
        _ => false,
    }
}

impl BuckalTarget {
    /// Whether `kind` is one of the target's kinds.
    pub open spec fn is_of(&self, kind: TargetKind) -> bool {
        self.kind@.contains(kind)
    }

    /// Whether one of the target's kinds is a library.
    pub open spec fn is_lib(&self) -> bool {
        exists|i: int| 0 <= i < self.kind@.len() && #[trigger] lib_like(self.kind@[i])
    }

    /// Whether `kind` is one of the target's kinds.
    pub fn has_kind(&self, kind: TargetKind) -> (r: bool)
        ensures
            r == self.is_of(kind),
    {
        let mut i: usize = 0;
        while i < self.kind.len()
            invariant
                i <= self.kind@.len(),
                forall|j: int| 0 <= j < i ==> self.kind@[j] != kind,
            decreases self.kind@.len() - i,
        {
            if self.kind[i] == kind {
                return true;
            }
            i = i + 1;
        }
        false
    }

    /// Whether one of the target's kinds is a library.
    pub fn is_library(&self) -> (r: bool)
        ensures
            r == self.is_lib(),
    {
        let mut i: usize = 0;
        while i < self.kind.len()
            invariant
                i <= self.kind@.len(),
                forall|j: int| 0 <= j < i ==> !lib_like(#[trigger] self.kind@[j]),
            decreases self.kind@.len() - i,
        {
            if is_lib_like(self.kind[i]) {
                return true;
            }
            i = i + 1;
        }
        false
    }
}

impl Os {
    /// The name of the operating system in a platform key.
    pub open spec fn key_text(self) -> Seq<char> {
        match self {
            Os::Windows => "windows"@,
            Os::Macos => "macos"@,
            Os::Linux => "linux"@,
        }
    }

    /// The name of the operating system in a platform key.
    pub fn key(self) -> (r: &'static str)
        ensures
            r@ == self.key_text(),
    {
        match self {
            Os::Windows => "windows",
            Os::Macos => "macos",
            Os::Linux => "linux",
        }
    }
}

impl Arch {
    /// The name of the CPU in a platform key.
    pub open spec fn key_text(self) -> Seq<char> {
        match self {
            Arch::X86_64 => "x86_64"@,
            Arch::Arm64 => "arm64"@,
        }
    }

    /// The name of the CPU in a platform key.
    pub fn key(self) -> (r: &'static str)
        ensures
            r@ == self.key_text(),
    {
        match self {
            Arch::X86_64 => "x86_64",
            Arch::Arm64 => "arm64",
        }
    }
}

impl TargetPlatform {
    /// The key of the pair: both names, with a hyphen between them.
    pub open spec fn key_text(self) -> Seq<char> {
        self.os.key_text() + "-"@ + self.arch.key_text()
    }

    /// The key of the pair: both names, with a hyphen between them.
    pub fn key(self) -> (r: String)
        ensures
            r@ == self.key_text(),
    {
        let mut out = self.os.key().to_owned();
        out.append("-");
        out.append(self.arch.key());
        out
    }
}

impl BuckalNode {
    /// Whether the package is vendored.
    pub open spec fn third_party(&self) -> bool {
        self.kind is ThirdParty
    }
}

} // verus!
