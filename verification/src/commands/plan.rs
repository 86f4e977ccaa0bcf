//! What the subcommands have in common: what they ask of Buck2, and on which
//! platform.

use vstd::prelude::*;

use crate::error::Error;
use crate::paths;
use crate::text::{chars_of, find};
use crate::text;

verus! {

/// Why a subcommand stops, and what the user may do about it.
#[derive(Debug)]
pub struct CommandError {
    pub error: String,
    pub note: Option<String>,
}

/// The model of a [`CommandError`].
pub ghost struct FailureModel {
    pub error: Seq<char>,
    pub note: Option<Seq<char>>,
}

impl View for CommandError {
    type V = FailureModel;

    open spec fn view(&self) -> FailureModel {
        FailureModel { error: self.error@, note: text::view_opt(self.note) }
    }
}

/// What Buck2 is asked to do.
#[derive(Debug, Clone, Copy, PartialEq, Eq, Structural)]
pub enum Buck2Verb {
    Build,
    Run,
    Test,
}

/// A run of Buck2.
#[derive(Debug)]
pub struct Buck2Plan {
    pub verb: Buck2Verb,
    pub verbosity: u8,
    /// The arguments, in order.
    pub args: Vec<String>,
}

/// A target of the packages in question, and whether the filter lets it pass.
#[derive(Debug)]
pub struct FilteredTarget {
    pub name: String,
    pub label: String,
    pub selected: bool,
}

/// Adds an argument.
pub fn push_arg(args: &mut Vec<String>, arg: &str)
    ensures
        text::views(final(args)@) == text::views(old(args)@).push(arg@),
{
    let ghost before = text::views(args@);
    args.push(arg.to_owned());
    proof {
        assert(text::views(args@) =~= before.push(arg@));
    }
}

/// Adds arguments.
pub fn push_args(args: &mut Vec<String>, more: &Vec<String>)
    ensures
        text::views(final(args)@) == text::views(old(args)@) + text::views(more@),
{
    let ghost before = text::views(args@);
    let ghost all = text::views(more@);
    let mut i: usize = 0;
    proof {
        assert(before + all.take(0) =~= before);
    }
    while i < more.len()
        invariant
            i <= more@.len(),
            all == text::views(more@),
            text::views(args@) == before + all.take(i as int),
        decreases more@.len() - i,
    {
        push_arg(args, more[i].as_str());
        proof {
            assert(before + all.take(i + 1) =~= (before + all.take(i as int)).push(all[i as int]));
        }
        i = i + 1;
    }
    proof {
        assert(all.take(i as int) =~= all);
    }
}

/// Fails where more is to be printed than there is.
pub fn check_verbosity(verbose: u8) -> (r: Result<(), CommandError>)
    ensures
        r is Ok <==> verbose <= 2,
        r matches Err(e) ==> e@ == (FailureModel { error: "maximum verbosity"@, note: None }),
{
    if verbose > 2 {
        Err(CommandError { error: "maximum verbosity".to_owned(), note: None })
    } else {
        Ok(())
    }
}

/// The directory that a subcommand was given in, relative to the project root, if
/// `stripped` is what follows the root in it. `what` names the subcommand.
pub open spec fn directory_given(stripped: Option<Seq<char>>, what: Seq<char>) -> Result<
    Seq<char>,
    Seq<Seq<char>>,
> {
    match paths::forwarded(stripped) {
        Some(relative) => Ok(relative),
        None => Err(seq![what + " command should invoke inside a Buck2 project"@]),
    }
}

/// The directory that a subcommand was given in, relative to the project root,
/// with forward slashes, if `stripped` is what follows the root in it. `what`
/// names the subcommand.
pub fn relative_directory_given(stripped: Option<String>, what: &str) -> (r: Result<String, Error>)
    ensures
        directory_given(text::view_opt(stripped), what@) == match r {
            Ok(relative) => Ok::<Seq<char>, Seq<Seq<char>>>(relative@),
            Err(e) => Err(e@),
        },
{
    match paths::forward(stripped) {
        Some(relative) => Ok(relative),
        None => {
            let mut message = what.to_owned();
            message.append(" command should invoke inside a Buck2 project");
            Err(Error::new(message))
        },
    }
}

/// The directory that a subcommand was given in, relative to the project root,
/// with forward slashes. `what` names the subcommand.
pub fn relative_directory(cwd: &str, buck2_root: &str, what: &str) -> (r: Result<String, Error>)
    ensures
        paths::below_found(
            cwd@,
            buck2_root@,
            match r {
                Ok(relative) => Some(relative@),
                Err(_) => None,
            },
        ),
        r matches Err(e) ==> e@ == seq![what@ + " command should invoke inside a Buck2 project"@],
{
    let stripped = paths::strip_base(cwd, buck2_root);
    proof {
        paths::lemma_forwarded(cwd@, buck2_root@, text::view_opt(stripped));
    }
    relative_directory_given(stripped, what)
}

/// The platform of the host.
pub fn host_platform(host: &str) -> (r: String)
    ensures
        r@ == "//platforms:"@ + host@,
{
    let mut out = "//platforms:".to_owned();
    out.append(host);
    out
}

/// The platform to build for: that of the target triple, which may not be a valid
/// one; or else the platform that is named; or else that of the host, where the
/// project has it.
pub open spec fn platform_chosen(
    triple: Option<Result<Seq<char>, Seq<char>>>,
    named: Option<Seq<char>>,
    host: Seq<char>,
    host_exists: bool,
) -> Result<Option<Seq<char>>, FailureModel> {
    match triple {
        Some(Ok(platform)) => Ok(Some(platform)),
        Some(Err(reason)) => Err(FailureModel { error: reason, note: None }),
        None => match named {
            Some(platform) => Ok(Some(platform)),
            None => if host_exists {
                Ok(Some("//platforms:"@ + host))
            } else {
                Ok(None)
            },
        },
    }
}

/// What came of validating a target triple.
pub open spec fn validated(triple: Option<Result<String, String>>) -> Option<
    Result<Seq<char>, Seq<char>>,
> {
    match triple {
        Some(Ok(platform)) => Some(Ok(platform@)),
        Some(Err(reason)) => Some(Err(reason@)),
        None => None,
    }
}

/// The platform to build for. `triple` is what came of validating the target
/// triple, if one is given: the platform that belongs to it, or a reason.
pub fn choose_platform(
    triple: Option<Result<String, String>>,
    named: Option<&str>,
    host: &str,
    host_exists: bool,
) -> (r: Result<Option<String>, CommandError>)
    ensures
        platform_chosen(validated(triple), text::view_opt_str(named), host@, host_exists)
            == match r {
            Ok(platform) => Ok::<Option<Seq<char>>, FailureModel>(text::view_opt(platform)),
            Err(e) => Err(e@),
        },
{
    match triple {
        Some(Ok(platform)) => Ok(Some(platform)),
        Some(Err(reason)) => Err(CommandError { error: reason, note: None }),
        None => match named {
            Some(platform) => Ok(Some(platform.to_owned())),
            None => if host_exists {
                Ok(Some(host_platform(host)))
            } else {
                Ok(None)
            },
        },
    }
}

/// The arguments for a platform.
pub open spec fn platform_args(platform: Option<Seq<char>>) -> Seq<Seq<char>> {
    match platform {
        Some(p) => seq!["--target-platforms"@, p],
        None => Seq::empty(),
    }
}

/// Adds the arguments for a platform.
pub fn push_platform(args: &mut Vec<String>, platform: Option<&str>)
    ensures
        text::views(final(args)@) == text::views(old(args)@) + platform_args(
            text::view_opt_str(platform),
        ),
{
    let ghost before = text::views(args@);
    if let Some(p) = platform {
        push_arg(args, "--target-platforms");
        push_arg(args, p);
        proof {
            assert(text::views(args@) =~= before + seq!["--target-platforms"@, p@]);
        }
    } else {
        proof {
            assert(before + Seq::<Seq<char>>::empty() =~= before);
        }
    }
}

/// The arguments for a release build.
pub open spec fn release_args(release: bool) -> Seq<Seq<char>> {
    if release {
        seq!["-m"@, "release"@]
    } else {
        Seq::empty()
    }
}

/// Adds the arguments for a release build.
pub fn push_release(args: &mut Vec<String>, release: bool)
    ensures
        text::views(final(args)@) == text::views(old(args)@) + release_args(release),
{
    let ghost before = text::views(args@);
    if release {
        push_arg(args, "-m");
        push_arg(args, "release");
        proof {
            assert(text::views(args@) =~= before + seq!["-m"@, "release"@]);
        }
    } else {
        proof {
            assert(before + Seq::<Seq<char>>::empty() =~= before);
        }
    }
}

/// The arguments that are handed on, behind `--`.
pub open spec fn passed_args(args: Seq<Seq<char>>) -> Seq<Seq<char>> {
    if args.len() == 0 {
        Seq::empty()
    } else {
        seq!["--"@] + args
    }
}

/// Adds the arguments that are handed on.
pub fn push_passed(args: &mut Vec<String>, passed: &Vec<String>)
    ensures
        text::views(final(args)@) == text::views(old(args)@) + passed_args(text::views(passed@)),
{
    let ghost before = text::views(args@);
    proof {
        assert(text::views(passed@).len() == passed@.len());
    }
    if passed.len() > 0 {
        push_arg(args, "--");
        push_args(args, passed);
        proof {
            assert(text::views(args@) =~= before + (seq!["--"@] + text::views(passed@)));
        }
    } else {
        proof {
            assert(before + Seq::<Seq<char>>::empty() =~= before);
        }
    }
}

/// Whether `s` contains `part`.
pub fn contains_part(s: &str, part: &str) -> (r: bool)
    ensures
        r == (text::first_at(s@, part@) is Some),
{
    let chars = chars_of(s);
    let pattern = chars_of(part);
    find(&chars, &pattern).is_some()
}

/// A target triple decides which platform is built for, if one is given; then the
/// platform that is named; then that of the host, if the project has it. A triple
/// that is not valid is an error whatever else is given.
pub proof fn law_platform_is_chosen(
    platform: Seq<char>,
    reason: Seq<char>,
    other: Option<Seq<char>>,
    host: Seq<char>,
    host_exists: bool,
)
    ensures
        platform_chosen(Some(Ok(platform)), other, host, host_exists) == Ok::<
            Option<Seq<char>>,
            FailureModel,
        >(Some(platform)),
        platform_chosen(Some(Err(reason)), other, host, host_exists) matches Err(e) && e.error
            == reason,
        platform_chosen(None, Some(platform), host, host_exists) == Ok::<
            Option<Seq<char>>,
            FailureModel,
        >(Some(platform)),
        platform_chosen(None, None, host, true) == Ok::<Option<Seq<char>>, FailureModel>(
            Some("//platforms:"@ + host),
        ),
        platform_chosen(None, None, host, false) == Ok::<Option<Seq<char>>, FailureModel>(None),
{
}

/// The arguments for Buck2: the platform behind its option, the mode of a release
/// build, and what is handed on behind two hyphens; each only where there is one.
pub proof fn law_buck2_arguments(platform: Seq<char>, args: Seq<Seq<char>>)
    ensures
        platform_args(Some(platform)) == seq!["--target-platforms"@, platform],
        platform_args(None).len() == 0,
        release_args(true) == seq!["-m"@, "release"@],
        release_args(false).len() == 0,
        args.len() > 0 ==> passed_args(args).len() == args.len() + 1 && passed_args(args)[0]
            == "--"@ && passed_args(args).skip(1) == args,
        args.len() == 0 ==> passed_args(args).len() == 0,
{
    assert(passed_args(args).skip(1) =~= args || args.len() == 0);
}

/// Outside the project root a subcommand is refused, by its name; inside it runs in
/// the directory that follows the root, with forward slashes.
pub proof fn law_directory_given(stripped: Seq<char>, what: Seq<char>, i: int)
    ensures
        directory_given(None, what) == Err::<Seq<char>, Seq<Seq<char>>>(
            seq![what + " command should invoke inside a Buck2 project"@],
        ),
        directory_given(Some(stripped), what) matches Ok(relative) && relative.len()
            == stripped.len() && (0 <= i < stripped.len() ==> relative[i] == if stripped[i] == '\\' {
            '/'
        } else {
            stripped[i]
        }),
{
}

} // verus!
