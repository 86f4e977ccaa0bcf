//! The configuration of the user and that of a repository.

use vstd::prelude::*;

use crate::paths;
use crate::sorted::{StringMap, StringSet};
use crate::text::same_text;
use crate::text;

verus! {

/// The user's configuration.
#[derive(Debug)]
pub struct Config {
    /// The program that is run for Buck2.
    pub buck2_binary: String,
    pub registry: RegistryDefault,
    /// The registries, by name.
    pub registries: StringMap<RegistryEntry>,
}

/// Which registry is used where none is named.
#[derive(Debug)]
pub struct RegistryDefault {
    pub default: Option<String>,
}

/// A registry.
#[derive(Debug)]
pub struct RegistryEntry {
    pub base: String,
    pub api: String,
    pub token: Option<String>,
}

impl Default for RegistryDefault {
    fn default() -> (r: RegistryDefault)
        ensures
            r.default is None,
    {
        RegistryDefault { default: None }
    }
}

impl Default for RegistryEntry {
    fn default() -> (r: RegistryEntry)
        ensures
            r.base@.len() == 0,
            r.api@.len() == 0,
            r.token is None,
    {
        RegistryEntry { base: String::new(), api: String::new(), token: None }
    }
}

impl RegistryDefault {
    /// Whether there is nothing to write down.
    pub fn if_skip(&self) -> (r: bool)
        ensures
            r == (self.default is None),
    {
        self.default.is_none()
    }
}

/// Whether this is the program that is run where none is configured.
pub fn is_default_buck2_binary(value: &str) -> (r: bool)
    ensures
        r == (value@ == "buck2"@),
{
    same_text(value, "buck2")
}

/// The program that is run where none is configured.
pub fn default_buck2_binary() -> (r: String)
    ensures
        r@ == "buck2"@,
{
    "buck2".to_owned()
}

/// Whether these are the registries that there are where none is configured.
pub open spec fn builtin_registries(registries: Map<Seq<char>, RegistryEntry>) -> bool {
    &&& registries.dom() == set!["buck2hub"@]
    &&& registries["buck2hub"@].base@ == "https://app.buck2hub.com"@
    &&& registries["buck2hub"@].api@ == "https://git.buck2hub.com"@
    &&& registries["buck2hub"@].token is None
}

/// The registries that there are where none is configured.
pub fn default_registries() -> (r: StringMap<RegistryEntry>)
    ensures
        builtin_registries(r@),
{
    let mut registries: StringMap<RegistryEntry> = StringMap::new();
    registries.insert(
        "buck2hub".to_owned(),
        RegistryEntry {
            base: "https://app.buck2hub.com".to_owned(),
            api: "https://git.buck2hub.com".to_owned(),
            token: None,
        },
    );
    proof {
        assert(registries@.dom() =~= set!["buck2hub"@]);
    }
    registries
}

/// Whether this is the configuration of a user who has none.
pub open spec fn is_default_config(config: Config) -> bool {
    &&& config.buck2_binary@ == "buck2"@
    &&& config.registry.default is None
    &&& builtin_registries(config.registries@)
}

impl Default for Config {
    fn default() -> (r: Config)
        ensures
            is_default_config(r),
    {
        Config {
            buck2_binary: default_buck2_binary(),
            registry: RegistryDefault::default(),
            registries: default_registries(),
        }
    }
}

/// What was found where the user's configuration should be.
#[derive(Debug)]
pub enum ConfigFile {
    Absent,
    Unreadable,
    Unparsed,
    Parsed(Config),
}

/// The warning for what was found at `path`, if the user's configuration could not be
/// used.
pub open spec fn config_warning(file: ConfigFile, path: Seq<char>) -> Option<Seq<char>> {
    match file {
        ConfigFile::Unreadable => Some(
            "Warning: Failed to read config file at "@ + path + ", using defaults"@,
        ),
        ConfigFile::Unparsed => Some(
            "Warning: Failed to parse config file at "@ + path + ", using defaults"@,
        ),
        _ => None,
    }
}

/// Whether `config` is what is used for what was found.
pub open spec fn is_config_used(file: ConfigFile, config: Config) -> bool {
    match file {
        ConfigFile::Parsed(parsed) => config == parsed,
        _ => is_default_config(config),
    }
}

/// Whether `path` is that of the user's configuration below the directory `home`.
/// Which separators stand between the names depends on the platform.
pub open spec fn config_path_below(path: Seq<char>, home: Seq<char>) -> bool {
    exists|a: Seq<char>, b: Seq<char>|
        {
            &&& #[trigger] paths::is_joined(a, home, ".config"@)
            &&& #[trigger] paths::is_joined(b, a, "buckal"@)
            &&& paths::is_joined(path, b, "config.toml"@)
        }
}

impl Config {
    /// The user's configuration, from what was found at `path`, and a warning
    /// where it could not be used. The defaults then take its place.
    pub fn load(file: ConfigFile, path: &str) -> (r: (Config, Option<String>))
        ensures
            is_config_used(file, r.0),
            text::view_opt(r.1) == config_warning(file, path@),
            match file {
                ConfigFile::Absent => is_default_config(r.0) && r.1 is None,
                ConfigFile::Unreadable => is_default_config(r.0) && text::view_opt(r.1) == Some(
                    "Warning: Failed to read config file at "@ + path@ + ", using defaults"@,
                ),
                ConfigFile::Unparsed => is_default_config(r.0) && text::view_opt(r.1) == Some(
                    "Warning: Failed to parse config file at "@ + path@ + ", using defaults"@,
                ),
                ConfigFile::Parsed(config) => r.0 == config && r.1 is None,
            },
    {
        match file {
            ConfigFile::Absent => (Config::default(), None),
            ConfigFile::Unreadable => {
                let mut warning = "Warning: Failed to read config file at ".to_owned();
                warning.append(path);
                warning.append(", using defaults");
                (Config::default(), Some(warning))
            },
            ConfigFile::Unparsed => {
                let mut warning = "Warning: Failed to parse config file at ".to_owned();
                warning.append(path);
                warning.append(", using defaults");
                (Config::default(), Some(warning))
            },
            ConfigFile::Parsed(config) => (config, None),
        }
    }

    /// The path of the user's configuration, below the user's home directory, or
    /// below the current one where there is none.
    pub fn config_path(home: Option<&str>) -> (r: String)
        ensures
            ({
                let base = match home {
                    Some(h) => h@,
                    None => "."@,
                };
                !paths::starts_verbatim(base) ==> config_path_below(r@, base)
            }),
    {
        let home = match home {
            Some(home) => home,
            None => ".",
        };
        proof {
            lemma_plain_names();
            reveal_strlit(".config");
        }
        let a = paths::join(home, ".config");
        let b = paths::join(a.as_str(), "buckal");
        paths::join(b.as_str(), "config.toml")
    }

    /// The registry that is used where none is named.
    pub fn default_registry(&self) -> (r: &str)
        ensures
            r@ == match self.registry.default {
                Some(name) => name@,
                None => "buck2hub"@,
            },
    {
        match &self.registry.default {
            Some(name) => name.as_str(),
            None => "buck2hub",
        }
    }
}

proof fn lemma_plain_names()
    ensures
        paths::file_name(".config"@),
        paths::file_name("buckal"@),
        paths::file_name("config.toml"@),
        paths::file_name("buckal.toml"@),
{
    reveal_strlit(".");
    reveal_strlit(".config");
    reveal_strlit("buckal");
    reveal_strlit("config.toml");
    reveal_strlit("buckal.toml");
}

/// The configuration of a repository.
#[derive(Debug)]
pub struct RepoConfig {
    /// Whether no test rules are generated.
    pub ignore_tests: bool,
    /// The fields of existing rules that are kept.
    pub patch_fields: StringSet,
    pub patch: RepoPatchConfig,
}

/// The patches of a repository.
#[derive(Debug)]
pub struct RepoPatchConfig {
    /// From which version of a package to which uses of it are sent, by name.
    pub version: StringMap<VersionPatch>,
}

/// From which version of a package to which uses of it are sent.
#[derive(Debug)]
pub struct VersionPatch {
    pub from: String,
    pub to: String,
}

impl Default for RepoPatchConfig {
    fn default() -> (r: RepoPatchConfig)
        ensures
            r.version@ == Map::<Seq<char>, VersionPatch>::empty(),
    {
        RepoPatchConfig { version: StringMap::new() }
    }
}

/// Whether this is the configuration of a repository that has none: no test
/// rules, no fields kept, nothing patched.
pub open spec fn is_default_repo_config(config: RepoConfig) -> bool {
    &&& config.ignore_tests
    &&& config.patch_fields@ == Set::<Seq<char>>::empty()
    &&& config.patch.version@ == Map::<Seq<char>, VersionPatch>::empty()
}

impl Default for RepoConfig {
    fn default() -> (r: RepoConfig)
        ensures
            is_default_repo_config(r),
    {
        RepoConfig {
            ignore_tests: true,
            patch_fields: StringSet::new(),
            patch: RepoPatchConfig::default(),
        }
    }
}

/// What was found where the configuration of a repository should be, with the
/// reason where it could not be used.
#[derive(Debug)]
pub enum RepoConfigFile {
    Absent,
    Unreadable(String),
    Unparsed(String),
    Parsed(RepoConfig),
}

/// Why what was found at `path` cannot be used, and what there is to say about it, if
/// it cannot.
pub open spec fn repo_config_failure(file: RepoConfigFile, path: Seq<char>) -> Option<
    (Seq<char>, Option<Seq<char>>),
> {
    match file {
        RepoConfigFile::Unreadable(reason) => Some(
            ("failed to read `"@ + path + "`: "@ + reason@, None),
        ),
        RepoConfigFile::Unparsed(reason) => Some(
            (
                "failed to parse `"@ + path + "`: "@ + reason@,
                Some(
                    "supported keys are `ignore_tests`, `patch_fields` and `[patch.version]`, all at the file root"@,
                ),
            ),
        ),
        _ => None,
    }
}

/// Why the configuration of a repository cannot be used.
#[derive(Debug)]
pub struct RepoConfigError {
    pub error: String,
    pub note: Option<String>,
}

impl RepoConfig {
    /// The configuration of a repository, from what was found at `path`. A file
    /// that is there and cannot be used is an error: with the defaults in its
    /// place, no test rules would be generated.
    pub fn load(file: RepoConfigFile, path: &str) -> (r: Result<RepoConfig, RepoConfigError>)
        ensures
            repo_config_failure(file, path@) == match r {
                Ok(_) => None,
                Err(e) => Some((e.error@, text::view_opt(e.note))),
            },
            match file {
                RepoConfigFile::Absent => r matches Ok(c) && is_default_repo_config(c),
                RepoConfigFile::Unreadable(reason) => r matches Err(e) && e.error@
                    == "failed to read `"@ + path@ + "`: "@ + reason@ && e.note is None,
                RepoConfigFile::Unparsed(reason) => r matches Err(e) && e.error@
                    == "failed to parse `"@ + path@ + "`: "@ + reason@ && text::view_opt(e.note)
                    == Some(
                    "supported keys are `ignore_tests`, `patch_fields` and `[patch.version]`, all at the file root"@,
                ),
                RepoConfigFile::Parsed(config) => r == Ok::<RepoConfig, RepoConfigError>(config),
            },
    {
        match file {
            RepoConfigFile::Absent => Ok(RepoConfig::default()),
            RepoConfigFile::Unreadable(reason) => {
                let mut error = "failed to read `".to_owned();
                error.append(path);
                error.append("`: ");
                error.append(reason.as_str());
                Err(RepoConfigError { error, note: None })
            },
            RepoConfigFile::Unparsed(reason) => {
                let mut error = "failed to parse `".to_owned();
                error.append(path);
                error.append("`: ");
                error.append(reason.as_str());
                let note =
                    "supported keys are `ignore_tests`, `patch_fields` and `[patch.version]`, all at the file root".to_owned();
                Err(RepoConfigError { error, note: Some(note) })
            },
            RepoConfigFile::Parsed(config) => Ok(config),
        }
    }

    /// The path of the configuration of the repository at `buck2_root`.
    pub fn repo_config_path(buck2_root: &str) -> (r: String)
        ensures
            !paths::starts_verbatim(buck2_root@) ==> paths::is_joined(
                r@,
                buck2_root@,
                "buckal.toml"@,
            ),
    {
        proof {
            lemma_plain_names();
        }
        paths::join(buck2_root, "buckal.toml")
    }
}

/// Without a configuration the user runs `buck2` and has one registry, and a
/// repository has no test rules, keeps no fields and patches nothing.
pub proof fn law_defaults(config: Config, repo: RepoConfig, name: Seq<char>, field: Seq<char>)
    ensures
        is_default_config(config) ==> config.buck2_binary@ == "buck2"@ && config.registry.default
            is None && (config.registries@.contains_key(name) <==> name == "buck2hub"@)
            && config.registries@["buck2hub"@].base@ == "https://app.buck2hub.com"@
            && config.registries@["buck2hub"@].api@ == "https://git.buck2hub.com"@
            && config.registries@["buck2hub"@].token is None,
        is_default_repo_config(repo) ==> repo.ignore_tests && !repo.patch_fields@.contains(field)
            && !repo.patch.version@.contains_key(name),
{
}

/// The user's configuration stands in `.config/buckal/config.toml` below the home
/// directory.
pub proof fn law_config_stands_below_the_home_directory(path: Seq<char>, home: Seq<char>)
    requires
        config_path_below(path, home),
        home.len() > 0,
        home.last() != '/' && home.last() != '\\' && home.last() != ':',
    ensures
        path.len() == home.len() + 27,
        text::reads(path, home, 0),
        text::reads(path, ".config"@, home.len() as int + 1),
        text::reads(path, "buckal"@, home.len() as int + 9),
        text::reads(path, "config.toml"@, home.len() as int + 16),
{
    reveal_strlit(".config");
    reveal_strlit("buckal");
    reveal_strlit("config.toml");
    reveal_strlit("/");
    reveal_strlit("\\");
    let (a, b) = choose|a: Seq<char>, b: Seq<char>|
        {
            &&& #[trigger] paths::is_joined(a, home, ".config"@)
            &&& #[trigger] paths::is_joined(b, a, "buckal"@)
            &&& paths::is_joined(path, b, "config.toml"@)
        };
    let n = home.len() as int;
    assert(a.len() == n + 8);
    assert(a.last() == 'g');
    assert(b.len() == n + 15);
    assert(b.last() == 'l');
    assert forall|k: int| 0 <= k < n implies path[0 + k] == #[trigger] home[k] by {
        assert(a[k] == home[k]);
        assert(b[k] == a[k]);
    }
    let first = ".config"@;
    assert forall|k: int| 0 <= k < first.len() implies path[n + 1 + k] == #[trigger] first[k] by {
        assert(a[n + 1 + k] == first[k]);
        assert(b[n + 1 + k] == a[n + 1 + k]);
    }
    let second = "buckal"@;
    assert forall|k: int| 0 <= k < second.len() implies path[n + 9 + k]
        == #[trigger] second[k] by {
        assert(b[n + 9 + k] == second[k]);
    }
    let third = "config.toml"@;
    assert forall|k: int| 0 <= k < third.len() implies path[n + 16 + k]
        == #[trigger] third[k] by {}
}

/// A configuration of the user that is there and can be read is used as it is; the
/// defaults take the place of any other. The user is warned, with the path, if and
/// only if there was a file that could not be used.
pub proof fn law_unusable_config_is_replaced(file: ConfigFile, path: Seq<char>, config: Config)
    ensures
        config_warning(file, path) is Some <==> file is Unreadable || file is Unparsed,
        config_warning(file, path) matches Some(warning) ==> exists|i: int| #[trigger]
            text::reads(warning, path, i),
        file is Parsed ==> (is_config_used(file, config) <==> config == file->0),
        !(file is Parsed) ==> (is_config_used(file, config) <==> is_default_config(config)),
{
    let read = "Warning: Failed to read config file at "@;
    let parse = "Warning: Failed to parse config file at "@;
    if let Some(warning) = config_warning(file, path) {
        let i = if file is Unreadable {
            read.len() as int
        } else {
            parse.len() as int
        };
        assert forall|k: int| 0 <= k < path.len() implies warning[i + k] == #[trigger] path[k] by {}
        assert(text::reads(warning, path, i));
    }
}

/// A configuration of a repository that is there and cannot be used is an error, with
/// the path and the reason; one that is not there, and one that can be used, is not.
pub proof fn law_unusable_repo_config_is_an_error(
    file: RepoConfigFile,
    path: Seq<char>,
    reason: String,
)
    ensures
        repo_config_failure(file, path) is None <==> file is Absent || file is Parsed,
        file == RepoConfigFile::Unreadable(reason) ==> (repo_config_failure(file, path) matches Some(
            (error, note),
        ) && error == "failed to read `"@ + path + "`: "@ + reason@ && note is None),
        file == RepoConfigFile::Unparsed(reason) ==> (repo_config_failure(file, path) matches Some(
            (error, note),
        ) && error == "failed to parse `"@ + path + "`: "@ + reason@ && note is Some),
{
}

} // verus!
