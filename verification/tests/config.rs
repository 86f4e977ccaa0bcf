use cargo_buckal::config::{
    default_registries, is_default_buck2_binary, Config, ConfigFile, RegistryDefault,
    RegistryEntry, RepoConfig, RepoConfigFile,
};

#[test]
fn defaults_are_those_of_a_user_without_a_configuration() {
    let config = Config::default();
    assert!(is_default_buck2_binary(&config.buck2_binary));
    assert!(config.registry.if_skip());
    assert_eq!(config.default_registry(), "buck2hub");
    let hub = default_registries();
    assert_eq!(hub.len(), 1);
    let entry = hub.get("buck2hub").expect("built in");
    assert_eq!(entry.base, "https://app.buck2hub.com");
    assert_eq!(entry.api, "https://git.buck2hub.com");
    assert!(entry.token.is_none());
    assert_eq!(RegistryEntry::default().base, "");
}

#[test]
fn a_configured_registry_wins() {
    let mut config = Config::default();
    config.registry = RegistryDefault {
        default: Some("mine".to_owned()),
    };
    assert!(!config.registry.if_skip());
    assert_eq!(config.default_registry(), "mine");
    assert!(!is_default_buck2_binary("/opt/buck2"));
}

#[test]
fn a_configuration_that_cannot_be_used_gives_way() {
    let (config, warning) = Config::load(ConfigFile::Absent, "/c");
    assert_eq!(config.buck2_binary, "buck2");
    assert!(warning.is_none());
    let (_, warning) = Config::load(ConfigFile::Unparsed, "/c");
    assert_eq!(
        warning.as_deref(),
        Some("Warning: Failed to parse config file at /c, using defaults")
    );
    let (_, warning) = Config::load(ConfigFile::Unreadable, "/c");
    assert_eq!(
        warning.as_deref(),
        Some("Warning: Failed to read config file at /c, using defaults")
    );
    let mut own = Config::default();
    own.buck2_binary = "/opt/buck2".to_owned();
    let (config, warning) = Config::load(ConfigFile::Parsed(own), "/c");
    assert_eq!(config.buck2_binary, "/opt/buck2");
    assert!(warning.is_none());
}

#[test]
fn a_repository_configuration_that_cannot_be_used_is_an_error() {
    let config = RepoConfig::load(RepoConfigFile::Absent, "/r/buckal.toml").expect("defaults");
    assert!(config.ignore_tests);
    assert!(config.patch_fields.is_empty());
    assert_eq!(config.patch.version.len(), 0);
    let err = RepoConfig::load(RepoConfigFile::Unreadable("gone".to_owned()), "/r/buckal.toml")
        .expect_err("unreadable");
    assert_eq!(err.error, "failed to read `/r/buckal.toml`: gone");
    assert!(err.note.is_none());
    let err = RepoConfig::load(RepoConfigFile::Unparsed("bad".to_owned()), "/r/buckal.toml")
        .expect_err("unparsed");
    assert_eq!(err.error, "failed to parse `/r/buckal.toml`: bad");
    assert!(err.note.expect("note").starts_with("supported keys are"));
}

#[test]
fn configuration_paths_are_joined() {
    assert_eq!(
        Config::config_path(Some("/home/u")),
        "/home/u/.config/buckal/config.toml"
    );
    assert_eq!(Config::config_path(None), "./.config/buckal/config.toml");
    assert_eq!(RepoConfig::repo_config_path("/r"), "/r/buckal.toml");
}

#[test]
fn a_separator_is_put_in_only_where_there_is_none() {
    assert_eq!(RepoConfig::repo_config_path("/r/"), "/r/buckal.toml");
    assert_eq!(RepoConfig::repo_config_path(""), "buckal.toml");
}
