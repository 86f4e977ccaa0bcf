use cargo_buckal::cache::{
    is_id_boundary, BuckalCache, ChangeType, Fingerprint, FingerprintError, LoadError,
    PackageIdExt, WorkspaceRoot, CACHE_VERSION,
};
use cargo_buckal::resolve::PackageId;
use cargo_buckal::sorted::StringMap;

fn ws() -> WorkspaceRoot {
    WorkspaceRoot::new("/work/proj").expect("absolute path")
}

fn ws_prefix() -> &'static str {
    "path+file:///work/proj"
}

fn ws_spaced() -> WorkspaceRoot {
    WorkspaceRoot::new("/work/Jane Doe/proj").expect("absolute path")
}

fn ws_spaced_prefix() -> &'static str {
    "path+file:///work/Jane%20Doe/proj"
}

fn id(repr: &str) -> PackageId {
    PackageId {
        repr: repr.to_string(),
    }
}

#[test]
fn canonicalize_workspace_internal_path_crate() {
    let id = PackageId {
        repr: format!("{}/crates/foo#0.1.0", ws_prefix()),
    };
    assert_eq!(
        id.canonicalize(&ws()).repr,
        "path+file://($WORKSPACE)/crates/foo#0.1.0",
        "a path crate under the workspace root must be rewritten to ($WORKSPACE)"
    );
}

#[test]
fn resolve_reproduces_cargo_metadata_repr() {
    let canon = id("path+file://($WORKSPACE)/crates/foo#0.1.0");
    assert_eq!(
        canon.resolve(&ws()).repr,
        format!("{}/crates/foo#0.1.0", ws_prefix()),
        "resolve must reproduce the exact repr `cargo metadata` emits"
    );
}

#[test]
fn canonicalize_handles_workspace_root_package_itself() {
    let id = PackageId {
        repr: format!("{}#0.7.0", ws_prefix()),
    };
    assert_eq!(
        id.canonicalize(&ws()).repr,
        "path+file://($WORKSPACE)#0.7.0"
    );
}

#[test]
fn canonicalize_handles_percent_encoded_workspace_path() {
    let id = PackageId {
        repr: format!("{}/crates/foo#0.1.0", ws_spaced_prefix()),
    };
    assert_eq!(
        id.canonicalize(&ws_spaced()).repr,
        "path+file://($WORKSPACE)/crates/foo#0.1.0"
    );
    let back = PackageId {
        repr: "path+file://($WORKSPACE)/crates/foo#0.1.0".to_string(),
    };
    assert_eq!(
        back.resolve(&ws_spaced()).repr,
        format!("{}/crates/foo#0.1.0", ws_spaced_prefix())
    );
}

#[test]
fn canonicalize_leaves_non_workspace_path_crate_untouched() {
    let id = id("path+file:///work/other/lib/bar#0.1.0");
    assert_eq!(id.canonicalize(&ws()).repr, id.repr);
}

#[test]
fn canonicalize_leaves_registry_id_untouched() {
    let id = id("registry+https://github.com/rust-lang/crates.io-index#serde@1.0.0");
    assert_eq!(id.canonicalize(&ws()).repr, id.repr);
}

#[test]
fn canonicalize_does_not_match_sibling_directory() {
    let id = PackageId {
        repr: format!("{}_sidecar/lib/bar#0.1.0", ws_prefix()),
    };
    assert_eq!(id.canonicalize(&ws()).repr, id.repr);
}

#[test]
fn cache_version_is_pinned() {
    assert_eq!(CACHE_VERSION, 6);
}

fn cache(version: u32, entries: &[(&str, u8)]) -> BuckalCache {
    let mut fingerprints: StringMap<Fingerprint> = StringMap::new();
    for (repr, byte) in entries {
        fingerprints.insert(repr.to_string(), Fingerprint::new([*byte; 32]));
    }
    BuckalCache {
        fingerprints,
        version,
    }
}

#[test]
fn migrating_v4_cache_preserves_removal_detection() {
    let foo_abs = PackageId {
        repr: format!("{}/crates/foo#0.1.0", ws_prefix()),
    };
    let bar_abs = PackageId {
        repr: format!("{}/crates/bar#0.1.0", ws_prefix()),
    };
    let v4_cache = cache(4, &[(&foo_abs.repr, 1), (&bar_abs.repr, 2)]);

    let foo_canon = foo_abs.canonicalize(&ws());
    let new_cache = cache(CACHE_VERSION, &[(&foo_canon.repr, 1)]);

    let migrated = v4_cache.rekeyed_v4_to_v5(&ws());
    let changes = new_cache.diff(&migrated, &ws());

    let bar_resolved = bar_abs.canonicalize(&ws()).resolve(&ws());
    assert!(
        matches!(
            changes.changes.get(&bar_resolved.repr),
            Some(ChangeType::Removed)
        ),
        "removed workspace crate must be detected as Removed after v4->v5 migration; got {:?}",
        changes.changes
    );
    let foo_resolved = foo_canon.resolve(&ws());
    assert!(
        !changes.changes.contains_key(&foo_resolved.repr),
        "unchanged crate must not appear in the diff after re-keying; got {:?}",
        changes.changes
    );
}

#[test]
fn migrating_v5_cache_regenerates_and_still_detects_removals() {
    let foo = "registry+https://github.com/rust-lang/crates.io-index#foo@0.1.0";
    let bar = "registry+https://github.com/rust-lang/crates.io-index#bar@0.1.0";
    let v5_cache = cache(5, &[(foo, 1), (bar, 2)]);
    let new_cache = cache(CACHE_VERSION, &[(foo, 1)]);

    let changes = new_cache.diff(&v5_cache.invalidated(), &ws());

    assert!(
        matches!(changes.changes.get(foo), Some(ChangeType::Changed)),
        "an unchanged package must still regenerate across the v6 codegen bump, \
         or it keeps the deps the old lowering dropped; got {:?}",
        changes.changes
    );
    assert!(
        matches!(changes.changes.get(bar), Some(ChangeType::Removed)),
        "removal detection must survive the migration; got {:?}",
        changes.changes
    );
}

#[test]
fn diff_tells_added_changed_and_removed_apart() {
    let new = cache(CACHE_VERSION, &[("a", 1), ("b", 2), ("c", 3)]);
    let old = cache(CACHE_VERSION, &[("b", 2), ("c", 4), ("d", 5)]);
    let changes = new.diff(&old, &ws()).changes;
    assert_eq!(changes.len(), 3);
    assert_eq!(changes.get("a"), Some(&ChangeType::Added));
    assert_eq!(changes.get("b"), None);
    assert_eq!(changes.get("c"), Some(&ChangeType::Changed));
    assert_eq!(changes.get("d"), Some(&ChangeType::Removed));
    assert_eq!(new.diff(&BuckalCache::new_empty(), &ws()).changes.len(), 3);
}

#[test]
fn the_cache_of_a_run_is_portable() {
    let nodes = vec![
        (
            PackageId {
                repr: format!("{}/a#0.1.0", ws_prefix()),
            },
            Fingerprint::new([7; 32]),
        ),
        (id("registry+x#b@1.0.0"), Fingerprint::new([8; 32])),
    ];
    let cache = BuckalCache::from_resolve(&nodes, &ws());
    assert_eq!(cache.version, CACHE_VERSION);
    assert!(cache
        .fingerprints
        .contains_key("path+file://($WORKSPACE)/a#0.1.0"));
    assert!(cache.fingerprints.contains_key("registry+x#b@1.0.0"));
    assert_eq!(cache.fingerprints.len(), 2);
}

#[test]
fn caches_of_other_versions_are_told_apart() {
    assert!(BuckalCache::load(cache(6, &[])).is_ok());
    assert!(
        matches!(BuckalCache::load(cache(5, &[])), Err(LoadError::Stale(m))
        if m == "Cache version is stale (found 5, expected 6)")
    );
    assert!(
        matches!(BuckalCache::load(cache(17, &[])), Err(LoadError::Newer(m))
        if m == "Cache was written by a newer version of Buckal (found v17, expected v6). Please upgrade Buckal.")
    );
    assert!(
        matches!(BuckalCache::load_migrated(cache(3, &[]), None), Err(LoadError::Stale(m))
        if m == "Cache version is stale and not migratable (found 3, expected 6)")
    );
    assert!(matches!(
        BuckalCache::load_migrated(cache(7, &[]), None),
        Err(LoadError::Newer(_))
    ));
    let same = BuckalCache::load_migrated(cache(6, &[("a", 1)]), None).expect("current");
    assert!(same
        .fingerprints
        .get("a")
        .expect("kept")
        .same(&Fingerprint::new([1; 32])));
    let inside = format!("{}/a#0.1.0", ws_prefix());
    let old = BuckalCache::load_migrated(cache(4, &[(&inside, 1)]), Some(&ws())).expect("migrated");
    assert_eq!(old.version, CACHE_VERSION);
    let kept = old
        .fingerprints
        .get("path+file://($WORKSPACE)/a#0.1.0")
        .expect("rekeyed");
    assert!(kept.same(&Fingerprint::invalid()));
}

#[test]
fn fingerprints_read_back() {
    let mut bytes = [0u8; 32];
    bytes[0] = 0xf9;
    bytes[1] = 0x0b;
    bytes[31] = 0xff;
    let print = Fingerprint::new(bytes);
    let hex = print.to_hex();
    assert_eq!(hex.len(), 64);
    assert!(hex.starts_with("f90b00"));
    assert!(hex.ends_with("00ff"));
    assert!(Fingerprint::from_hex(&hex).expect("hex").same(&print));
    assert!(Fingerprint::from_hex(&hex.to_uppercase())
        .expect("hex")
        .same(&print));
    assert!(matches!(
        Fingerprint::from_hex("zz"),
        Err(FingerprintError::NotHex(_))
    ));
    assert!(matches!(
        Fingerprint::from_hex("abc"),
        Err(FingerprintError::NotHex(_))
    ));
    assert!(matches!(
        Fingerprint::from_hex("abcd"),
        Err(FingerprintError::WrongLength)
    ));
}

#[test]
fn workspace_roots_are_urls() {
    assert!(WorkspaceRoot::new("relative/path").is_none());
    assert!(WorkspaceRoot::new("").is_none());
    assert!(WorkspaceRoot::new("./x").is_none());
    assert!(WorkspaceRoot::from_file_url(None).is_none());
    assert_eq!(
        WorkspaceRoot::from_file_url(Some("file:///x".to_string()))
            .expect("a URL")
            .workspace_id_prefix(),
        "path+file:///x"
    );
    assert_eq!(
        WorkspaceRoot::new("/a b/ü#%/`{}?\"<>")
            .expect("absolute")
            .workspace_id_prefix(),
        "path+file:///a%20b/%C3%BC%23%25/%60%7B%7D%3F%22%3C%3E"
    );
    for (path, prefix) in [
        ("/", "path+file:///"),
        ("/work//proj/", "path+file:///work/proj"),
    ] {
        assert_eq!(
            WorkspaceRoot::new(path)
                .expect("absolute")
                .workspace_id_prefix(),
            prefix
        );
    }
    assert_eq!(
        WorkspaceRoot::from_url("file:///x").workspace_id_prefix(),
        "path+file:///x"
    );
    assert!(is_id_boundary("/x"));
    assert!(is_id_boundary("#1"));
    assert!(!is_id_boundary("_x"));
    assert!(!is_id_boundary(""));
}
