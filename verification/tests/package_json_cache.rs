use rolldown_dx_cache::machine_cache::{FileRead, MachineCacheFiles};
use rolldown_dx_cache::machine_write::MachineArtifactWrite;
use rolldown_dx_cache::package_json::PackageJsonOptionalPeerDependencies;
use rolldown_dx_cache::package_json_cache::{
    consult_optional_peer_cache, optional_peer_cache_target, package_json_cache_key,
    package_json_peer_keys, package_json_project_absolute_alias_key,
    package_json_source_len_worth_machine_cache, write_optional_peers, OptionalPeerCacheTarget,
    OptionalPeerRead, PackageJsonCache, PACKAGE_JSON_MACHINE_MIN_SOURCE_BYTES,
};
use rolldown_dx_cache::path_text::PathStyle;

const UNIX: PathStyle = PathStyle::Unix;

fn peers(names: &[&str]) -> PackageJsonOptionalPeerDependencies {
    PackageJsonOptionalPeerDependencies {
        name: "pkg".to_string(),
        optional_peer_dependencies: names.iter().map(|name| name.to_string()).collect(),
    }
}

fn target(source_len: usize) -> Option<OptionalPeerCacheTarget> {
    optional_peer_cache_target(
        "/project",
        "/project/node_modules/pkg/package.json",
        source_len,
        Some("1".to_string()),
        UNIX,
    )
}

fn files_of(write: &MachineArtifactWrite) -> MachineCacheFiles {
    MachineCacheFiles {
        metadata: FileRead::Bytes(write.metadata.bytes.clone()),
        parsed: None,
        machine: FileRead::Bytes(write.machine.bytes.clone()),
    }
}

#[test]
fn keys_drop_dots() {
    assert_eq!(package_json_cache_key("./a/./b", UNIX), "a/b");
    assert_eq!(package_json_cache_key("/a//b/", UNIX), "/a/b");
    assert_eq!(package_json_cache_key(r"G:\a\.\b", PathStyle::Windows), "G:/a/b");
    assert_eq!(
        package_json_project_absolute_alias_key("/project", "./pkg/package.json", UNIX).as_deref(),
        Some("/project/pkg/package.json")
    );
    assert_eq!(package_json_project_absolute_alias_key("/project", "/pkg", UNIX), None);
    assert_eq!(package_json_project_absolute_alias_key("/project", "a/../pkg", UNIX), None);
}

#[test]
fn side_effects_are_loaded_once() {
    let mut cache = PackageJsonCache::new();
    assert_eq!(cache.cached_package_json_side_effects("/a/package.json", 0, UNIX), (0, true));
    assert_eq!(cache.cached_package_json_side_effects("/a/./package.json", 1, UNIX), (0, false));
    assert_eq!(cache.cached_package_json_side_effects("/b/package.json", 1, UNIX), (1, true));
    cache.clear();
    assert_eq!(cache.cached_package_json_side_effects("/a/package.json", 2, UNIX), (2, true));
}

#[test]
fn optional_peers_are_found_by_every_spelling() {
    let mut cache = PackageJsonCache::default();
    let relative = package_json_peer_keys("/project", "./pkg/package.json", UNIX);
    assert_eq!(cache.cached_package_json_optional_peer_dep(&relative), None);
    assert_eq!(cache.keep_package_json_optional_peer_dep(&relative, 7), 7);
    assert_eq!(cache.cached_package_json_optional_peer_dep(&relative), Some(7));
    let absolute = package_json_peer_keys("/project", "/project/pkg/package.json", UNIX);
    assert_eq!(cache.cached_package_json_optional_peer_dep(&absolute), Some(7));
    assert_eq!(cache.keep_package_json_optional_peer_dep(&absolute, 8), 7);

    let elsewhere = package_json_peer_keys("/other", "./pkg/package.json", UNIX);
    assert_eq!(cache.cached_package_json_optional_peer_dep(&elsewhere), None);
    assert_eq!(cache.keep_package_json_optional_peer_dep(&elsewhere, 9), 9);
    assert_eq!(cache.cached_package_json_optional_peer_dep(&relative), Some(7));

    cache.clear();
    assert_eq!(cache.cached_package_json_optional_peer_dep(&relative), None);
}

#[test]
fn small_packages_are_not_cached() {
    let limit = PACKAGE_JSON_MACHINE_MIN_SOURCE_BYTES;
    assert!(!package_json_source_len_worth_machine_cache(limit));
    assert!(package_json_source_len_worth_machine_cache(limit + 1));
    assert!(target(limit).is_none());
    assert!(target(limit + 1).is_some());
    assert!(optional_peer_cache_target("/project", "a.json", limit + 1, None, UNIX).is_none());
}

#[test]
fn written_optional_peers_are_read_back() {
    let source = vec![b' '; PACKAGE_JSON_MACHINE_MIN_SOURCE_BYTES + 1];
    let target = target(source.len()).unwrap();
    assert_eq!(target.source_path, "node_modules/pkg/package.json");
    let write = write_optional_peers(&target, &source, &peers(&["react", "vue"]), None).unwrap();
    assert!(matches!(
        consult_optional_peer_cache(&target, &source, files_of(&write)),
        OptionalPeerRead::Found(found) if found == peers(&["react", "vue"])
    ));
}

#[test]
fn packages_without_optional_peers_are_written_only_as_a_repair() {
    let source = vec![b' '; PACKAGE_JSON_MACHINE_MIN_SOURCE_BYTES + 1];
    let target = target(source.len()).unwrap();
    assert!(write_optional_peers(&target, &source, &peers(&[]), None).is_none());

    let broken = target
        .config
        .write_machine_artifact(&target.paths, &target.source_path, &source, b"no payload")
        .unwrap();
    let OptionalPeerRead::Repair(hash) =
        consult_optional_peer_cache(&target, &source, files_of(&broken))
    else {
        panic!("expected a repair");
    };
    let write = write_optional_peers(&target, &source, &peers(&[]), Some(hash)).unwrap();
    assert!(matches!(
        consult_optional_peer_cache(&target, &source, files_of(&write)),
        OptionalPeerRead::Found(found) if found == peers(&[])
    ));
}

#[test]
fn keys_tell_a_backslash_from_a_slash_on_unix() {
    let first = package_json_peer_keys("/p", r"/p/a\b.json", UNIX);
    let second = package_json_peer_keys("/p", "/p/a/b.json", UNIX);
    assert_eq!(first.source, r"a\b.json");
    assert_eq!(second.source, "a/b.json");
    assert_ne!(first.direct, second.direct);
}

#[test]
fn keys_ignore_the_case_of_a_drive() {
    assert_eq!(
        package_json_cache_key(r"C:\p\Package.json", PathStyle::Windows),
        package_json_cache_key("c:/p/./Package.json", PathStyle::Windows)
    );
    assert_ne!(
        package_json_cache_key("c:/p/Package.json", PathStyle::Windows),
        package_json_cache_key("c:/p/package.json", PathStyle::Windows)
    );
}
