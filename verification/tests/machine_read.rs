use rolldown_dx_cache::cache_name::{cache_artifact_file_name, cache_stem};
use rolldown_dx_cache::machine_cache::{
    validate_machine_metadata, DxMachineCacheConfig, DxMachineCachePaths, DxMachineCacheStatus,
    FileRead, MachineCacheFiles,
};
use rolldown_dx_cache::machine_write::{
    atomic_temp_path, atomic_write_next, AtomicWriteStep, DxMachineCacheWriteOptions,
    MachineArtifactWrite, StepOutcome,
};
use rolldown_dx_cache::metadata::{machine_metadata_json, DX_MACHINE_MAX_BYTES};
use rolldown_dx_cache::path_text::PathStyle;

const UNIX: PathStyle = PathStyle::Unix;
const WINDOWS: PathStyle = PathStyle::Windows;
const SOURCE_PATH: &str = "/tmp/project/data.json";

fn text(value: &str) -> Option<String> {
    Some(value.to_string())
}

fn enabled() -> (DxMachineCacheConfig, DxMachineCachePaths) {
    let config = DxMachineCacheConfig::from_env_value("/tmp/project", text("1"), UNIX);
    let paths = config.paths_for_source("/tmp/project", "json_module", SOURCE_PATH);
    (config, paths)
}

fn metadata_for(source: &[u8], machine_path: &str, machine: &[u8]) -> String {
    machine_metadata_json(SOURCE_PATH, source, machine_path, machine, UNIX)
}

fn read(metadata: String, source: &[u8], machine: FileRead) -> DxMachineCacheStatus<Vec<u8>> {
    let (config, paths) = enabled();
    let files = MachineCacheFiles {
        metadata: FileRead::Bytes(metadata.into_bytes()),
        parsed: None,
        machine,
    };
    config.read_validated_machine(&paths, SOURCE_PATH, source, files)
}

fn file(bytes: &[u8]) -> FileRead {
    FileRead::Bytes(bytes.to_vec())
}

fn files_of(write: &MachineArtifactWrite) -> MachineCacheFiles {
    MachineCacheFiles {
        metadata: file(&write.metadata.bytes),
        parsed: None,
        machine: file(&write.machine.bytes),
    }
}

fn file_name(path: &str) -> &str {
    path.rsplit('/').next().unwrap()
}

#[test]
fn config_is_disabled_for_falsey_env_values() {
    for value in ["", "0", "false", "FALSE", "off", "no"] {
        let config = DxMachineCacheConfig::from_env_value(r"G:\Dx\build", text(value), WINDOWS);
        assert!(!config.enabled, "{value:?} should not enable the DX machine cache");
        assert_eq!(config.root, r"G:\Dx\build/.dx/rolldown");
    }
}

#[test]
fn unsynced_cache_write_env_accepts_truthy_values() {
    for value in ["1", "true", "yes", "enabled", "random"] {
        assert!(
            !DxMachineCacheWriteOptions::from_env_value(text(value)).sync_writes,
            "{value:?} should skip cache write sync_all"
        );
    }
}

#[test]
fn unsynced_cache_write_env_rejects_falsey_values() {
    for value in ["", " ", "0", "false", "FALSE", "off", "OFF", "no", "NO"] {
        assert!(
            DxMachineCacheWriteOptions::from_env_value(text(value)).sync_writes,
            "{value:?} should keep cache write sync_all"
        );
    }
}

#[test]
fn config_if_enabled_is_none_for_missing_and_falsey_env_values() {
    let cwd = r"G:\Dx\build";

    assert!(DxMachineCacheConfig::from_env_value_if_enabled(cwd, None, WINDOWS).is_none());
    for value in ["", "0", "false", "FALSE", "off", "no"] {
        assert!(
            DxMachineCacheConfig::from_env_value_if_enabled(cwd, text(value), WINDOWS).is_none(),
            "{value:?} should skip DX machine cache config creation"
        );
    }
}

#[test]
fn config_if_enabled_builds_project_cache_root_for_truthy_env_value() {
    let config =
        DxMachineCacheConfig::from_env_value_if_enabled(r"G:\Dx\build", text("1"), WINDOWS)
            .unwrap();

    assert!(config.enabled);
    assert_eq!(config.root, r"G:\Dx\build/.dx/rolldown");
}

#[test]
fn config_uses_project_cache_root_when_enabled() {
    let config = DxMachineCacheConfig::from_env_value(r"G:\Dx\build", text("1"), WINDOWS);

    assert!(config.enabled);
    assert_eq!(config.root, r"G:\Dx\build/.dx/rolldown");
}

#[test]
fn paths_keep_namespace_and_relative_source_identity() {
    let cwd = r"G:\Dx\build";
    let config = DxMachineCacheConfig::from_env_value(cwd, text("1"), WINDOWS);
    let paths = config.paths_for_source(
        cwd,
        "package_json",
        r"G:\Dx\build\node_modules\@scope\pkg\package.json",
    );
    let machine_name = file_name(&paths.machine);
    let metadata_name = file_name(&paths.metadata);

    assert!(paths.machine.starts_with(r"G:\Dx\build/.dx/rolldown/"));
    assert!(machine_name.starts_with("package_json__node_modules-scope-pkg-package-json--"));
    assert!(machine_name.ends_with(".machine"));
    assert!(metadata_name.starts_with("package_json__node_modules-scope-pkg-package-json--"));
    assert!(metadata_name.ends_with(".machine.meta.json"));
}

#[test]
fn paths_for_source_if_enabled_skips_disabled_cache() {
    let cwd = r"G:\Dx\build";
    let source = r"G:\Dx\build\package.json";
    let disabled_config = DxMachineCacheConfig::from_env_value(cwd, None, WINDOWS);
    let enabled_config = DxMachineCacheConfig::from_env_value(cwd, text("1"), WINDOWS);

    assert!(disabled_config.paths_for_source_if_enabled(cwd, "package_json", source).is_none());
    assert_eq!(
        enabled_config.paths_for_source_if_enabled(cwd, "package_json", source),
        Some(enabled_config.paths_for_source(cwd, "package_json", source))
    );
}

#[test]
fn paths_do_not_collide_for_different_sources_with_same_sanitized_name() {
    let cwd = r"G:\Dx\build";
    let config = DxMachineCacheConfig::from_env_value(cwd, text("1"), WINDOWS);
    let first = config.paths_for_source(cwd, "json_module", r"G:\Dx\build\src\foo@bar.json");
    let second = config.paths_for_source(cwd, "json_module", r"G:\Dx\build\src\foo-bar.json");

    assert_ne!(first.machine, second.machine);
    assert_ne!(first.metadata, second.metadata);
}

#[test]
fn paths_cap_deep_source_names_for_windows_cache_compatibility() {
    let cwd = r"G:\Dx\build";
    let config = DxMachineCacheConfig::from_env_value(cwd, text("1"), WINDOWS);
    let mut source_path = format!(r"{cwd}\node_modules");
    for index in 0..40 {
        source_path.push_str(&format!(r"\very-long-package-name-segment-{index}"));
    }
    source_path.push_str(r"\package.json");

    let paths = config.paths_for_source(cwd, "package_json_metadata", &source_path);
    let machine_name = file_name(&paths.machine);
    let metadata_name = file_name(&paths.metadata);

    assert!(machine_name.len() <= 180, "got {} bytes", machine_name.len());
    assert!(metadata_name.len() <= 190, "got {} bytes", metadata_name.len());
    assert!(machine_name.ends_with(".machine"));
    assert!(metadata_name.ends_with(".machine.meta.json"));
}

#[test]
fn paths_for_source_preserves_machine_and_metadata_file_names() {
    let cwd = r"G:\Dx\build";
    let config = DxMachineCacheConfig::from_env_value(cwd, text("1"), WINDOWS);
    let stem = cache_stem("json_module", r"src\data.json", WINDOWS);

    let paths = config.paths_for_source(cwd, "json_module", r"G:\Dx\build\src\data.json");

    let machine_name = cache_artifact_file_name(&stem, ".machine");
    let metadata_name = cache_artifact_file_name(&stem, ".machine.meta.json");
    assert_eq!(paths.machine, format!("{}/{machine_name}", config.root));
    assert_eq!(paths.metadata, format!("{}/{metadata_name}", config.root));
}

#[test]
fn read_validated_machine_falls_back_on_missing_files() {
    let (config, paths) = enabled();
    let files = MachineCacheFiles {
        metadata: FileRead::NotFound,
        parsed: None,
        machine: FileRead::NotFound,
    };

    assert_eq!(
        config.read_validated_machine(&paths, SOURCE_PATH, b"{}", files),
        DxMachineCacheStatus::Miss
    );
}

#[test]
fn read_validated_machine_rejects_corrupt_metadata_bytes() {
    let (config, paths) = enabled();
    let files = MachineCacheFiles {
        metadata: file(&[0xff, b'{', b'}']),
        parsed: None,
        machine: FileRead::NotFound,
    };

    assert_eq!(
        config.read_validated_machine(&paths, SOURCE_PATH, br#"{"value":1}"#, files),
        DxMachineCacheStatus::Invalid
    );
}

#[test]
fn read_validated_machine_rejects_oversized_metadata_before_machine_lookup() {
    let source_bytes = br#"{"value":1}"#;
    let mut metadata = metadata_for(source_bytes, &enabled().1.machine, b"machine");
    metadata.push_str(&" ".repeat(70_000));

    assert_eq!(
        read(metadata, source_bytes, FileRead::NotFound),
        DxMachineCacheStatus::Invalid
    );
}

#[test]
fn read_validated_machine_rejects_stale_source_before_machine_read() {
    let metadata = metadata_for(br#"{"value":1}"#, &enabled().1.machine, b"machine");

    assert_eq!(
        read(metadata, br#"{"value":2}"#, file(b"machine")),
        DxMachineCacheStatus::Invalid
    );
}

#[test]
fn read_validated_machine_rejects_stale_source_before_machine_path_normalization() {
    let machine_path = enabled().1.machine.replace("/rolldown/", "/rolldown/./");
    let metadata = metadata_for(br#"{"value":1}"#, &machine_path, b"machine");

    assert_eq!(
        read(metadata, br#"{"value":20}"#, file(b"machine")),
        DxMachineCacheStatus::Invalid
    );
}

#[test]
fn read_validated_machine_rejects_declared_machine_bytes_above_cap_before_source_hash_and_read() {
    let source_bytes = br#"{"value":1}"#;
    let mut metadata = metadata_for(source_bytes, &enabled().1.machine, b"machine");
    let declared = "\"bytes\": 7";
    let start = metadata.rfind(declared).unwrap();
    metadata.replace_range(
        start..start + declared.len(),
        &format!("\"bytes\": {}", DX_MACHINE_MAX_BYTES + 1),
    );

    assert_eq!(
        read(metadata, source_bytes, file(b"machine")),
        DxMachineCacheStatus::Invalid
    );
}

#[test]
fn read_validated_machine_rejects_machine_path_mismatch_before_source_hash_and_machine_read() {
    let source_bytes = br#"{"value":1}"#;
    let metadata =
        metadata_for(source_bytes, "/tmp/project/.dx/rolldown/other.machine", b"machine");

    assert_eq!(
        read(metadata, source_bytes, file(b"machine")),
        DxMachineCacheStatus::Invalid
    );
}

#[test]
fn read_validated_machine_rejects_zero_len_machine_before_source_hash_and_file_read() {
    let source_bytes = br#"{"value":1}"#;
    let metadata = metadata_for(source_bytes, &enabled().1.machine, b"");

    assert_eq!(read(metadata, source_bytes, file(b"")), DxMachineCacheStatus::Invalid);
}

#[test]
fn read_validated_machine_stale_len_mismatch_skips_machine_file_metadata() {
    let metadata = metadata_for(br#"{"value":1}"#, &enabled().1.machine, b"machine");

    assert_eq!(
        read(metadata, br#"{"value":20}"#, file(b"machine")),
        DxMachineCacheStatus::Invalid
    );
}

#[test]
fn read_validated_machine_rejects_stale_source_even_when_machine_file_is_missing() {
    let metadata = metadata_for(br#"{"value":1}"#, &enabled().1.machine, b"machine");

    assert_eq!(
        read(metadata, br#"{"value":2}"#, FileRead::NotFound),
        DxMachineCacheStatus::Invalid
    );
}

#[test]
fn read_validated_machine_misses_matching_source_when_machine_file_is_missing() {
    let source_bytes = br#"{"value":1}"#;
    let metadata = metadata_for(source_bytes, &enabled().1.machine, b"machine");

    assert_eq!(
        read(metadata, source_bytes, FileRead::NotFound),
        DxMachineCacheStatus::Miss
    );
}

#[test]
fn read_validated_machine_rejects_directory_machine_path_without_metadata_probe() {
    let source_bytes = br#"{"value":1}"#;
    let metadata = metadata_for(source_bytes, &enabled().1.machine, b"machine");

    assert_eq!(
        read(metadata, source_bytes, FileRead::OpenFailed),
        DxMachineCacheStatus::Invalid
    );
}

#[test]
fn a_machine_file_that_breaks_off_is_a_miss() {
    let source_bytes = br#"{"value":1}"#;
    let metadata = metadata_for(source_bytes, &enabled().1.machine, b"machine");

    assert_eq!(
        read(metadata, source_bytes, FileRead::ReadFailed),
        DxMachineCacheStatus::Miss
    );
}

#[test]
fn read_validated_machine_rejects_wrong_size_machine_after_source_hash_precheck() {
    let source_bytes = br#"{"value":1}"#;
    let metadata = metadata_for(source_bytes, &enabled().1.machine, b"machine");

    assert_eq!(
        read(metadata, source_bytes, file(b"short")),
        DxMachineCacheStatus::Invalid
    );
}

#[test]
fn read_validated_machine_rejects_same_len_changed_machine_after_read() {
    let source_bytes = br#"{"value":1}"#;
    let metadata = metadata_for(source_bytes, &enabled().1.machine, b"old");

    assert_eq!(read(metadata, source_bytes, file(b"new")), DxMachineCacheStatus::Invalid);
}

#[test]
fn read_validated_machine_rejects_non_beneficial_machine_before_source_hash_and_read() {
    let source_bytes = br#"{"value":1}"#;
    let metadata = metadata_for(source_bytes, &enabled().1.machine, source_bytes);

    assert_eq!(
        read(metadata, source_bytes, file(source_bytes)),
        DxMachineCacheStatus::Invalid
    );
}

#[test]
fn read_validated_machine_rejects_bad_machine_hash_shape_before_file_metadata() {
    let source_bytes = br#"{"value":1}"#;
    let machine_hash = blake3::hash(b"machine").to_hex().to_string();
    let metadata = metadata_for(source_bytes, &enabled().1.machine, b"machine")
        .replace(&machine_hash, "not-a-blake3-hash");

    assert_eq!(
        read(metadata, source_bytes, FileRead::NotFound),
        DxMachineCacheStatus::Invalid
    );
}

#[test]
fn read_validated_machine_returns_machine_bytes_on_hit() {
    let source_bytes = br#"{"value":1}"#;
    let metadata = metadata_for(source_bytes, &enabled().1.machine, b"machine");

    assert_eq!(
        read(metadata, source_bytes, file(b"machine")),
        DxMachineCacheStatus::Hit(b"machine".to_vec())
    );
}

#[test]
fn read_validated_machine_with_source_hash_returns_validated_digest_on_hit() {
    let source_bytes = br#"{"value":1}"#;
    let (config, paths) = enabled();
    let files = MachineCacheFiles {
        metadata: file(metadata_for(source_bytes, &paths.machine, b"machine").as_bytes()),
        parsed: None,
        machine: file(b"machine"),
    };

    let DxMachineCacheStatus::Hit(hit) =
        config.read_validated_machine_with_source_hash(&paths, SOURCE_PATH, source_bytes, files)
    else {
        panic!("expected validated machine cache hit with source hash");
    };
    assert_eq!(hit.machine_bytes, b"machine");
    assert_eq!(&hit.source_hash, blake3::hash(source_bytes).as_bytes());
}

#[test]
fn read_validated_machine_compares_separator_equivalent_machine_path_without_normalized_path_allocations(
) {
    let source_bytes = br#"{"value":1}"#;
    let machine_path = enabled().1.machine.replace("/rolldown/", "//rolldown/./");
    let metadata = metadata_for(source_bytes, &machine_path, b"machine");

    assert_eq!(
        read(metadata, source_bytes, file(b"machine")),
        DxMachineCacheStatus::Hit(b"machine".to_vec())
    );
}

const PADDED_SOURCE: &[u8] =
    br#"{"name":"rolldown","padding":"xxxxxxxxxxxxxxxxxxxxxxxxxxxxxxxxxxxxxxxx"}"#;
const PACKAGE_MACHINE: &[u8] = br#"{"name":"rolldown","optional_peer_dependencies":[]}"#;

#[test]
fn write_machine_artifact_writes_validated_machine_and_metadata() {
    let (config, paths) = enabled();
    let write = config
        .write_machine_artifact(&paths, SOURCE_PATH, PADDED_SOURCE, PACKAGE_MACHINE)
        .unwrap();

    assert_eq!(write.machine.path, paths.machine);
    assert_eq!(write.metadata.path, paths.metadata);
    assert_eq!(
        config.read_validated_machine(&paths, SOURCE_PATH, PADDED_SOURCE, files_of(&write)),
        DxMachineCacheStatus::Hit(PACKAGE_MACHINE.to_vec())
    );
}

#[test]
fn write_machine_artifact_disabled_skips_source_hash_work() {
    let config = DxMachineCacheConfig::from_env_value("/tmp/project", text("0"), UNIX);
    let paths = config.paths_for_source("/tmp/project", "package_json_metadata", SOURCE_PATH);

    assert!(config
        .write_machine_artifact(&paths, SOURCE_PATH, PADDED_SOURCE, PACKAGE_MACHINE)
        .is_none());
}

#[test]
fn write_machine_artifact_skips_non_beneficial_machine_bytes_before_source_hash() {
    let (config, paths) = enabled();

    assert!(config
        .write_machine_artifact(&paths, SOURCE_PATH, br#"{"name":"rolldown"}"#, PACKAGE_MACHINE)
        .is_none());
}

#[test]
fn write_machine_artifact_with_source_hash_writes_validated_metadata_without_source_bytes() {
    let (config, paths) = enabled();
    let source_hash = blake3::hash(PADDED_SOURCE);
    let write = config
        .write_machine_artifact_with_source_hash(
            &paths,
            SOURCE_PATH,
            PADDED_SOURCE.len(),
            source_hash.as_bytes(),
            PACKAGE_MACHINE,
        )
        .unwrap();

    let metadata = String::from_utf8(write.metadata.bytes).unwrap();
    assert!(metadata.contains("\"modified_unix_ms\": null"));
    assert_eq!(
        validate_machine_metadata(
            &metadata,
            None,
            SOURCE_PATH,
            PADDED_SOURCE,
            &paths.machine,
            PACKAGE_MACHINE,
            UNIX,
        ),
        DxMachineCacheStatus::Hit(())
    );
}

#[test]
fn atomic_temp_paths_do_not_collide_for_parallel_cache_writers() {
    let path = "/tmp/cache/data.machine";
    let first = atomic_temp_path(path, 7, 0);
    let second = atomic_temp_path(path, 7, 1);

    assert_ne!(first, second);
    assert!(first.starts_with("/tmp/cache/"));
    assert!(second.starts_with("/tmp/cache/"));
}

fn steps_of_write(sync: bool, failing: Option<AtomicWriteStep>) -> Vec<AtomicWriteStep> {
    let options = DxMachineCacheWriteOptions { sync_writes: sync };
    let mut steps = vec![AtomicWriteStep::CompareExisting];
    loop {
        let step = *steps.last().unwrap();
        if matches!(step, AtomicWriteStep::Succeeded | AtomicWriteStep::Failed) {
            return steps;
        }
        let fails = failing == Some(step) || step == AtomicWriteStep::CompareExisting;
        let outcome = if fails { StepOutcome::Failed } else { StepOutcome::Done };
        steps.push(atomic_write_next(step, outcome, true, options));
    }
}

#[test]
fn an_atomic_write_goes_through_a_temporary_file() {
    assert_eq!(
        steps_of_write(true, None),
        [
            AtomicWriteStep::CompareExisting,
            AtomicWriteStep::CreateParent,
            AtomicWriteStep::RemoveStaleTemp,
            AtomicWriteStep::WriteTemp,
            AtomicWriteStep::SyncTemp,
            AtomicWriteStep::RemoveTarget,
            AtomicWriteStep::RenameTemp,
            AtomicWriteStep::Succeeded,
        ]
    );
    assert!(!steps_of_write(false, None).contains(&AtomicWriteStep::SyncTemp));
    assert_eq!(
        steps_of_write(true, Some(AtomicWriteStep::RenameTemp))[6..],
        [
            AtomicWriteStep::RenameTemp,
            AtomicWriteStep::RemoveTempAfterFailedRename,
            AtomicWriteStep::Failed,
        ]
    );
    assert_eq!(
        steps_of_write(true, Some(AtomicWriteStep::WriteTemp)).last(),
        Some(&AtomicWriteStep::Failed)
    );
    let options = DxMachineCacheWriteOptions::default();
    assert_eq!(
        atomic_write_next(AtomicWriteStep::CompareExisting, StepOutcome::Done, true, options),
        AtomicWriteStep::Succeeded
    );
    assert_eq!(
        atomic_write_next(AtomicWriteStep::CompareExisting, StepOutcome::Failed, false, options),
        AtomicWriteStep::RemoveStaleTemp
    );
}
