use rolldown_dx_cache::codec::{declared_string_count_fits_remaining, read_counted_strings};
use rolldown_dx_cache::digest::blake3_hex_matches_hash;
use rolldown_dx_cache::machine_cache::{DxMachineCacheConfig, FileRead, MachineCacheFiles};
use rolldown_dx_cache::machine_write::MachineArtifactWrite;
use rolldown_dx_cache::path_text::PathStyle;
use rolldown_dx_cache::tsconfig::{
    declared_path_mapping_count_fits_remaining, decode_dx_tsconfig_machine_payload,
    decode_dx_tsconfig_machine_payload_with_source_hash,
    dx_tsconfig_machine_payload_layout_is_valid, encode_dx_tsconfig_machine_payload,
    read_optional_path_mappings, DxTsconfigCompilerOptionsPayload, DxTsconfigMachinePayload,
    DxTsconfigPathMappingPayload, DX_TSCONFIG_MACHINE_SCHEMA, DX_TSCONFIG_SOURCE_HASH_LEN,
};
use rolldown_dx_cache::tsconfig_cache::{
    dx_machine_cache_project_root, path_has_directory, read_dx_tsconfig_machine_cache,
    repair_source_hash_for, read_dx_tsconfig_machine_cache_or_repair_hash, tsconfig_file_path_is_dx_cache_eligible,
    tsconfig_preflight_json, tsconfig_source_has_external_dependencies,
    write_dx_tsconfig_machine_cache, NearestStep, TsconfigCache, TsconfigParts, TsconfigTopLevel,
    DxTsconfigRepair, DX_TSCONFIG_MACHINE_MIN_SOURCE_BYTES,
};

fn top_level(source: &[u8]) -> Option<TsconfigTopLevel> {
    let json = tsconfig_preflight_json(source);
    let value: serde_json::Value = serde_json::from_slice(&json).ok()?;
    Some(match value.as_object() {
        Some(entries) => TsconfigTopLevel::Object(entries.keys().cloned().collect()),
        None => TsconfigTopLevel::Other,
    })
}

fn depends_on_others(source: &[u8]) -> bool {
    tsconfig_source_has_external_dependencies(&top_level(source))
}

fn parts(jsx: &str) -> TsconfigParts {
    TsconfigParts {
        files: None,
        included: Some(vec!["src".to_string()]),
        exclude: None,
        compiler_options: DxTsconfigCompilerOptionsPayload {
            jsx: Some(jsx.to_string()),
            ..Default::default()
        },
    }
}

fn config() -> DxMachineCacheConfig {
    DxMachineCacheConfig::from_env_value("/project", Some("1".to_string()), PathStyle::Unix)
}

fn large_source() -> Vec<u8> {
    let mut source = br#"{"compilerOptions":{"jsx":"react-jsx"},"include":["src"]}"#.to_vec();
    while source.len() <= DX_TSCONFIG_MACHINE_MIN_SOURCE_BYTES {
        source.push(b' ');
    }
    source
}

fn files_of(write: &MachineArtifactWrite) -> MachineCacheFiles {
    MachineCacheFiles {
        metadata: FileRead::Bytes(write.metadata.bytes.clone()),
        parsed: None,
        machine: FileRead::Bytes(write.machine.bytes.clone()),
    }
}

#[test]
fn test_cache_creation() {
    let cache = TsconfigCache::new(false);
    assert_eq!(cache.size(), 0);
}

#[test]
fn test_cache_clear() {
    let mut cache = TsconfigCache::new(false);
    cache.take_resolved_tsconfig("/src/tsconfig.json", 0, PathStyle::Unix);
    assert_eq!(cache.size(), 1);
    cache.clear();
    assert_eq!(cache.size(), 0);
    assert!(cache.loaded("/src/tsconfig.json", PathStyle::Unix).is_none());
}

#[test]
fn tsconfig_machine_payload_rejects_impossible_string_vec_count_before_reserve() {
    let mut machine_bytes = Vec::new();
    machine_bytes.extend_from_slice(&16_u32.to_le_bytes());
    let mut cursor = 4;

    assert!(!declared_string_count_fits_remaining(&machine_bytes, cursor, 16));
    assert!(read_counted_strings(&machine_bytes, &mut cursor, 16).is_none());
}

#[test]
fn tsconfig_machine_payload_rejects_impossible_path_mapping_count_before_reserve() {
    let mut machine_bytes = Vec::new();
    machine_bytes.extend_from_slice(&16_u32.to_le_bytes());
    let mut cursor = 0;

    assert!(!declared_path_mapping_count_fits_remaining(&machine_bytes, cursor + 4, 16));
    assert!(read_optional_path_mappings(&machine_bytes, &mut cursor).is_none());
}

#[test]
fn tsconfig_machine_source_hash_matches_without_allocating_expected_string() {
    let source = br#"{"compilerOptions":{"jsx":"react-jsx"}}"#;
    let source_hash = blake3::hash(source);
    let source_hash_hex = source_hash.to_hex().to_string();
    let payload = DxTsconfigMachinePayload::from_tsconfig(parts("react-jsx"), source);

    assert_eq!(payload.source_blake3, *source_hash.as_bytes());
    assert!(payload.to_tsconfig("/project/tsconfig.json", source).is_some());
    assert!(blake3_hex_matches_hash(&source_hash_hex, source_hash.as_bytes()));
    assert!(!blake3_hex_matches_hash(
        &source_hash_hex.to_ascii_uppercase(),
        source_hash.as_bytes()
    ));
    assert!(payload
        .to_tsconfig(
            "/project/tsconfig.json",
            br#"{"compilerOptions":{"jsx":"preserve"}}"#
        )
        .is_none());
}

#[test]
fn tsconfig_machine_payload_direct_json_writer_escapes_strings_and_preserves_empty_values() {
    let payload = DxTsconfigMachinePayload {
        schema: DX_TSCONFIG_MACHINE_SCHEMA,
        source_blake3: [0; DX_TSCONFIG_SOURCE_HASH_LEN],
        files: Some(vec![]),
        included: None,
        exclude: Some(vec![
            "quote\"dir".to_string(),
            "line\nbreak".to_string(),
            "unicode-নদী".to_string(),
        ]),
        compiler_options: DxTsconfigCompilerOptionsPayload {
            base_url: Some(r#"G:\Dx\quote\"#.to_string()),
            paths: Some(vec![DxTsconfigPathMappingPayload {
                key: "@scope/*\n".to_string(),
                values: vec!["src\\quote\"/*".to_string(), "নদী".to_string()],
            }]),
            experimental_decorators: Some(false),
            use_define_for_class_fields: Some(false),
            root_dirs: Some(vec![]),
            ..Default::default()
        },
    };

    let json = payload.to_tsconfig_json_string().unwrap();
    let parsed: serde_json::Value = serde_json::from_str(&json).unwrap();
    let compiler_options = parsed.get("compilerOptions").unwrap();
    let paths = compiler_options.get("paths").unwrap();
    let scoped_values = paths.get("@scope/*\n").unwrap().as_array().unwrap();

    assert_eq!(parsed.get("files").unwrap().as_array().unwrap().len(), 0);
    assert!(parsed.get("include").is_none());
    assert_eq!(parsed["exclude"][0], "quote\"dir");
    assert_eq!(parsed["exclude"][1], "line\nbreak");
    assert_eq!(compiler_options["baseUrl"], r#"G:\Dx\quote\"#);
    assert_eq!(compiler_options["experimentalDecorators"], false);
    assert_eq!(compiler_options["useDefineForClassFields"], false);
    assert_eq!(compiler_options["rootDirs"].as_array().unwrap().len(), 0);
    assert_eq!(scoped_values[0], "src\\quote\"/*");
    assert_eq!(scoped_values[1], "নদী");
}

#[test]
fn tsconfig_machine_cache_skips_extends_and_references_sources() {
    assert!(depends_on_others(br#"{"extends":"./base.json"}"#));
    assert!(depends_on_others(br#"{"references":[{"path":"./subproject"}]}"#));
    assert!(depends_on_others(br#"{"extends":null}"#));
    assert!(depends_on_others(br#"{"references":false}"#));
    assert!(depends_on_others(br#"{"exte\u006eds":"./base.json"}"#));
    assert!(!depends_on_others(br#"{"compilerOptions":{"jsx":"react-jsx"}}"#));
    assert!(!depends_on_others(
        br#"{"compilerOptions":{"extends":"not-top-level","references":[]}}"#
    ));
    assert!(!depends_on_others(br#"[{"extends":"not-top-level"}]"#));
    assert!(!depends_on_others(br#"null"#));
    assert!(!depends_on_others(
        "\u{feff}{\"compilerOptions\":{\"jsx\":\"react-jsx\"}}".as_bytes()
    ));
    assert!(depends_on_others(
        b"{\n// keep cache off for external graph\n\"extends\":\"./base.json\"\n}"
    ));
    assert!(depends_on_others(b"{"));
}

#[test]
fn tsconfig_dependency_preflight_avoids_full_json_value_tree_for_local_configs() {
    assert!(!depends_on_others(
        br#"{
        "compilerOptions": {
          "paths": {
            "@local/extends": ["src/extends.ts"]
          }
        },
        "include": ["src"]
      }"#
    ));
}

#[test]
fn preflight_strips_comments_and_the_byte_order_mark() {
    assert_eq!(
        tsconfig_preflight_json("\u{feff}{/* a */\"b\":1,}".as_bytes()),
        b"   {       \"b\":1 }"
    );
}

#[test]
fn payload_round_trips_for_its_source_alone() {
    let source = br#"{"include":["src"]}"#;
    let payload = DxTsconfigMachinePayload::from_tsconfig(parts("preserve"), source);
    let bytes = encode_dx_tsconfig_machine_payload(&payload).unwrap();

    assert!(bytes.starts_with(b"RDXTSC03"));
    assert_eq!(decode_dx_tsconfig_machine_payload(&bytes), Some(payload.clone()));
    assert_eq!(
        decode_dx_tsconfig_machine_payload_with_source_hash(
            &bytes,
            blake3::hash(source).as_bytes()
        ),
        Some(payload)
    );
    assert_eq!(
        decode_dx_tsconfig_machine_payload_with_source_hash(
            &bytes,
            blake3::hash(b"{}").as_bytes()
        ),
        None
    );
    assert_eq!(decode_dx_tsconfig_machine_payload(&bytes[..bytes.len() - 1]), None);
}

#[test]
fn written_tsconfig_is_read_back() {
    let source = large_source();
    let path = "/project/tsconfig.json";
    let write = write_dx_tsconfig_machine_cache(
        &config(),
        "/project",
        path,
        &source,
        &top_level(&source),
        parts("react-jsx"),
    )
    .unwrap();
    let read = read_dx_tsconfig_machine_cache(
        &config(),
        "/project",
        path,
        &source,
        files_of(&write),
    )
    .unwrap();
    assert_eq!(read.path, path);
    assert_eq!(read.config.compiler_options.jsx.as_deref(), Some("react-jsx"));
}

#[test]
fn tsconfig_that_extends_another_is_not_written() {
    let mut source = large_source();
    source[1..10].copy_from_slice(b"\"extends\"");
    assert!(write_dx_tsconfig_machine_cache(
        &config(),
        "/project",
        "/project/tsconfig.json",
        &source,
        &Some(TsconfigTopLevel::Object(vec!["extends".to_string()])),
        parts("react-jsx"),
    )
    .is_none());
}

#[test]
fn tsconfig_payload_that_cannot_be_read_is_mended() {
    let source = large_source();
    let path = "/project/tsconfig.json";
    let paths = config().paths_for_source("/project", "tsconfig_metadata", path);
    let broken = config().write_machine_artifact(&paths, path, &source, b"no payload").unwrap();
    let read = read_dx_tsconfig_machine_cache_or_repair_hash(
        &config(),
        "/project",
        path,
        &source,
        files_of(&broken),
    )
    .unwrap();
    assert!(read.tsconfig.is_none());
    assert_eq!(read.repair_source_hash, Some(*blake3::hash(&source).as_bytes()));
}

#[test]
fn files_below_node_modules_are_not_eligible() {
    assert!(tsconfig_file_path_is_dx_cache_eligible("/project/src/a.ts", PathStyle::Unix));
    assert!(!tsconfig_file_path_is_dx_cache_eligible(
        "/project/node_modules/pkg/a.ts",
        PathStyle::Unix
    ));
    assert!(!tsconfig_file_path_is_dx_cache_eligible("src/a.ts", PathStyle::Unix));
    assert!(tsconfig_file_path_is_dx_cache_eligible(r"G:\Dx\src\a.ts", PathStyle::Windows));
}

#[test]
fn project_root_falls_back_to_the_directory_of_the_file() {
    assert_eq!(
        dx_machine_cache_project_root("/a/b.json", Some("/cwd".to_string()), PathStyle::Unix),
        "/cwd"
    );
    assert_eq!(dx_machine_cache_project_root("/a/b.json", None, PathStyle::Unix), "/a");
    assert_eq!(dx_machine_cache_project_root("", None, PathStyle::Unix), ".");
}

fn nearest(cache: &mut TsconfigCache, file: &str, files: &[&str]) -> (Option<String>, usize) {
    let mut probes = 0;
    let Some(mut search) = cache.begin_nearest_search(file, &None, PathStyle::Unix) else {
        return (None, 0);
    };
    loop {
        let probe = search.probe();
        probes += 1;
        match cache.nearest_search_step(search, files.contains(&probe.as_str())) {
            NearestStep::Found(path) => return (Some(path), probes),
            NearestStep::Probe(next) => search = next,
            NearestStep::NotFound => return (None, probes),
        }
    }
}

#[test]
fn nearest_tsconfig_is_found_and_remembered() {
    let mut cache = TsconfigCache::new(false);
    let files = ["/project/tsconfig.json", "/project/a/tsconfig.json"];
    let (found, probes) = nearest(&mut cache, "/project/a/b/c/file.ts", &files);
    assert_eq!(found.as_deref(), Some("/project/a/tsconfig.json"));
    assert_eq!(probes, 3);
    let (again, _) = nearest(&mut cache, "/project/a/b/c/other.ts", &files);
    assert_eq!(again.as_deref(), Some("/project/a/tsconfig.json"));
    let (missing, _) = nearest(&mut cache, "/elsewhere/file.ts", &files);
    assert_eq!(missing, None);
}

#[test]
fn a_closer_tsconfig_replaces_a_remembered_one() {
    let mut cache = TsconfigCache::new(false);
    let (found, _) = nearest(&mut cache, "/project/a/file.ts", &["/project/tsconfig.json"]);
    assert_eq!(found.as_deref(), Some("/project/tsconfig.json"));
    let (closer, _) = nearest(
        &mut cache,
        "/project/a/file.ts",
        &["/project/tsconfig.json", "/project/a/tsconfig.json"],
    );
    assert_eq!(closer.as_deref(), Some("/project/a/tsconfig.json"));
}

#[test]
fn loaded_tsconfigs_keep_their_first_handle() {
    let mut cache = TsconfigCache::new(true);
    assert!(cache.yarn_pnp());
    assert!(cache.take_resolved_tsconfig("/a/tsconfig.json", 0, PathStyle::Unix).is_new);
    let again = cache.take_resolved_tsconfig("/a/tsconfig.json", 1, PathStyle::Unix);
    assert_eq!((again.handle, again.is_new), (0, false));
    assert_eq!(cache.loaded("/a/tsconfig.json", PathStyle::Unix), Some(0));

    let source = large_source();
    let write = write_dx_tsconfig_machine_cache(
        &config(),
        "/project",
        "/project/tsconfig.json",
        &source,
        &top_level(&source),
        parts("react-jsx"),
    )
    .unwrap();
    let read = read_dx_tsconfig_machine_cache_or_repair_hash(
        &config(),
        "/project",
        "/project/tsconfig.json",
        &source,
        files_of(&write),
    );
    let lookup = cache.take_dx_tsconfig("/project/tsconfig.json", &read, 2, PathStyle::Unix);
    assert_eq!(lookup.tsconfig, Some(2));
    assert!(lookup.repair.is_none());
    assert_eq!(cache.loaded("/project/tsconfig.json", PathStyle::Unix), Some(2));
    assert_eq!(cache.size(), 2);
}

#[test]
fn paths_inside_a_directory_are_told_apart() {
    for path in ["/project/tsconfig.json", "tsconfig.json", r"G:\tsconfig.json", "/a"] {
        assert!(path_has_directory(path), "{path}");
    }
    for path in ["", "/", "G:", r"\\server\share", r"\\?\UNC\server\share"] {
        assert!(!path_has_directory(path), "{path}");
    }
}

#[test]
fn lookups_go_to_the_cache_only_for_eligible_files() {
    let enabled = Some("1".to_string());
    let lookup = |path: &str, env: &Option<String>| {
        TsconfigCache::dx_lookup_config(path, "/project", env.clone(), PathStyle::Unix)
    };
    let config = lookup("/project/src/a.ts", &enabled).unwrap();
    assert!(config.enabled);
    assert_eq!(config.root, "/project/.dx/rolldown");
    assert!(lookup("/project/src/a.ts", &None).is_none());
    assert!(lookup("src/a.ts", &enabled).is_none());
}

#[test]
fn a_repair_is_for_its_own_tsconfig() {
    let repair = Some(DxTsconfigRepair {
        tsconfig_path: "/project/tsconfig.json".to_string(),
        source_hash: [7; 32],
    });
    assert_eq!(repair_source_hash_for(&repair, "/project/tsconfig.json", PathStyle::Unix), Some([7; 32]));
    assert_eq!(repair_source_hash_for(&repair, "/other/tsconfig.json", PathStyle::Unix), None);
    assert_eq!(repair_source_hash_for(&None, "/project/tsconfig.json", PathStyle::Unix), None);
}

#[test]
fn spellings_of_a_tsconfig_path_share_one_entry() {
    let mut cache = TsconfigCache::new(false);
    assert!(cache.take_resolved_tsconfig("/p/tsconfig.json", 0, PathStyle::Unix).is_new);
    let again = cache.take_resolved_tsconfig("/p//./tsconfig.json", 1, PathStyle::Unix);
    assert!(!again.is_new);
    assert_eq!(again.handle, 0);
    assert_eq!(cache.loaded("/p//tsconfig.json", PathStyle::Unix), Some(0));
    assert_eq!(cache.loaded("p/tsconfig.json", PathStyle::Unix), None);
    assert_eq!(cache.size(), 1);

    let mut cache = TsconfigCache::new(false);
    assert!(cache.take_resolved_tsconfig(r"C:\p\tsconfig.json", 0, PathStyle::Windows).is_new);
    assert_eq!(cache.loaded("c:/p/tsconfig.json", PathStyle::Windows), Some(0));
    assert_eq!(cache.loaded("d:/p/tsconfig.json", PathStyle::Windows), None);
    assert_eq!(cache.loaded("c:p/tsconfig.json", PathStyle::Windows), None);
    assert_eq!(cache.size(), 1);
}

#[test]
fn repair_is_for_the_path_in_any_spelling() {
    let repair = Some(DxTsconfigRepair {
        tsconfig_path: "/project/tsconfig.json".to_string(),
        source_hash: [7; 32],
    });
    assert_eq!(
        repair_source_hash_for(&repair, "/project//tsconfig.json", PathStyle::Unix),
        Some([7; 32])
    );
    assert_eq!(
        repair_source_hash_for(&repair, r"\project\tsconfig.json", PathStyle::Windows),
        Some([7; 32])
    );
    assert_eq!(repair_source_hash_for(&repair, "project/tsconfig.json", PathStyle::Unix), None);
}

#[test]
fn layout_of_a_short_payload_is_refused() {
    let mut bytes = b"RDXTSC03".to_vec();
    bytes.extend_from_slice(&[0; 4]);
    for _ in 12..44 {
        assert!(!dx_tsconfig_machine_payload_layout_is_valid(&bytes));
        assert!(decode_dx_tsconfig_machine_payload(&bytes).is_none());
        bytes.push(0);
    }
}
