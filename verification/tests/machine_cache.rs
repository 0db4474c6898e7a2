use std::borrow::Cow;

use rolldown_dx_cache::cache_name::{
    cache_artifact_file_name, cache_path_identity, cache_stem, cache_stem_len, flatten_path,
    flatten_path_len, path_identity, path_identity_component, path_identity_digest,
    path_identity_hash, path_identity_len, readable_cache_stem_parts, sanitize_path_component,
    truncate_ascii_prefix,
    DX_MACHINE_CACHE_STEM_MAX_BYTES,
};
use rolldown_dx_cache::decimal::{decimal_usize_len, push_decimal_usize_json};
use rolldown_dx_cache::digest::{
    blake3_hex_matches_hash, push_blake3_hex, short_blake3_hex, BLAKE3_HEX_LEN,
};
use rolldown_dx_cache::json_escape::{json_escape, json_escape_extra_len, json_escaped_len};
use rolldown_dx_cache::machine_cache::{
    env_value_enables_dx_machine_cache, finish_validated_read, parse_machine_metadata_document,
    validate_machine_metadata, DxMachineCacheConfig, DxMachineCacheStatus, FileRead,
    MachineCacheFiles, MachineReadPlan, DX_MACHINE_METADATA_MAX_BYTES,
};
use rolldown_dx_cache::machine_write::{
    atomic_temp_file_name, atomic_temp_path, chunk_continues, read_file_initial_capacity,
    reader_matches_bytes, DxMachineCacheWriteOptions,
};
use rolldown_dx_cache::metadata::{
    json_escape_path, json_escaped_path_len, machine_metadata_json,
    parse_canonical_machine_metadata_document, push_json_escape_path, push_modified_unix_ms_json,
    recorded_metadata_path, MachineMetadataEntry, ModifiedUnixMsJson, DX_MACHINE_METADATA_SCHEMA,
};
use rolldown_dx_cache::path_text::{
    common_windows_metadata_path_bytes_match, machine_source_path as path_below,
    metadata_path_matches,
    normalize_metadata_path_components, normalized_metadata_path_len,
    normalized_metadata_paths_match, PathStyle,
};

const WINDOWS: PathStyle = PathStyle::Windows;

fn machine_files(metadata: &str, machine: &[u8]) -> MachineCacheFiles {
    MachineCacheFiles {
        metadata: FileRead::Bytes(metadata.as_bytes().to_vec()),
        parsed: None,
        machine: FileRead::Bytes(machine.to_vec()),
    }
}

fn validated(
    metadata: &str,
    source_path: &str,
    source_bytes: &[u8],
    machine_path: &str,
    machine_bytes: &[u8],
) -> DxMachineCacheStatus<()> {
    validate_machine_metadata(
        metadata,
        None,
        source_path,
        source_bytes,
        machine_path,
        machine_bytes,
        WINDOWS,
    )
}

#[test]
fn config_is_disabled_without_env_value() {
    let config = DxMachineCacheConfig::from_env_value(r"G:\Dx\build", None, WINDOWS);

    assert!(!config.enabled);
    assert_eq!(config.root, r"G:\Dx\build/.dx/rolldown");
}

#[test]
fn env_value_parser_handles_trimmed_mixed_case_falsey_values_without_owned_lowercase() {
    assert!(!env_value_enables_dx_machine_cache(" \tOFF\r\n"));
    assert!(!env_value_enables_dx_machine_cache(" \tFaLsE\r\n"));
    assert!(env_value_enables_dx_machine_cache(" \t1\r\n"));
}

#[test]
fn env_value_parser_disables_all_trimmed_falsey_spellings() {
    for value in ["   ", " 0 ", "\tfalse\n", "\tFALSE\n", " off ", " OFF ", " no ", " NO "] {
        assert!(!env_value_enables_dx_machine_cache(value), "{value:?} should disable cache");
    }

    for value in ["1", "true", "yes", "enabled", "random"] {
        assert!(env_value_enables_dx_machine_cache(value), "{value:?} should enable cache");
    }
}

#[test]
fn env_value_trims_unicode_white_space() {
    assert!(!env_value_enables_dx_machine_cache("\u{00a0}\u{2003}off\u{3000}"));
    assert!(env_value_enables_dx_machine_cache("\u{200b}off"));
}

#[test]
fn unsynced_cache_write_env_defaults_to_sync_writes() {
    assert!(DxMachineCacheWriteOptions::from_env_value(None).sync_writes);
}

#[test]
fn unsynced_cache_writes_follow_the_environment() {
    assert!(!DxMachineCacheWriteOptions::from_env_value(Some("1".to_string())).sync_writes);
    assert!(DxMachineCacheWriteOptions::from_env_value(Some("off".to_string())).sync_writes);
    assert!(DxMachineCacheWriteOptions::default().sync_writes);
}

#[test]
fn flatten_path_preallocates_exact_len_without_component_vec() {
    let path = r"node_modules\@scope/pkg/.\package.json";
    let flattened = flatten_path(path, PathStyle::Windows);

    assert_eq!(flattened, "node_modules-scope-pkg-package-json");
    assert_eq!(flatten_path_len(path, PathStyle::Windows), flattened.len());
    assert_eq!(flattened.capacity(), flattened.len());
}

#[test]
fn sanitize_path_component_borrows_already_sanitized_namespace() {
    assert!(matches!(
        sanitize_path_component("package_json_metadata"),
        Cow::Borrowed("package_json_metadata")
    ));
    assert!(matches!(sanitize_path_component("json_module"), Cow::Borrowed("json_module")));
    assert!(matches!(
        sanitize_path_component("Package JSON"),
        Cow::Owned(value) if value == "package-json"
    ));
    assert!(matches!(sanitize_path_component(""), Cow::Owned(value) if value == "path"));
}

#[test]
fn cache_stem_preallocates_exact_len_without_prefix_suffix_format_growth() {
    let path = r"node_modules\@scope/pkg/package.json";
    let stem = cache_stem("package_json_metadata", path, PathStyle::Windows);

    assert!(stem.starts_with("package_json_metadata__node_modules-scope-pkg-package-json--"));
    assert_eq!(cache_stem_len("package_json_metadata", path, PathStyle::Windows), stem.len());
    assert_eq!(stem.capacity(), stem.len());
}

#[test]
fn cache_artifact_file_name_preallocates_exact_len_without_format_growth() {
    let file_name = cache_artifact_file_name("package-json--abcdef123456", ".machine.meta.json");

    assert_eq!(file_name, "package-json--abcdef123456.machine.meta.json");
    assert_eq!(file_name.capacity(), file_name.len());
}

#[test]
fn cache_stem_caps_overlong_namespace_with_source_fallback() {
    let namespace = "very_long_namespace_segment_".repeat(20);
    let stem = cache_stem(&namespace, "package.json", PathStyle::Windows);

    assert!(stem.len() <= DX_MACHINE_CACHE_STEM_MAX_BYTES);
    assert!(stem.contains("__source--"));
    assert_eq!(cache_stem_len(&namespace, "package.json", PathStyle::Windows), stem.len());
    assert_eq!(stem.capacity(), stem.len());
}

#[test]
fn cache_path_identity_matches_flattened_path_and_hash_without_extra_identity_string() {
    for path in ["", r"node_modules\@scope/pkg/.\package.json", r"src\Data\countries.JSON"] {
        let identity = cache_path_identity(path, PathStyle::Windows);

        assert_eq!(identity.flattened_path, flatten_path(path, PathStyle::Windows));
        assert_eq!(identity.flattened_path.capacity(), identity.flattened_path.len());
        assert_eq!(identity.path_hash, path_identity_hash(path, PathStyle::Windows));
    }
}

#[test]
fn path_identity_hash_is_stable_across_separator_spellings() {
    assert_eq!(
        path_identity_hash(r"src\data.json", PathStyle::Windows),
        path_identity_hash("src/data.json", PathStyle::Windows)
    );
    assert_eq!(
        path_identity_hash(r"src\data.json", PathStyle::Unix),
        path_identity_hash("src/data.json", PathStyle::Unix)
    );
}

#[test]
fn path_identity_digest_matches_materialized_identity_without_identity_string_allocation() {
    for path in ["", r"node_modules\@scope/pkg/.\package.json", r"src\Data\countries.JSON"] {
        let materialized = path_identity(path, PathStyle::Windows);
        let expected = blake3::hash(materialized.as_bytes());

        assert_eq!(&path_identity_digest(path, PathStyle::Windows), expected.as_bytes());
        assert_eq!(
            path_identity_hash(path, PathStyle::Windows),
            short_blake3_hex(materialized.as_bytes())
        );
    }
}

#[test]
fn path_identity_digest_normalizes_backslashes_inside_component_values() {
    let component = path_identity_component(r"Pkg\Name.JSON");

    assert_eq!(blake3::hash(component.as_bytes()), blake3::hash(b"pkg/name.json"));
}

#[test]
fn cache_stem_suffix_matches_streamed_path_identity_hash() {
    let path = r"node_modules\@scope/pkg/.\package.json";
    let stem = cache_stem("package_json_metadata", path, PathStyle::Windows);
    let expected_suffix = format!("--{}", path_identity_hash(path, PathStyle::Windows));

    assert!(stem.ends_with(&expected_suffix));
}

#[test]
fn path_identity_preallocates_exact_len_without_component_vec() {
    let path = r"node_modules\@scope/pkg/.\package.json";
    let identity = path_identity(path, PathStyle::Windows);

    assert_eq!(identity, "node_modules/@scope/pkg/package.json");
    assert_eq!(path_identity_len(path, PathStyle::Windows), identity.len());
    assert_eq!(identity.capacity(), identity.len());
}

#[test]
fn short_blake3_hex_matches_digest_prefix_without_full_hex_allocation() {
    let input = b"src/data.json";
    let expected = blake3::hash(input).to_hex().to_string();
    let short = short_blake3_hex(input);

    assert_eq!(short, &expected[..12]);
    assert_eq!(short.len(), 12);
    assert_eq!(short.capacity(), 12);
}

#[test]
fn push_blake3_hex_appends_lowercase_digest_without_to_hex_output() {
    let hash = blake3::hash(b"metadata bytes");
    let expected = hash.to_hex().to_string();
    let mut output = String::with_capacity("source:".len() + BLAKE3_HEX_LEN + ";".len());

    output.push_str("source:");
    push_blake3_hex(&mut output, hash.as_bytes());
    output.push(';');

    assert_eq!(output, format!("source:{expected};"));
    assert_eq!(output.capacity(), output.len());
}

#[test]
fn push_decimal_json_appends_metadata_numbers_without_format_write() {
    let mut bytes_output = String::with_capacity("bytes:".len() + decimal_usize_len(123_456));
    bytes_output.push_str("bytes:");
    push_decimal_usize_json(&mut bytes_output, 123_456);

    assert_eq!(bytes_output, "bytes:123456");
    assert_eq!(bytes_output.capacity(), bytes_output.len());

    let modified = ModifiedUnixMsJson(Some(1_780_050_000_000));
    let mut modified_output = String::with_capacity("modified:".len() + modified.json_len());
    modified_output.push_str("modified:");
    push_modified_unix_ms_json(&mut modified_output, &modified);

    assert_eq!(modified_output, "modified:1780050000000");
    assert_eq!(modified_output.capacity(), modified_output.len());

    let missing = ModifiedUnixMsJson(None);
    let mut missing_output = String::with_capacity("modified:".len() + missing.json_len());
    missing_output.push_str("modified:");
    push_modified_unix_ms_json(&mut missing_output, &missing);

    assert_eq!(missing_output, "modified:null");
    assert_eq!(missing_output.capacity(), missing_output.len());
}

#[test]
fn blake3_hex_matches_bytes_without_full_hex_allocation() {
    let input = b"machine bytes";
    let expected = blake3::hash(input).to_hex().to_string();

    assert!(blake3_hex_matches_hash(&expected, blake3::hash(input).as_bytes()));
    assert!(!blake3_hex_matches_hash(
        &expected,
        blake3::hash(b"changed machine bytes").as_bytes()
    ));
    assert!(!blake3_hex_matches_hash(
        &expected.to_ascii_uppercase(),
        blake3::hash(input).as_bytes()
    ));
    assert!(!blake3_hex_matches_hash("not-a-blake3-hash", blake3::hash(input).as_bytes()));
}

#[test]
fn validate_metadata_entry_bytes_with_known_hash_shape_checks_len_and_hash() {
    let bytes = b"machine bytes";
    let hash = blake3::hash(bytes).to_hex().to_string();
    let plan = |len: u64| MachineReadPlan {
        machine: MachineMetadataEntry {
            path: r"G:\Dx\build\.dx\rolldown\machine.machine".to_string(),
            bytes: len,
            blake3: hash.clone(),
        },
        source_hash: [7; 32],
    };
    let file = |content: &[u8]| FileRead::Bytes(content.to_vec());
    let len = bytes.len() as u64;

    assert!(matches!(
        finish_validated_read(plan(len), file(bytes)),
        DxMachineCacheStatus::Hit(hit) if hit.machine_bytes == bytes && hit.source_hash == [7; 32]
    ));
    assert!(matches!(
        finish_validated_read(plan(len), file(b"machine bytez")),
        DxMachineCacheStatus::Invalid
    ));
    assert!(matches!(
        finish_validated_read(plan(len + 1), file(bytes)),
        DxMachineCacheStatus::Invalid
    ));
}

#[test]
fn finished_read_tells_a_missing_file_from_a_broken_one() {
    let plan = || MachineReadPlan {
        machine: MachineMetadataEntry {
            path: "a.machine".to_string(),
            bytes: 1,
            blake3: blake3::hash(b"x").to_hex().to_string(),
        },
        source_hash: [0; 32],
    };

    assert!(matches!(
        finish_validated_read(plan(), FileRead::NotFound),
        DxMachineCacheStatus::Miss
    ));
    assert!(matches!(
        finish_validated_read(plan(), FileRead::OpenFailed),
        DxMachineCacheStatus::Invalid
    ));
    assert!(matches!(
        finish_validated_read(plan(), FileRead::ReadFailed),
        DxMachineCacheStatus::Miss
    ));
}

#[test]
fn atomic_temp_file_name_preallocates_exact_len_without_format_growth() {
    let file_name = atomic_temp_file_name("package-json.machine", 12_345, 67_890);

    assert_eq!(file_name, "package-json.machine.12345.67890.tmp");
    assert_eq!(file_name.capacity(), file_name.len());
}

#[test]
fn atomic_temp_path_stays_in_the_directory_of_the_file() {
    assert_eq!(
        atomic_temp_path("/cache/package-json.machine", 12, 3),
        "/cache/package-json.machine.12.3.tmp"
    );
}

#[test]
fn reader_matches_bytes_short_circuits_on_first_mismatch() {
    let chunks: Vec<Vec<u8>> = b"xame machine bytes".iter().map(|byte| vec![*byte]).collect();

    assert!(!reader_matches_bytes(&chunks, b"same machine bytes"));
    assert_eq!(chunk_continues(b"same machine bytes", 0, &chunks[0]), None);
}

#[test]
fn reader_matches_bytes_rejects_short_and_trailing_reads() {
    let short_reader = vec![b"same machine".to_vec()];
    assert!(!reader_matches_bytes(&short_reader, b"same machine bytes"));

    let trailing_reader = vec![b"same machine bytes plus trailing".to_vec()];
    assert!(!reader_matches_bytes(&trailing_reader, b"same machine bytes"));
}

#[test]
fn reader_matches_bytes_across_chunks() {
    let chunks = vec![b"same ".to_vec(), Vec::new(), b"machine bytes".to_vec()];
    assert!(reader_matches_bytes(&chunks, b"same machine bytes"));
}

#[test]
fn read_file_initial_capacity_is_bounded() {
    assert_eq!(read_file_initial_capacity(10, 100), 10);
    assert_eq!(read_file_initial_capacity(1_000, 100), 100);
    assert_eq!(read_file_initial_capacity(10_000_000, 20_000_000), 262_144);
}

#[test]
fn metadata_validation_hits_when_source_and_machine_hashes_match() {
    let source_path = r"G:\Dx\build\package.json";
    let machine_path = r"G:\Dx\build\.dx\rolldown\package-json.machine";
    let source_bytes = br#"{"name":"rolldown"}"#;
    let machine_bytes = b"machine";
    let metadata =
        machine_metadata_json(source_path, source_bytes, machine_path, machine_bytes, WINDOWS);

    assert_eq!(
        validated(&metadata, source_path, source_bytes, machine_path, machine_bytes),
        DxMachineCacheStatus::Hit(())
    );
}

#[test]
fn metadata_document_deserializes_borrowed_fields() {
    let source_path = r"G:\Dx\build\package.json";
    let machine_path = r"G:\Dx\build\.dx\rolldown\package-json.machine";
    let source_bytes = br#"{"name":"rolldown"}"#;
    let machine_bytes = b"machine";
    let metadata =
        machine_metadata_json(source_path, source_bytes, machine_path, machine_bytes, WINDOWS);

    let document = parse_machine_metadata_document(metadata.as_bytes(), None).unwrap();

    assert_eq!(document.schema, DX_MACHINE_METADATA_SCHEMA);
    assert_eq!(document.source.path, recorded_metadata_path(source_path, WINDOWS));
    assert_eq!(document.source.bytes, source_bytes.len() as u64);
    assert_eq!(document.machine.bytes, machine_bytes.len() as u64);
    assert!(document.cache.rebuildable);
    assert!(document.cache.fallback_on_mismatch);
}

#[test]
fn metadata_document_parses_canonical_writer_output_without_serde_fallback() {
    let source_path = r"G:\Dx\build\package.json";
    let machine_path = r"G:\Dx\build\.dx\rolldown\package-json.machine";
    let source_bytes = br#"{"name":"rolldown"}"#;
    let machine_bytes = b"machine";
    let metadata =
        machine_metadata_json(source_path, source_bytes, machine_path, machine_bytes, WINDOWS);

    let document = parse_canonical_machine_metadata_document(metadata.as_bytes()).unwrap();

    assert_eq!(document.source.path, "G:/Dx/build/package.json");
    assert_eq!(document.source.blake3, blake3::hash(source_bytes).to_hex().as_str());
    assert_eq!(document.machine.path, "G:/Dx/build/.dx/rolldown/package-json.machine");
    assert_eq!(document.machine.blake3, blake3::hash(machine_bytes).to_hex().as_str());
}

#[test]
fn metadata_document_parses_common_windows_writer_paths_as_borrowed_slashes() {
    let source_path = r"G:\Dx\build\package.json";
    let machine_path = r"G:\Dx\build\.dx\rolldown\package-json.machine";
    let metadata = machine_metadata_json(
        source_path,
        br#"{"name":"rolldown"}"#,
        machine_path,
        b"machine",
        WINDOWS,
    );

    let document = parse_machine_metadata_document(metadata.as_bytes(), None).unwrap();

    assert_eq!(document.source.path, "G:/Dx/build/package.json");
    assert_eq!(document.machine.path, "G:/Dx/build/.dx/rolldown/package-json.machine");
}

#[test]
fn metadata_document_parses_canonical_hashes_without_revalidating_utf8() {
    let source_path = r"G:\Dx\build\package.json";
    let machine_path = r"G:\Dx\build\.dx\rolldown\package-json.machine";
    let source_bytes = br#"{"name":"rolldown"}"#;
    let machine_bytes = b"machine";
    let metadata =
        machine_metadata_json(source_path, source_bytes, machine_path, machine_bytes, WINDOWS);

    let document = parse_machine_metadata_document(metadata.as_bytes(), None).unwrap();

    assert_eq!(document.source.blake3, blake3::hash(source_bytes).to_hex().to_string());
    assert_eq!(document.machine.blake3, blake3::hash(machine_bytes).to_hex().to_string());
}

#[test]
fn modified_unix_ms_json_formats_millis_or_null_without_temp_string() {
    assert_eq!(ModifiedUnixMsJson(Some(1234)).json_text(), "1234");
    assert_eq!(ModifiedUnixMsJson(None).json_text(), "null");
}

#[test]
fn machine_metadata_json_writes_null_modified_unix_ms_for_missing_source() {
    let metadata = machine_metadata_json(
        r"G:\Dx\build\missing-package.json",
        b"{}",
        r"G:\Dx\build\.dx\rolldown\package-json.machine",
        b"machine bytes",
        WINDOWS,
    );

    assert!(metadata.contains("    \"modified_unix_ms\": null,\n"));
}

#[test]
fn machine_metadata_json_direct_writer_matches_previous_format_output_for_missing_source() {
    let source_path = "G:\\Dx\\build\\quote\"tab\tline\nmissing-package.json";
    let machine_path = "G:\\Dx\\build\\.dx\\rolldown\\quote\"machine.machine";
    let source_bytes = b"{}";
    let machine_bytes = b"machine";

    for style in [PathStyle::Unix, PathStyle::Windows] {
        let metadata =
            machine_metadata_json(source_path, source_bytes, machine_path, machine_bytes, style);

        let expected = [
            "{\n",
            "  \"schema\": \"dx.machine.source_metadata.v1\",\n",
            "  \"source\": {\n",
            "    \"path\": \"",
            &json_escape_path(source_path, style),
            "\",\n",
            "    \"bytes\": 2,\n",
            "    \"modified_unix_ms\": null,\n",
            "    \"blake3\": \"",
            blake3::hash(source_bytes).to_hex().as_str(),
            "\"\n",
            "  },\n",
            "  \"machine\": {\n",
            "    \"path\": \"",
            &json_escape_path(machine_path, style),
            "\",\n",
            "    \"bytes\": 7,\n",
            "    \"blake3\": \"",
            blake3::hash(machine_bytes).to_hex().as_str(),
            "\"\n",
            "  },\n",
            "  \"cache\": {\n",
            "    \"rebuildable\": true,\n",
            "    \"fallback_on_mismatch\": true\n",
            "  }\n",
            "}\n",
        ]
        .concat();

        assert_eq!(metadata, expected);
    }
}

#[test]
fn machine_metadata_json_preallocates_exact_len_for_missing_source() {
    let metadata = machine_metadata_json(
        "G:\\Dx\\build\\quote\"tab\tline\nmissing-package.json",
        b"{}",
        "G:\\Dx\\build\\.dx\\rolldown\\quote\"machine.machine",
        b"machine bytes",
        WINDOWS,
    );

    assert_eq!(metadata.capacity(), metadata.len());
}

#[test]
fn json_escape_extra_len_counts_only_ascii_escape_bytes() {
    let raw = "plain🚀\\quote\"tab\tline\ncarriage\r";

    assert_eq!(json_escape_extra_len(raw), 5);
    assert_eq!(json_escaped_len(raw), raw.len() + 5);
}

#[test]
fn json_escape_preallocates_exact_escaped_len() {
    let raw = "G:\\Dx\\build\\quote\"tab\tline\npackage.json";
    let escaped = json_escape(raw);

    assert_eq!(escaped, "G:\\\\Dx\\\\build\\\\quote\\\"tab\\tline\\npackage.json");
    assert_eq!(json_escaped_len(raw), escaped.len());
    assert_eq!(escaped.capacity(), escaped.len());
}

#[test]
fn machine_metadata_json_escapes_non_whitespace_control_paths_as_valid_json() {
    let source_path = "G:\\Dx\\build\\control\u{0008}\u{001f}.json";
    let machine_path = "G:\\Dx\\build\\.dx\\rolldown\\control\u{000c}.machine";
    let escaped = json_escape("control\u{0008}\u{001f}.json");

    assert_eq!(escaped, "control\\u0008\\u001f.json");
    assert_eq!(json_escaped_len("control\u{0008}\u{001f}.json"), escaped.len());
    assert_eq!(escaped.capacity(), escaped.len());

    let metadata =
        machine_metadata_json(source_path, b"{}", machine_path, b"machine bytes", WINDOWS);
    assert!(
        parse_machine_metadata_document(metadata.as_bytes(), None).is_some(),
        "metadata with non-whitespace ASCII controls in paths must remain valid JSON"
    );
}

#[test]
fn json_escape_preserves_unicode_chunks_while_escaping_ascii_bytes() {
    let raw = "G:\\Dx\\🚀\\quote\"tab\tline\npackage.json";
    let escaped = json_escape(raw);

    assert_eq!(escaped, "G:\\\\Dx\\\\🚀\\\\quote\\\"tab\\tline\\npackage.json");
    assert_eq!(json_escaped_len(raw), escaped.len());
    assert_eq!(escaped.capacity(), escaped.len());
}

#[test]
fn json_escape_path_borrows_valid_unicode_path_text_before_escaping() {
    let path = "G:\\Dx\\build\\quote\"tab\tline\npackage.json";

    let windows = json_escape_path(path, PathStyle::Windows);
    assert_eq!(windows, "G:/Dx/build/quote\\\"tab\\tline\\npackage.json");
    assert_eq!(windows.capacity(), windows.len());

    let unix = json_escape_path(path, PathStyle::Unix);
    assert_eq!(unix, json_escape(path));
    assert_eq!(unix.capacity(), unix.len());
}

#[test]
fn push_json_escape_path_matches_json_escape_path_without_intermediate_string() {
    let path = "G:\\Dx\\build\\quote\"tab\tline\npackage.json";
    let mut escaped = String::with_capacity(json_escaped_path_len(path, WINDOWS));

    push_json_escape_path(&mut escaped, path, WINDOWS);

    assert_eq!(escaped, json_escape_path(path, WINDOWS));
    assert_eq!(escaped.capacity(), escaped.len());
}

#[test]
fn metadata_validation_accepts_equivalent_separator_spellings() {
    let source_bytes = br#"{"name":"rolldown"}"#;
    let machine_bytes = b"machine";
    let metadata = machine_metadata_json(
        "G:/Dx/build/src/data.json",
        source_bytes,
        "G:/Dx/build/.dx/rolldown/src-data-json.machine",
        machine_bytes,
        WINDOWS,
    );

    assert_eq!(
        validated(
            &metadata,
            r"G:\Dx\build\src\data.json",
            source_bytes,
            r"G:\Dx\build\.dx\rolldown\src-data-json.machine",
            machine_bytes
        ),
        DxMachineCacheStatus::Hit(())
    );
}

#[test]
fn metadata_validation_accepts_equivalent_dot_components() {
    let source_bytes = br#"{"name":"rolldown"}"#;
    let machine_bytes = b"machine";
    let metadata = machine_metadata_json(
        r"G:\Dx\build\src\.\data.json",
        source_bytes,
        r"G:\Dx\build\.dx\rolldown\.\src-data-json.machine",
        machine_bytes,
        WINDOWS,
    );

    assert_eq!(
        validated(
            &metadata,
            r"G:\Dx\build\src\data.json",
            source_bytes,
            r"G:\Dx\build\.dx\rolldown\src-data-json.machine",
            machine_bytes
        ),
        DxMachineCacheStatus::Hit(())
    );
}

#[test]
fn metadata_validation_accepts_windows_case_differences() {
    let source_bytes = br#"{"name":"rolldown"}"#;
    let machine_bytes = b"machine";
    let metadata = machine_metadata_json(
        r"G:\Dx\build\SRC\Data.JSON",
        source_bytes,
        r"G:\Dx\build\.dx\rolldown\SRC-Data-JSON.machine",
        machine_bytes,
        WINDOWS,
    );

    assert_eq!(
        validated(
            &metadata,
            r"g:\dx\build\src\data.json",
            source_bytes,
            r"g:\dx\build\.dx\rolldown\src-data-json.machine",
            machine_bytes
        ),
        DxMachineCacheStatus::Hit(())
    );
}

#[test]
fn metadata_validation_tells_case_apart_elsewhere() {
    let source_bytes = br#"{"name":"rolldown"}"#;
    let machine_bytes = b"machine";
    let metadata = machine_metadata_json(
        "/build/SRC/data.json",
        source_bytes,
        "/build/.dx/data.machine",
        machine_bytes,
        PathStyle::Unix,
    );

    assert_eq!(
        validate_machine_metadata(
            &metadata,
            None,
            "/build/src/data.json",
            source_bytes,
            "/build/.dx/data.machine",
            machine_bytes,
            PathStyle::Unix,
        ),
        DxMachineCacheStatus::Invalid
    );
}

#[test]
fn metadata_path_matches_exact_path_without_identity_normalization() {
    let runtime_path = r"G:\Dx\build\package.json";

    assert!(metadata_path_matches(runtime_path, runtime_path, PathStyle::Windows));
    assert!(metadata_path_matches(runtime_path, runtime_path, PathStyle::Unix));
}

#[test]
fn metadata_path_matches_windows_slash_form_writer_path_without_component_fallback() {
    let runtime_path = r"G:\Dx\build\src\data.json";

    assert!(metadata_path_matches("G:/Dx/build/src/data.json", runtime_path, WINDOWS));
    assert!(common_windows_metadata_path_bytes_match(
        "G:/Dx/build/src/data.json",
        runtime_path,
        WINDOWS
    ));

    assert!(metadata_path_matches("G:/Dx/build/./src/data.json", runtime_path, WINDOWS));
    assert!(!common_windows_metadata_path_bytes_match(
        "G:/Dx/build/./src/data.json",
        runtime_path,
        WINDOWS
    ));
}

#[test]
fn normalize_metadata_path_components_preallocates_exact_len() {
    let raw = r"G:\Dx//build\.\src/./data.json";
    let normalized = normalize_metadata_path_components(raw);

    assert_eq!(normalized, "G:/Dx/build/src/data.json");
    assert_eq!(normalized_metadata_path_len(raw), normalized.len());
    assert_eq!(normalized.capacity(), normalized.len());
}

#[test]
fn normalized_metadata_paths_match_windows_case_without_lowercase_identity_copy() {
    let left = r"G:\Dx\build\SRC\.\Data.JSON";
    let right = "g:/dx/build/src/data.json";
    let normalized = normalize_metadata_path_components(left);

    assert!(normalized_metadata_paths_match(left, right, WINDOWS));
    assert_eq!(normalized, "G:/Dx/build/SRC/Data.JSON");
    assert_eq!(normalized.capacity(), normalized.len());
}

#[test]
fn metadata_validation_invalidates_stale_source_hash() {
    let source_path = r"G:\Dx\build\package.json";
    let machine_path = r"G:\Dx\build\.dx\rolldown\package-json.machine";
    let source_bytes = br#"{"name":"rolldown"}"#;
    let machine_bytes = b"machine";
    let metadata =
        machine_metadata_json(source_path, source_bytes, machine_path, machine_bytes, WINDOWS);

    assert_eq!(
        validated(
            &metadata,
            source_path,
            br#"{"name":"changedx"}"#,
            machine_path,
            machine_bytes
        ),
        DxMachineCacheStatus::Invalid
    );
}

#[test]
fn metadata_validation_rejects_source_len_mismatch_before_hashing_source_bytes() {
    let source_path = r"G:\Dx\build\package.json";
    let machine_path = r"G:\Dx\build\.dx\rolldown\package-json.machine";
    let source_bytes = br#"{"name":"rolldown"}"#;
    let machine_bytes = b"machine";
    let metadata =
        machine_metadata_json(source_path, source_bytes, machine_path, machine_bytes, WINDOWS);

    assert_eq!(
        validated(
            &metadata,
            source_path,
            br#"{"name":"changed package with a different byte length"}"#,
            machine_path,
            machine_bytes
        ),
        DxMachineCacheStatus::Invalid
    );
}

#[test]
fn metadata_validation_rejects_non_beneficial_machine_size_before_hashing_source_bytes() {
    let source_path = r"G:\Dx\build\package.json";
    let machine_path = r"G:\Dx\build\.dx\rolldown\package-json.machine";
    let source_bytes = br#"{"name":"rolldown"}"#;
    let machine_bytes = br#"{"name":"rolldown","optional_peer_dependencies":[]}"#;
    let metadata =
        machine_metadata_json(source_path, source_bytes, machine_path, machine_bytes, WINDOWS);

    assert_eq!(
        validated(&metadata, source_path, source_bytes, machine_path, machine_bytes),
        DxMachineCacheStatus::Invalid
    );
}

#[test]
fn metadata_validation_rejects_stale_machine_hash() {
    let source_path = r"G:\Dx\build\package.json";
    let machine_path = r"G:\Dx\build\.dx\rolldown\package-json.machine";
    let source_bytes = br#"{"name":"rolldown"}"#;
    let metadata = machine_metadata_json(
        source_path,
        source_bytes,
        machine_path,
        b"old machine bytes",
        WINDOWS,
    );

    assert_eq!(
        validated(&metadata, source_path, source_bytes, machine_path, b"new machine bytes"),
        DxMachineCacheStatus::Invalid
    );
}

#[test]
fn metadata_validation_rejects_non_rebuildable_cache_policy() {
    let source_path = r"G:\Dx\build\package.json";
    let machine_path = r"G:\Dx\build\.dx\rolldown\package-json.machine";
    let source_bytes = br#"{"name":"rolldown"}"#;
    let machine_bytes = b"machine";
    let written =
        machine_metadata_json(source_path, source_bytes, machine_path, machine_bytes, WINDOWS);
    let metadata = written.replace("\"rebuildable\": true", "\"rebuildable\": false");
    let mut parsed = parse_canonical_machine_metadata_document(written.as_bytes()).unwrap();
    parsed.cache.rebuildable = false;

    assert_eq!(
        validate_machine_metadata(
            &metadata,
            Some(parsed),
            source_path,
            source_bytes,
            machine_path,
            machine_bytes,
            WINDOWS,
        ),
        DxMachineCacheStatus::Invalid
    );
}

#[test]
fn metadata_validation_rejects_cache_without_fallback_policy() {
    let source_path = r"G:\Dx\build\package.json";
    let machine_path = r"G:\Dx\build\.dx\rolldown\package-json.machine";
    let source_bytes = br#"{"name":"rolldown"}"#;
    let machine_bytes = b"machine";
    let written =
        machine_metadata_json(source_path, source_bytes, machine_path, machine_bytes, WINDOWS);
    let metadata = written.replace("\"fallback_on_mismatch\": true", "\"fallback_on_mismatch\": false");
    let mut parsed = parse_canonical_machine_metadata_document(written.as_bytes()).unwrap();
    parsed.cache.fallback_on_mismatch = false;

    assert_eq!(
        validate_machine_metadata(
            &metadata,
            Some(parsed),
            source_path,
            source_bytes,
            machine_path,
            machine_bytes,
            WINDOWS,
        ),
        DxMachineCacheStatus::Invalid
    );
}

#[test]
fn written_artifact_is_a_hit_for_its_source_and_for_no_other() {
    let config = DxMachineCacheConfig::from_env_value(
        "/project",
        Some("1".to_string()),
        PathStyle::Unix,
    );
    let paths = config.paths_for_source("/project", "json_module", "/project/src/data.json");
    let source = b"{ \"a\": 1, \"b\": [1, 2, 3] }";
    let write = config
        .write_machine_artifact(&paths, "/project/src/data.json", source, b"machine")
        .unwrap();
    assert_eq!(write.machine.path, paths.machine);
    assert_eq!(write.metadata.path, paths.metadata);
    let metadata = String::from_utf8(write.metadata.bytes.clone()).unwrap();

    assert!(matches!(
        config.read_validated_machine_with_source_hash(
            &paths,
            "/project/src/data.json",
            source,
            machine_files(&metadata, b"machine"),
        ),
        DxMachineCacheStatus::Hit(hit)
            if hit.machine_bytes == b"machine"
                && &hit.source_hash == blake3::hash(source).as_bytes()
    ));
    assert_eq!(
        config.read_validated_machine(
            &paths,
            "/project/src/data.json",
            b"{ \"a\": 2, \"b\": [1, 2, 3] }",
            machine_files(&metadata, b"machine"),
        ),
        DxMachineCacheStatus::Invalid
    );
    assert_eq!(
        config.read_validated_machine(
            &paths,
            "/project/src/data.json",
            source,
            machine_files(&metadata, b"machinf"),
        ),
        DxMachineCacheStatus::Invalid
    );
    assert_eq!(
        config.read_validated_machine(
            &paths,
            "/project/src/data.json",
            source,
            MachineCacheFiles {
                metadata: FileRead::NotFound,
                parsed: None,
                machine: FileRead::NotFound,
            },
        ),
        DxMachineCacheStatus::Miss
    );
}

#[test]
fn disabled_cache_reads_and_writes_nothing() {
    let config = DxMachineCacheConfig::from_env_value("/project", None, PathStyle::Unix);
    assert!(config.paths_for_source_if_enabled("/project", "json_module", "a.json").is_none());
    let paths = config.paths_for_source("/project", "json_module", "a.json");
    assert!(config.write_machine_artifact(&paths, "a.json", b"source", b"m").is_none());
    assert_eq!(
        config.read_validated_machine(&paths, "a.json", b"source", machine_files("{}", b"m")),
        DxMachineCacheStatus::Disabled
    );
}

#[test]
fn artifact_that_is_no_smaller_is_not_written() {
    let config =
        DxMachineCacheConfig::from_env_value("/p", Some("yes".to_string()), PathStyle::Unix);
    let paths = config.paths_for_source("/p", "json_module", "a.json");
    assert!(config.write_machine_artifact(&paths, "a.json", b"12345", b"12345").is_none());
    assert!(config.write_machine_artifact(&paths, "a.json", b"12345", b"").is_none());
    assert!(config.write_machine_artifact(&paths, "a.json", b"12345", b"1234").is_some());
}

#[test]
fn oversized_metadata_is_invalid() {
    let config =
        DxMachineCacheConfig::from_env_value("/p", Some("yes".to_string()), PathStyle::Unix);
    let paths = config.paths_for_source("/p", "json_module", "a.json");
    let files = MachineCacheFiles {
        metadata: FileRead::Bytes(vec![b' '; DX_MACHINE_METADATA_MAX_BYTES as usize + 1]),
        parsed: None,
        machine: FileRead::NotFound,
    };
    assert_eq!(
        config.read_validated_machine(&paths, "a.json", b"12345", files),
        DxMachineCacheStatus::Invalid
    );
}

#[test]
fn absolute_and_relative_spellings_share_their_artifacts() {
    let config =
        DxMachineCacheConfig::from_env_value("/project", Some("1".to_string()), PathStyle::Unix);
    let absolute = config.paths_for_source("/project", "json_module", "/project/src/data.json");
    let relative = config.paths_for_source("/project", "json_module", "src/data.json");
    assert_eq!(absolute, relative);
    assert!(absolute
        .machine
        .starts_with("/project/.dx/rolldown/json_module__src-data-json--"));
    assert!(absolute.machine.ends_with(".machine"));
    assert!(absolute.metadata.ends_with(".machine.meta.json"));
}

#[test]
fn spellings_of_a_source_share_cache_names() {
    let config =
        DxMachineCacheConfig::from_env_value("/project", Some("1".to_string()), PathStyle::Unix);
    let names = config.paths_for_source("/project", "json_module", "src/Data.JSON");
    assert_eq!(
        config.paths_for_source("/project", "json_module", "/project/src/Data.JSON"),
        names
    );
    assert_eq!(config.paths_for_source("/project", "json_module", "src/data.json"), names);
    assert_ne!(config.paths_for_source("/other", "json_module", "/project/src/Data.JSON"), names);

    let config =
        DxMachineCacheConfig::from_env_value(r"C:\p", Some("1".to_string()), PathStyle::Windows);
    assert_eq!(
        config.paths_for_source(r"C:\p", "json_module", r"c:\p\a.json"),
        config.paths_for_source(r"C:\p", "json_module", "a.json")
    );
}

#[test]
fn a_backslash_is_part_of_a_name_on_unix() {
    assert_eq!(path_below("/p", r"/p/a\b.json", PathStyle::Unix), r"a\b.json");
    assert_eq!(path_below("/p", "/p/a/b.json", PathStyle::Unix), "a/b.json");
    assert_eq!(path_below(r"\p", "/p/b.json", PathStyle::Unix), "/p/b.json");
    assert_eq!(path_below(r"C:\p", r"c:\p\b.json", PathStyle::Windows), "b.json");
}

#[test]
fn a_cut_never_splits_a_character() {
    assert_eq!(truncate_ascii_prefix("abc", 2), "ab");
    assert_eq!(truncate_ascii_prefix("a\u{e9}c", 2), "a\u{e9}c");
    assert_eq!(truncate_ascii_prefix("a\u{e9}c", 3), "a\u{e9}");
    assert_eq!(readable_cache_stem_parts("\u{e9}", "path", "hash"), ("\u{e9}", "path"));
}

#[test]
fn canonical_metadata_with_one_more_byte_is_refused() {
    let metadata = machine_metadata_json(
        "/p/a\"b.json",
        b"source bytes",
        "/p/a.machine",
        b"machine",
        PathStyle::Unix,
    );
    assert!(parse_canonical_machine_metadata_document(metadata.as_bytes()).is_some());
    for byte in 0..=255 {
        let mut longer = metadata.clone().into_bytes();
        longer.push(byte);
        assert!(parse_canonical_machine_metadata_document(&longer).is_none());
    }
}

#[test]
fn cache_below_a_verbatim_root_is_named_with_backslashes() {
    let config = DxMachineCacheConfig::from_env_value(
        r"\\?\C:\p",
        Some("1".to_string()),
        PathStyle::Windows,
    );
    assert_eq!(config.root, r"\\?\C:\p\.dx\rolldown");
    let paths = config.paths_for_source(r"\\?\C:\p", "json_module", r"\\?\C:\p\a.json");
    assert!(paths.machine.starts_with(r"\\?\C:\p\.dx\rolldown\json_module__a-json--"));
    assert!(!paths.metadata.contains('/'));
    assert_eq!(paths, config.paths_for_source(r"\\?\C:\p", "json_module", "a.json"));
}
