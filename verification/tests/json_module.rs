use rolldown_dx_cache::json_module::{
    decode_json_module_machine_payload, decode_json_module_machine_payload_with_owned_bytes,
    decode_json_module_machine_payload_with_source_hash, encode_json_module_machine_payload,
    encode_json_module_machine_payload_from_encoded_payload,
    encode_json_module_machine_payload_with_source_hash,
    json_module_generated_len_within_machine_budget, json_module_lz4_payload_size_matches_header,
    json_module_output, unpacked_json_module,
    json_module_machine_cache_paths_if_enabled, json_module_machine_cache_target_from_source_path,
    json_module_machine_cache_target_if_worth_cache, json_module_machine_cache_target_with_config,
    json_module_payload_shape_matches_header, json_module_source_path,
    json_module_source_worth_machine_cache_with_plan, json_module_transform_plan,
    json_module_validated_payload, read_json_module_machine_cache,
    read_json_module_machine_cache_for_repair, strip_bom, takes_json_module, transform_json_module,
    transform_json_module_with_plan, write_json_module_machine_cache_with_source_hash,
    JsonModuleMachineCacheRead, JsonModuleMachineCacheTarget, JsonModuleMachineOptions,
    JsonModuleOutput, ValidatedJsonModuleMachinePayload, ViteJsonPlugin, ViteJsonPluginStringify,
    JSON_MODULE_MACHINE_CODEC_LZ4, JSON_MODULE_MACHINE_CODEC_RAW, JSON_MODULE_MACHINE_HEADER_LEN,
    JSON_MODULE_MACHINE_MAX_GENERATED_LEN, JSON_MODULE_MACHINE_MIN_SOURCE_BYTES,
    JSON_MODULE_STRINGIFY_THRESHOLD,
};
use rolldown_dx_cache::machine_cache::{DxMachineCacheConfig, FileRead, MachineCacheFiles};
use rolldown_dx_cache::machine_write::MachineArtifactWrite;
use rolldown_dx_cache::module_source::ModuleType;
use rolldown_dx_cache::path_text::PathStyle;

const GENERATED: &str = "export const name = \"rolldown\";\nexport default {\n  name\n};";

fn auto() -> JsonModuleMachineOptions {
    JsonModuleMachineOptions::new(true, false, ViteJsonPluginStringify::Auto)
}

fn never() -> JsonModuleMachineOptions {
    JsonModuleMachineOptions::new(true, false, ViteJsonPluginStringify::False)
}

fn large_json_object(entries: usize) -> String {
    let mut source = String::from("{");
    for index in 0..entries {
        if index > 0 {
            source.push(',');
        }
        source.push('"');
        source.push_str("key_");
        source.push_str(&index.to_string());
        source.push_str(r#"":"value_"#);
        source.push_str(&index.to_string());
        source.push('"');
    }
    source.push('}');
    source
}

fn large_module(entries: usize) -> String {
    let mut module = String::new();
    for index in 0..entries {
        module.push_str(&format!("export const key_{index} = \"value_{index}\";\n"));
    }
    module
}

fn json_object_source_with_len(len: usize) -> String {
    let prefix = r#"{"value":""#;
    let suffix = r#""}"#;
    format!("{prefix}{}{suffix}", "x".repeat(len - prefix.len() - suffix.len()))
}

fn enabled_config() -> DxMachineCacheConfig {
    DxMachineCacheConfig::from_env_value(r"G:\Dx\build", Some("1".to_string()), PathStyle::Windows)
}

fn target_for(options: &JsonModuleMachineOptions) -> JsonModuleMachineCacheTarget {
    json_module_machine_cache_target_from_source_path(
        enabled_config(),
        r"G:\Dx\build",
        r"G:\Dx\build\src\data.json".to_string(),
        options,
    )
    .unwrap()
}

fn files_of(write: &MachineArtifactWrite) -> MachineCacheFiles {
    MachineCacheFiles {
        metadata: FileRead::Bytes(write.metadata.bytes.clone()),
        parsed: None,
        machine: FileRead::Bytes(write.machine.bytes.clone()),
    }
}

fn code_of(output: JsonModuleOutput) -> String {
    match output {
        JsonModuleOutput::Code(code) => code,
        _ => panic!("expected code"),
    }
}

fn target_worth_cache(
    id: &str,
    source: &str,
    options: &JsonModuleMachineOptions,
    env_value: Option<String>,
) -> Option<JsonModuleMachineCacheTarget> {
    json_module_machine_cache_target_if_worth_cache(
        r"G:\Dx\build",
        id,
        source,
        json_module_transform_plan(source, options),
        options,
        env_value,
        PathStyle::Windows,
    )
}

#[test]
fn json_machine_cache_source_path_borrows_id_after_query_strip() {
    assert_eq!(
        json_module_source_path(r"G:\Dx\build\src\data.json?import"),
        r"G:\Dx\build\src\data.json"
    );
    assert_eq!(
        json_module_source_path(r"G:\Dx\build\src\plain.json"),
        r"G:\Dx\build\src\plain.json"
    );
    assert_eq!(
        json_module_source_path("G:\\Dx\\build\\src\\データ.json?import"),
        "G:\\Dx\\build\\src\\データ.json"
    );
}

#[test]
fn json_machine_cache_reuses_transform_plan_for_cache_target_and_transform() {
    let options = auto();
    let source = large_json_object(2_000);
    let plan = json_module_transform_plan(&source, &options);

    assert!(json_module_source_worth_machine_cache_with_plan(&source, plan));
    assert!(matches!(
        transform_json_module_with_plan(&source, &options, plan),
        JsonModuleOutput::DataToEsm { named_exports: true }
    ));
}

#[test]
fn json_module_transform_plan_reuses_single_source_shape_scan() {
    let options = auto();

    let plan = json_module_transform_plan(r#"{"name":"rolldown"}"#, &options);
    assert!(plan.uses_named_exports);
    assert!(plan.source_is_structured);

    let plan = json_module_transform_plan("  {\"name\":\"rolldown\"}", &options);
    assert!(plan.uses_named_exports);
    assert!(plan.source_is_structured);
}

#[test]
fn json_machine_cache_payload_stores_raw_source_hash_digest() {
    let options = auto();
    let source = br#"{"name":"rolldown"}"#;

    let machine_bytes = encode_json_module_machine_payload(source, &options, GENERATED).unwrap();

    assert_eq!(&machine_bytes[16..48], blake3::hash(source).as_bytes());
    assert_eq!(
        decode_json_module_machine_payload(&machine_bytes, source, &options).as_deref(),
        Some(GENERATED)
    );
}

#[test]
fn json_machine_cache_decode_accepts_prevalidated_source_hash() {
    let options = auto();
    let source = br#"{"name":"rolldown"}"#;
    let machine_bytes = encode_json_module_machine_payload(source, &options, GENERATED).unwrap();
    let source_hash = blake3::hash(source);

    assert_eq!(
        decode_json_module_machine_payload_with_source_hash(
            &machine_bytes,
            source_hash.as_bytes(),
            &options
        )
        .as_deref(),
        Some(GENERATED)
    );
    assert_eq!(
        decode_json_module_machine_payload_with_source_hash(
            &machine_bytes,
            blake3::hash(br#"{"name":"changed"}"#).as_bytes(),
            &options
        ),
        None
    );
}

#[test]
fn json_machine_cache_rejects_source_hash_mismatch_before_payload_validation() {
    let options = auto();
    let source = br#"{"name":"rolldown"}"#;
    let machine_bytes = encode_json_module_machine_payload(source, &options, GENERATED).unwrap();

    assert_eq!(
        decode_json_module_machine_payload_with_source_hash(
            &machine_bytes,
            blake3::hash(br#"{"name":"changed"}"#).as_bytes(),
            &options
        ),
        None
    );
}

#[test]
fn json_machine_cache_encode_accepts_precomputed_source_hash() {
    let options = auto();
    let source_hash = blake3::hash(br#"{"name":"rolldown"}"#);

    let machine_bytes = encode_json_module_machine_payload_with_source_hash(
        source_hash.as_bytes(),
        &options,
        GENERATED,
    )
    .unwrap();

    assert_eq!(&machine_bytes[16..48], source_hash.as_bytes());
    assert_eq!(
        decode_json_module_machine_payload_with_source_hash(
            &machine_bytes,
            source_hash.as_bytes(),
            &options
        )
        .as_deref(),
        Some(GENERATED)
    );
}

#[test]
fn json_machine_cache_compresses_large_generated_payloads() {
    let options = never();
    let source = large_json_object(4_000);
    let generated = large_module(4_000);
    let machine_bytes =
        encode_json_module_machine_payload(source.as_bytes(), &options, &generated).unwrap();

    assert!(machine_bytes.starts_with(b"RDXJSON2"));
    assert_eq!(machine_bytes[11], JSON_MODULE_MACHINE_CODEC_LZ4);
    assert!(machine_bytes.len() < generated.len());
    assert_eq!(
        decode_json_module_machine_payload(&machine_bytes, source.as_bytes(), &options).as_deref(),
        Some(generated.as_str())
    );
}

#[test]
fn json_machine_cache_rejects_raw_length_mismatch_before_payload_decode() {
    let options = auto();
    let source = br#"{"name":"rolldown"}"#;
    let mut machine_bytes =
        encode_json_module_machine_payload(source, &options, GENERATED).unwrap();
    machine_bytes[12..16]
        .copy_from_slice(&u32::try_from(GENERATED.len() + 1).unwrap().to_le_bytes());

    assert!(!json_module_payload_shape_matches_header(
        machine_bytes[11],
        &machine_bytes[JSON_MODULE_MACHINE_HEADER_LEN..],
        GENERATED.len() + 1
    ));
    assert_eq!(decode_json_module_machine_payload(&machine_bytes, source, &options), None);
}

#[test]
fn json_machine_cache_raw_payload_utf8_is_validated_before_owned_string() {
    let options = auto();
    let source_hash = [9; 32];
    let payload = |content: &[u8]| {
        encode_json_module_machine_payload_from_encoded_payload(
            &source_hash,
            &options,
            content.len(),
            JSON_MODULE_MACHINE_CODEC_RAW,
            content,
        )
        .unwrap()
    };

    assert_eq!(
        decode_json_module_machine_payload_with_source_hash(
            &payload(b"export default 1;"),
            &source_hash,
            &options
        )
        .as_deref(),
        Some("export default 1;")
    );
    assert_eq!(
        decode_json_module_machine_payload_with_source_hash(
            &payload(&[0xff]),
            &source_hash,
            &options
        ),
        None
    );
}

#[test]
fn json_machine_cache_raw_hit_reuses_machine_buffer_for_string() {
    let options = auto();
    let source_hash = blake3::hash(br#"{"name":"rolldown"}"#);
    let machine_bytes = encode_json_module_machine_payload_with_source_hash(
        source_hash.as_bytes(),
        &options,
        GENERATED,
    )
    .unwrap();

    assert_eq!(machine_bytes[11], JSON_MODULE_MACHINE_CODEC_RAW);
    assert_eq!(
        decode_json_module_machine_payload_with_owned_bytes(
            machine_bytes,
            source_hash.as_bytes(),
            &options
        )
        .as_deref(),
        Some(GENERATED)
    );
}

#[test]
fn json_machine_cache_lz4_owned_hit_uses_prechecked_lz4_body_decode() {
    let options = never();
    let source = large_json_object(4_000);
    let generated = large_module(4_000);
    let source_hash = blake3::hash(source.as_bytes());
    let machine_bytes = encode_json_module_machine_payload_with_source_hash(
        source_hash.as_bytes(),
        &options,
        &generated,
    )
    .unwrap();

    assert_eq!(machine_bytes[11], JSON_MODULE_MACHINE_CODEC_LZ4);
    assert_eq!(
        decode_json_module_machine_payload_with_owned_bytes(
            machine_bytes,
            source_hash.as_bytes(),
            &options
        ),
        Some(generated)
    );
}

#[test]
fn json_machine_cache_raw_owned_hit_rejects_invalid_utf8_before_buffer_reuse() {
    let options = auto();
    let source_hash = blake3::hash(br#"{"name":"rolldown"}"#);
    let machine_bytes = encode_json_module_machine_payload_from_encoded_payload(
        source_hash.as_bytes(),
        &options,
        1,
        JSON_MODULE_MACHINE_CODEC_RAW,
        &[0xff],
    )
    .unwrap();

    assert_eq!(
        decode_json_module_machine_payload_with_owned_bytes(
            machine_bytes,
            source_hash.as_bytes(),
            &options
        ),
        None
    );
}

#[test]
fn json_machine_cache_raw_owned_hit_rejects_length_mismatch_without_generic_validation() {
    let options = auto();
    let source_hash = blake3::hash(br#"{"name":"rolldown"}"#);
    for len in [GENERATED.len() + 1, GENERATED.len() - 1] {
        let mut machine_bytes = encode_json_module_machine_payload_with_source_hash(
            source_hash.as_bytes(),
            &options,
            GENERATED,
        )
        .unwrap();
        assert_eq!(machine_bytes[11], JSON_MODULE_MACHINE_CODEC_RAW);
        machine_bytes[12..16].copy_from_slice(&u32::try_from(len).unwrap().to_le_bytes());

        assert_eq!(
            decode_json_module_machine_payload_with_owned_bytes(
                machine_bytes,
                source_hash.as_bytes(),
                &options
            ),
            None
        );
    }
}

#[test]
fn json_machine_cache_rejects_lz4_size_prefix_mismatch_before_decode() {
    let options = never();
    let source = large_json_object(4_000);
    let generated = large_module(4_000);
    let mut machine_bytes =
        encode_json_module_machine_payload(source.as_bytes(), &options, &generated).unwrap();
    let payload_start = JSON_MODULE_MACHINE_HEADER_LEN;
    let wrong_size = u32::try_from(generated.len() + 1).unwrap().to_le_bytes();
    machine_bytes[payload_start..payload_start + 4].copy_from_slice(&wrong_size);

    assert!(!json_module_lz4_payload_size_matches_header(
        &machine_bytes[payload_start..],
        generated.len()
    ));
    assert_eq!(
        decode_json_module_machine_payload(&machine_bytes, source.as_bytes(), &options),
        None
    );
}

#[test]
fn json_machine_cache_validated_payload_borrows_lz4_payload_for_decode() {
    let options = never();
    let source = large_json_object(4_000);
    let machine_bytes =
        encode_json_module_machine_payload(source.as_bytes(), &options, &large_module(4_000))
            .unwrap();
    let payload = &machine_bytes[JSON_MODULE_MACHINE_HEADER_LEN..];
    let expected_len = u32::from_le_bytes(machine_bytes[12..16].try_into().unwrap()) as usize;

    let Some(ValidatedJsonModuleMachinePayload::Lz4 { compressed, generated_len }) =
        json_module_validated_payload(machine_bytes[11], payload, expected_len)
    else {
        panic!("expected validated lz4 payload");
    };

    assert_eq!(generated_len, expected_len);
    assert_eq!(compressed, payload);
}

#[test]
fn json_machine_cache_validated_payload_rejects_invalid_shapes() {
    assert!(matches!(
        json_module_validated_payload(JSON_MODULE_MACHINE_CODEC_RAW, b"esm", 3),
        Some(ValidatedJsonModuleMachinePayload::Raw(payload)) if payload == b"esm"
    ));
    assert!(json_module_validated_payload(JSON_MODULE_MACHINE_CODEC_RAW, b"esm", 4).is_none());
    assert!(json_module_validated_payload(255, b"esm", 3).is_none());

    let lz4_len = 4usize;
    assert!(matches!(
        json_module_validated_payload(
            JSON_MODULE_MACHINE_CODEC_LZ4,
            &u32::try_from(lz4_len).unwrap().to_le_bytes(),
            lz4_len,
        ),
        Some(ValidatedJsonModuleMachinePayload::Lz4 { compressed: _, generated_len: 4 })
    ));
    assert!(json_module_validated_payload(
        JSON_MODULE_MACHINE_CODEC_LZ4,
        &5u32.to_le_bytes(),
        lz4_len
    )
    .is_none());
    assert!(
        json_module_validated_payload(JSON_MODULE_MACHINE_CODEC_LZ4, &[0, 1, 2], lz4_len).is_none()
    );
    assert!(json_module_validated_payload(
        JSON_MODULE_MACHINE_CODEC_LZ4,
        &u32::MAX.to_le_bytes(),
        u32::MAX as usize,
    )
    .is_none());
}

#[test]
fn json_machine_cache_rejects_lz4_oversized_generated_len_before_decode() {
    assert!(!json_module_generated_len_within_machine_budget(u32::MAX as usize));
    assert!(json_module_generated_len_within_machine_budget(JSON_MODULE_MACHINE_MAX_GENERATED_LEN));
    assert!(!json_module_payload_shape_matches_header(
        JSON_MODULE_MACHINE_CODEC_LZ4,
        &u32::MAX.to_le_bytes(),
        u32::MAX as usize
    ));

    let options = never();
    let source_hash = blake3::hash(br#"{"name":"rolldown"}"#);
    let generated_len = u32::MAX;
    let mut machine_bytes = Vec::new();
    machine_bytes.extend_from_slice(b"RDXJSON2");
    machine_bytes.push(u8::from(options.named_exports));
    machine_bytes.push(u8::from(options.minify));
    machine_bytes.push(options.stringify.cache_tag());
    machine_bytes.push(JSON_MODULE_MACHINE_CODEC_LZ4);
    machine_bytes.extend_from_slice(&generated_len.to_le_bytes());
    machine_bytes.extend_from_slice(source_hash.as_bytes());
    machine_bytes.extend_from_slice(&generated_len.to_le_bytes());

    assert_eq!(
        decode_json_module_machine_payload_with_source_hash(
            &machine_bytes,
            source_hash.as_bytes(),
            &options
        ),
        None
    );
}

#[test]
fn json_machine_cache_encode_rejects_over_budget_len_without_large_payload() {
    let generated_len = JSON_MODULE_MACHINE_MAX_GENERATED_LEN + 1;
    let payload_size_prefix = u32::try_from(generated_len).unwrap().to_le_bytes();

    assert!(encode_json_module_machine_payload_from_encoded_payload(
        blake3::hash(br#"{"name":"rolldown"}"#).as_bytes(),
        &never(),
        generated_len,
        JSON_MODULE_MACHINE_CODEC_LZ4,
        &payload_size_prefix,
    )
    .is_none());
}

#[test]
fn json_machine_cache_options_are_part_of_the_key() {
    let named = auto();
    let unnamed = JsonModuleMachineOptions::new(false, false, ViteJsonPluginStringify::Auto);
    let source = json_object_source_with_len(400);
    let write = write_json_module_machine_cache_with_source_hash(
        &target_for(&named),
        source.as_bytes(),
        &named,
        GENERATED,
        None,
    )
    .unwrap();

    assert_ne!(target_for(&named).paths, target_for(&unnamed).paths);
    assert_eq!(
        read_json_module_machine_cache(
            &target_for(&named),
            source.as_bytes(),
            &named,
            files_of(&write)
        )
        .as_deref(),
        Some(GENERATED)
    );
    assert_eq!(
        read_json_module_machine_cache(
            &target_for(&unnamed),
            source.as_bytes(),
            &unnamed,
            files_of(&write)
        ),
        None
    );
}

#[test]
fn json_machine_cache_namespace_tracks_payload_version() {
    assert!(auto().cache_namespace().starts_with("json_module_v2_"));
}

#[test]
fn json_machine_cache_namespace_uses_static_strings() {
    let options = auto();
    let first = options.cache_namespace();
    let second = options.cache_namespace();

    assert_eq!(first, "json_module_v2_named_exports_1_minify_0_stringify_auto");
    assert!(std::ptr::eq(first.as_ptr(), second.as_ptr()));
}

#[test]
fn json_machine_cache_disabled_config_has_no_paths() {
    let project_root = r"G:\Dx\build";
    let source_path = r"G:\Dx\build\src\data.json";
    let cache_config = DxMachineCacheConfig::from_env_value(project_root, None, PathStyle::Windows);
    let options = auto();

    assert!(json_module_machine_cache_paths_if_enabled(
        &cache_config,
        project_root,
        source_path,
        &options,
    )
    .is_none());
    assert!(json_module_machine_cache_target_from_source_path(
        cache_config,
        project_root,
        source_path.to_string(),
        &options,
    )
    .is_none());
}

#[test]
fn json_machine_cache_skips_sources_at_or_below_minimum_before_path_build() {
    let options = auto();
    let id = r"G:\Dx\build\src\data.json";
    let env_value = || Some("1".to_string());

    let small = json_object_source_with_len(JSON_MODULE_MACHINE_MIN_SOURCE_BYTES);
    assert!(target_worth_cache(id, &small, &options, env_value()).is_none());
    let large = json_object_source_with_len(JSON_MODULE_MACHINE_MIN_SOURCE_BYTES + 1);
    assert!(target_worth_cache(id, &large, &options, env_value()).is_some());
    assert!(target_worth_cache(id, &large, &options, None).is_none());
}

#[test]
fn json_machine_cache_skips_virtual_id_before_env_config() {
    let source = json_object_source_with_len(JSON_MODULE_MACHINE_MIN_SOURCE_BYTES + 1);
    assert!(target_worth_cache(
        "\0virtual:data.json?import",
        &source,
        &auto(),
        Some("1".to_string())
    )
    .is_none());
}

#[test]
fn json_machine_cache_target_from_id_checks_virtual_source_path_once() {
    assert!(json_module_machine_cache_target_with_config(
        enabled_config(),
        r"G:\Dx\build",
        "G:/Dx/build/src/data.json?import",
        &auto(),
    )
    .is_some());
}

#[test]
fn json_machine_cache_skips_stringify_only_fast_path_before_env_config() {
    let source = json_object_source_with_len(JSON_MODULE_MACHINE_MIN_SOURCE_BYTES + 1);
    let options = JsonModuleMachineOptions::new(false, false, ViteJsonPluginStringify::True);
    assert!(target_worth_cache(
        "G:/Dx/build/src/large-forced-stringify.json",
        &source,
        &options,
        Some("1".to_string())
    )
    .is_none());
}

#[test]
fn json_machine_cache_skips_top_level_scalar_parse_path_before_env_config() {
    let source =
        serde_json::to_string(&"x".repeat(JSON_MODULE_MACHINE_MIN_SOURCE_BYTES + 1)).unwrap();
    let options = JsonModuleMachineOptions::new(false, false, ViteJsonPluginStringify::False);
    assert!(json_module_transform_plan(&source, &options).requires_parse);
    assert!(target_worth_cache(
        "G:/Dx/build/src/large-scalar.json",
        &source,
        &options,
        Some("1".to_string())
    )
    .is_none());
}

#[test]
fn json_machine_cache_keeps_large_parse_paths_for_named_exports_minify_or_stringify_false() {
    let source = large_json_object(1_600);
    for options in [
        JsonModuleMachineOptions::new(true, false, ViteJsonPluginStringify::Auto),
        JsonModuleMachineOptions::new(false, true, ViteJsonPluginStringify::Auto),
        JsonModuleMachineOptions::new(false, false, ViteJsonPluginStringify::False),
    ] {
        assert!(target_worth_cache(
            r"G:\Dx\build\src\large-object.json",
            &source,
            &options,
            Some("1".to_string())
        )
        .is_some());
    }
}

#[test]
fn transform_json_module_parses_source_as_bytes() {
    let options = never();

    assert!(matches!(
        transform_json_module(r#"{"name":"rolldown"}"#, &options),
        JsonModuleOutput::DataToEsm { named_exports: true }
    ));
}

#[test]
fn transform_json_module_minify_parses_source_as_bytes() {
    let options = JsonModuleMachineOptions::new(false, true, ViteJsonPluginStringify::True);
    let generated = code_of(transform_json_module(r#"{ "name" : "rolldown" }"#, &options));

    assert!(generated.contains("JSON.parse"));
    assert_eq!(
        generated,
        "export default /*#__PURE__*/ JSON.parse(\"{\\\"name\\\":\\\"rolldown\\\"}\")"
    );
}

#[test]
fn invalid_json_error_matches_current_serde_path() {
    let options = JsonModuleMachineOptions::new(true, false, ViteJsonPluginStringify::Auto);
    let minify = JsonModuleMachineOptions::new(false, true, ViteJsonPluginStringify::True);
    for (code, options) in [("{", options), ("[1", minify)] {
        let serde_error = serde_json::from_str::<serde_json::Value>(code).unwrap_err();

        assert_eq!(
            transform_json_module(code, &options),
            JsonModuleOutput::Invalid { message: serde_error.to_string() }
        );
    }
}

#[test]
fn json_transform_stringify_true_matches_current_output_shape() {
    let options = JsonModuleMachineOptions::new(false, false, ViteJsonPluginStringify::True);

    assert_eq!(
        code_of(transform_json_module(r#"{"name":"rolldown"}"#, &options)),
        "export default /*#__PURE__*/ JSON.parse(\"{\\\"name\\\":\\\"rolldown\\\"}\")"
    );
}

#[test]
fn large_json_auto_stringify_uses_json_parse_output() {
    let options = JsonModuleMachineOptions::new(false, false, ViteJsonPluginStringify::Auto);
    let large_json =
        serde_json::to_string(&"x".repeat(JSON_MODULE_STRINGIFY_THRESHOLD + 1)).unwrap();

    assert!(code_of(transform_json_module(&large_json, &options))
        .starts_with("export default /*#__PURE__*/ JSON.parse("));
}

#[test]
fn plugin_options_reach_the_cache() {
    let plugin = ViteJsonPlugin {
        minify: true,
        named_exports: false,
        stringify: ViteJsonPluginStringify::True,
    };
    assert_eq!(
        plugin.machine_options().cache_namespace(),
        "json_module_v2_named_exports_0_minify_1_stringify_true"
    );
}

#[test]
fn a_payload_that_cannot_be_read_is_mended_under_the_same_digest() {
    let options = auto();
    let target = target_for(&options);
    let source = json_object_source_with_len(400);
    let broken = target
        .config
        .write_machine_artifact(
            &target.paths,
            &target.source_path,
            source.as_bytes(),
            b"no payload",
        )
        .unwrap();
    let hash = *blake3::hash(source.as_bytes()).as_bytes();
    assert!(matches!(
        read_json_module_machine_cache_for_repair(
            &target,
            source.as_bytes(),
            &options,
            files_of(&broken)
        ),
        JsonModuleMachineCacheRead::Repair { source_hash } if source_hash == hash
    ));
    let write = write_json_module_machine_cache_with_source_hash(
        &target,
        source.as_bytes(),
        &options,
        GENERATED,
        Some(hash),
    )
    .unwrap();
    assert_eq!(
        read_json_module_machine_cache(&target, source.as_bytes(), &options, files_of(&write))
            .as_deref(),
        Some(GENERATED)
    );
}

#[test]
fn json_machine_cache_raw_owned_hit_bypasses_generic_payload_validation() {
    let options = auto();
    let source = br#"{"name":"rolldown"}"#;
    let source_hash = blake3::hash(source);
    let machine_bytes = encode_json_module_machine_payload_with_source_hash(
        source_hash.as_bytes(),
        &options,
        GENERATED,
    )
    .unwrap();

    assert_eq!(machine_bytes[11], JSON_MODULE_MACHINE_CODEC_RAW);
    assert_eq!(
        decode_json_module_machine_payload_with_owned_bytes(
            machine_bytes,
            source_hash.as_bytes(),
            &options,
        )
        .as_deref(),
        Some(GENERATED)
    );
}

#[test]
fn json_machine_cache_lz4_owned_hit_bypasses_generic_payload_validation() {
    let options = never();
    let source = large_json_object(4_000);
    let generated = large_module(4_000);
    let source_hash = blake3::hash(source.as_bytes());
    let machine_bytes = encode_json_module_machine_payload_with_source_hash(
        source_hash.as_bytes(),
        &options,
        &generated,
    )
    .unwrap();

    assert_eq!(machine_bytes[11], JSON_MODULE_MACHINE_CODEC_LZ4);
    assert_eq!(
        decode_json_module_machine_payload_with_owned_bytes(
            machine_bytes,
            source_hash.as_bytes(),
            &options,
        ),
        Some(generated)
    );
}

#[test]
fn unpacked_bytes_have_to_be_the_module() {
    assert_eq!(unpacked_json_module(b"abc", 3).as_deref(), Some("abc"));
    assert_eq!(unpacked_json_module(b"abc", 4), None);
    assert_eq!(unpacked_json_module(&[0xff], 1), None);
}

#[test]
fn module_output_follows_the_plan() {
    let minify = JsonModuleMachineOptions::new(false, true, ViteJsonPluginStringify::True);
    let code = "{ \"a\" : 1 }";
    let plan = json_module_transform_plan(code, &minify);
    assert_eq!(
        json_module_output(code, Ok("{\"a\":1}".to_string()), &minify, plan),
        JsonModuleOutput::Code(
            "export default /*#__PURE__*/ JSON.parse(\"{\\\"a\\\":1}\")".to_string()
        )
    );
    let plan = json_module_transform_plan(code, &never());
    assert_eq!(
        json_module_output(code, Ok(String::new()), &never(), plan),
        JsonModuleOutput::DataToEsm { named_exports: true }
    );
    assert_eq!(
        json_module_output(code, Err("broken".to_string()), &never(), plan),
        JsonModuleOutput::Invalid { message: "broken".to_string() }
    );
}

#[test]
fn byte_order_mark_is_stripped_once() {
    assert_eq!(strip_bom("\u{feff}{\"name\":\"rolldown\"}"), "{\"name\":\"rolldown\"}");
    assert_eq!(strip_bom("\u{feff}\u{feff}"), "\u{feff}");
    assert_eq!(strip_bom("{}\u{feff}"), "{}\u{feff}");
    assert_eq!(strip_bom(""), "");
    assert_eq!(
        transform_json_module(strip_bom("\u{feff}{\"name\":\"rolldown\"}"), &auto()),
        JsonModuleOutput::DataToEsm { named_exports: true }
    );
}

#[test]
fn only_json_modules_are_taken() {
    assert!(takes_json_module(&ModuleType::Json, true, false));
    assert!(!takes_json_module(&ModuleType::Json, false, false));
    assert!(!takes_json_module(&ModuleType::Json, true, true));
    assert!(!takes_json_module(&ModuleType::Js, true, false));
}

#[test]
fn minified_module_is_the_value_without_white_space() {
    let options = JsonModuleMachineOptions::new(false, true, ViteJsonPluginStringify::True);
    let code = " { \"b\" : [ 1 , -2.50 , true , null , [] , {} ] , \"a\" : \"x\\n\" } ";
    let JsonModuleOutput::Code(module) = transform_json_module(code, &options) else {
        panic!("the source is JSON");
    };
    let value: serde_json::Value = serde_json::from_str(code).unwrap();
    let entries: Vec<&String> = value.as_object().unwrap().keys().collect();
    let (a, b) = (r#""a":"x\n""#, r#""b":[1,-2.5,true,null,[],{}]"#);
    let compact =
        if entries[0] == "a" { format!("{{{a},{b}}}") } else { format!("{{{b},{a}}}") };
    let literal = serde_json::to_string(&compact).unwrap();
    assert_eq!(module, format!("export default /*#__PURE__*/ JSON.parse({literal})"));
}
