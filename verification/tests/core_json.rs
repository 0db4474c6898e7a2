use rolldown_dx_cache::core_json::{
    consult_core_json_machine_cache, core_json_machine_cache_target_for_source,
    core_json_machine_decimal_or_exponent_number_is_valid,
    core_json_machine_header_matches_source_hash, core_json_machine_number_is_valid,
    core_json_machine_payload_body_capacity, core_json_machine_payload_body_with_source_hash,
    core_json_source_worth_machine_cache,
    decode_core_json_machine_hit, decode_core_json_machine_payload,
    decode_core_json_machine_payload_with_source_hash, encode_core_json_legacy_machine_payload,
    encode_core_json_machine_payload, encode_core_json_value, json_parse_position,
    parse_core_json_machine_plain_integer, push_core_json_len_prefixed_bytes_bounded,
    read_core_json_machine_cache_or_repair_hash, store_core_json_machine_cache,
    CoreJsonMachineRead, JsonValue, CORE_JSON_MACHINE_HEADER_LEN, CORE_JSON_MACHINE_MAX_DEPTH,
    CORE_JSON_MACHINE_MIN_SOURCE_BYTES, CORE_JSON_TAG_ARRAY, CORE_JSON_TAG_NULL,
    CORE_JSON_TAG_NUMBER, CORE_JSON_TAG_OBJECT, CORE_JSON_TAG_STRING, CORE_JSON_TAG_TRUE,
};
use rolldown_dx_cache::json_parse::{
    load_json_module, parse_json_value_for_module, parsed_json_module, JsonModuleError,
    JsonParseError,
};
use rolldown_dx_cache::machine_cache::{DxMachineCacheHit, FileRead, MachineCacheFiles};
use rolldown_dx_cache::machine_write::MachineArtifactWrite;
use rolldown_dx_cache::module_source::StrOrBytes;
use rolldown_dx_cache::path_text::PathStyle;

fn json(value: &serde_json::Value) -> JsonValue {
    match value {
        serde_json::Value::Null => JsonValue::Null,
        serde_json::Value::Bool(flag) => JsonValue::Bool(*flag),
        serde_json::Value::Number(number) => JsonValue::Number(number.to_string()),
        serde_json::Value::String(text) => JsonValue::Text(text.clone()),
        serde_json::Value::Array(items) => JsonValue::Array(items.iter().map(json).collect()),
        serde_json::Value::Object(entries) => JsonValue::Object(
            entries.iter().map(|(key, value)| (key.clone(), json(value))).collect(),
        ),
    }
}

fn parsed(source: &[u8]) -> JsonValue {
    json(&serde_json::from_slice::<serde_json::Value>(source).unwrap())
}

fn machine_for_body(source: &[u8], body: &[u8]) -> Vec<u8> {
    encode_core_json_legacy_machine_payload(blake3::hash(source).as_bytes(), body).unwrap()
}

fn nested_array_value(depth: usize) -> JsonValue {
    let mut value = JsonValue::Null;
    for _ in 0..depth {
        value = JsonValue::Array(vec![value]);
    }
    value
}

fn nested_object_value(depth: usize) -> JsonValue {
    let mut value = JsonValue::Null;
    for _ in 0..depth {
        value = JsonValue::Object(vec![("key".to_string(), value)]);
    }
    value
}

fn files_of(write: &MachineArtifactWrite) -> MachineCacheFiles {
    MachineCacheFiles {
        metadata: FileRead::Bytes(write.metadata.bytes.clone()),
        parsed: None,
        machine: FileRead::Bytes(write.machine.bytes.clone()),
    }
}

fn no_files() -> MachineCacheFiles {
    MachineCacheFiles { metadata: FileRead::NotFound, parsed: None, machine: FileRead::NotFound }
}

#[test]
fn core_json_machine_payload_round_trips_binary_json_value() {
    let source = br#"{"name":"rolldown","items":[1,true,null]}"#;
    let json_value = parsed(source);
    let machine_bytes = encode_core_json_machine_payload(source, &json_value).unwrap();

    assert!(machine_bytes.starts_with(b"RDXCJSN3"));
    assert_eq!(decode_core_json_machine_payload(&machine_bytes, source), Some(json_value));
}

#[test]
fn core_json_machine_binary_payload_parses_plain_integer_ast_numbers_without_json_parser() {
    let source = br#"{"items":[0,1,-42,900719925474099],"value":12345}"#;
    let json_value = parsed(source);
    let mut body = Vec::new();
    encode_core_json_value(&json_value, &mut body).unwrap();
    let hit = DxMachineCacheHit {
        machine_bytes: machine_for_body(source, &body),
        source_hash: *blake3::hash(source).as_bytes(),
    };

    assert_eq!(decode_core_json_machine_hit(&hit), Some(json_value));
    assert_eq!(parse_core_json_machine_plain_integer(b"0"), Some((false, 0)));
    assert_eq!(parse_core_json_machine_plain_integer(b"1"), Some((false, 1)));
    assert_eq!(parse_core_json_machine_plain_integer(b"-42"), Some((true, 42)));
    assert_eq!(
        parse_core_json_machine_plain_integer(b"900719925474099"),
        Some((false, 900_719_925_474_099))
    );
    assert_eq!(parse_core_json_machine_plain_integer(b"12345"), Some((false, 12_345)));
}

#[test]
fn core_json_machine_large_plain_integer_ast_numbers_without_json_parser() {
    let source = br#"{"items":[9007199254740995,-9007199254740995,18446744073709551615]}"#;
    let json_value = parsed(source);
    let mut body = Vec::new();
    encode_core_json_value(&json_value, &mut body).unwrap();
    let hit = DxMachineCacheHit {
        machine_bytes: machine_for_body(source, &body),
        source_hash: *blake3::hash(source).as_bytes(),
    };

    assert_eq!(decode_core_json_machine_hit(&hit), Some(json_value));
    assert_eq!(
        parse_core_json_machine_plain_integer(b"18446744073709551615"),
        Some((false, u64::MAX))
    );
    assert_eq!(parse_core_json_machine_plain_integer(b"18446744073709551616"), None);
    assert_eq!(parse_core_json_machine_plain_integer(b"-18446744073709551616"), None);
}

#[test]
fn core_json_machine_plain_integer_fast_path_keeps_number_fallback_boundaries() {
    for number in [b"1.25".as_slice(), b"1e3", b"1.25e-6"] {
        assert_eq!(parse_core_json_machine_plain_integer(number), None);
        assert!(core_json_machine_decimal_or_exponent_number_is_valid(number));
    }

    assert_eq!(parse_core_json_machine_plain_integer(b"01"), None);
    assert!(!core_json_machine_decimal_or_exponent_number_is_valid(b"01"));
    assert!(!core_json_machine_number_is_valid(b"01"));

    assert_eq!(parse_core_json_machine_plain_integer(b"-0"), Some((true, 0)));
}

#[test]
fn core_json_machine_decimal_exponent_ast_numbers_without_json_parser() {
    let source = br#"{"numbers":[1.25,1e3,1.25e-6,0.0,-0.0],"nested":{"answer":42}}"#;
    let json_value = parsed(source);
    let mut body = Vec::new();
    encode_core_json_value(&json_value, &mut body).unwrap();
    let hit = DxMachineCacheHit {
        machine_bytes: machine_for_body(source, &body),
        source_hash: *blake3::hash(source).as_bytes(),
    };

    assert_eq!(decode_core_json_machine_hit(&hit), Some(json_value));
    for number in [b"1.25".as_slice(), b"1000.0", b"1.25e-6", b"0.0", b"-0.0"] {
        assert!(core_json_machine_decimal_or_exponent_number_is_valid(number));
    }
}

#[test]
fn core_json_machine_payload_rejects_source_mutation_before_value_decode() {
    let source = br#"{"name":"rolldown"}"#;
    let machine_bytes = encode_core_json_machine_payload(source, &parsed(source)).unwrap();

    assert_eq!(decode_core_json_machine_payload(&machine_bytes, br#"{"name":"changed"}"#), None);
}

#[test]
fn core_json_machine_payload_rejects_valid_shaped_body_corruption() {
    let source = br#"{"value":1}"#;
    let mut machine_bytes = encode_core_json_machine_payload(source, &parsed(source)).unwrap();
    let digit = machine_bytes.iter().rposition(|byte| *byte == b'1').unwrap();
    machine_bytes[digit] = b'2';

    assert_eq!(decode_core_json_machine_payload(&machine_bytes, source), None);
}

#[test]
fn core_json_machine_payload_rejects_malformed_binary_shapes() {
    let source = br#"{"name":"rolldown"}"#;
    let decode = |body: &[u8]| {
        decode_core_json_machine_payload(&machine_for_body(source, body), source)
    };
    assert_eq!(decode(&[255]), None);

    let mut with_trailing = encode_core_json_machine_payload(source, &parsed(source)).unwrap();
    with_trailing.push(CORE_JSON_TAG_NULL);
    assert_eq!(decode_core_json_machine_payload(&with_trailing, source), None);

    let mut oversized_string = vec![CORE_JSON_TAG_STRING];
    oversized_string.extend_from_slice(&u32::MAX.to_le_bytes());
    assert_eq!(decode(&oversized_string), None);

    let mut impossible_array = vec![CORE_JSON_TAG_ARRAY];
    impossible_array.extend_from_slice(&u32::MAX.to_le_bytes());
    assert_eq!(decode(&impossible_array), None);

    let mut impossible_object = vec![CORE_JSON_TAG_OBJECT];
    impossible_object.extend_from_slice(&u32::MAX.to_le_bytes());
    assert_eq!(decode(&impossible_object), None);

    let mut invalid_number = vec![CORE_JSON_TAG_NUMBER];
    invalid_number.extend_from_slice(&1u32.to_le_bytes());
    invalid_number.push(b'+');
    assert_eq!(decode(&invalid_number), None);

    let mut too_deep = Vec::new();
    for _ in 0..=CORE_JSON_MACHINE_MAX_DEPTH {
        too_deep.push(CORE_JSON_TAG_ARRAY);
        too_deep.extend_from_slice(&1u32.to_le_bytes());
    }
    too_deep.push(CORE_JSON_TAG_NULL);
    assert_eq!(decode(&too_deep), None);
}

#[test]
fn core_json_machine_test_body_helper_builds_hash_validated_binary_payload() {
    let source = br#"{"name":"rolldown"}"#;
    let body = [CORE_JSON_TAG_NULL];
    let machine_bytes = machine_for_body(source, &body);

    assert_eq!(
        core_json_machine_payload_body_with_source_hash(
            &machine_bytes,
            blake3::hash(source).as_bytes()
        ),
        Some(body.to_vec())
    );
}

#[test]
fn core_json_machine_header_rejects_stale_source_before_body_decode() {
    let source = br#"{"name":"rolldown"}"#;
    let machine_bytes = encode_core_json_machine_payload(source, &parsed(source)).unwrap();
    let header = &machine_bytes[..CORE_JSON_MACHINE_HEADER_LEN];

    assert!(core_json_machine_header_matches_source_hash(header, blake3::hash(source).as_bytes()));
    assert!(!core_json_machine_header_matches_source_hash(
        header,
        blake3::hash(br#"{"name":"changed"}"#).as_bytes()
    ));
}

#[test]
fn core_json_machine_encoder_uses_reader_length_limits() {
    let mut output = Vec::new();

    assert_eq!(push_core_json_len_prefixed_bytes_bounded(&mut output, "abc", 2), None);
    assert!(output.is_empty());

    assert_eq!(push_core_json_len_prefixed_bytes_bounded(&mut output, "ab", 2), Some(()));
    assert_eq!(&output[4..], b"ab");
}

#[test]
fn core_json_machine_payload_encoder_rejects_too_deep_array_value() {
    let too_deep = nested_array_value(usize::from(CORE_JSON_MACHINE_MAX_DEPTH) + 1);
    let mut output = Vec::new();

    assert_eq!(core_json_machine_payload_body_capacity(&too_deep), None);
    assert_eq!(encode_core_json_value(&too_deep, &mut output), None);
    assert_eq!(encode_core_json_machine_payload(b"[]", &too_deep), None);
}

#[test]
fn core_json_machine_payload_encoder_allows_max_depth_array_value() {
    let source = b"[]";
    let max_depth = nested_array_value(usize::from(CORE_JSON_MACHINE_MAX_DEPTH));
    let mut output = Vec::new();

    assert!(core_json_machine_payload_body_capacity(&max_depth).is_some());
    assert_eq!(encode_core_json_value(&max_depth, &mut output), Some(()));
    let machine_bytes = encode_core_json_machine_payload(source, &max_depth).unwrap();
    assert_eq!(decode_core_json_machine_payload(&machine_bytes, source), Some(max_depth));
}

#[test]
fn core_json_machine_payload_encoder_rejects_too_deep_object_value() {
    let too_deep = nested_object_value(usize::from(CORE_JSON_MACHINE_MAX_DEPTH) + 1);
    let mut output = Vec::new();

    assert_eq!(core_json_machine_payload_body_capacity(&too_deep), None);
    assert_eq!(encode_core_json_value(&too_deep, &mut output), None);
    assert_eq!(encode_core_json_machine_payload(br#"{}"#, &too_deep), None);
}

#[test]
fn core_json_machine_payload_capacity_matches_encoded_len_for_nested_json() {
    let source = br#"{"items":[1,true,null,"text"],"nested":{"a":1,"b":"two"}}"#;
    let json_value = parsed(source);
    let machine_bytes = encode_core_json_machine_payload(source, &json_value).unwrap();

    assert_eq!(
        machine_bytes.len(),
        CORE_JSON_MACHINE_HEADER_LEN + core_json_machine_payload_body_capacity(&json_value).unwrap()
    );
}

#[test]
fn core_json_machine_binary_value_matches_current_json_ast_output() {
    let source = br#"{"a":1,"a":2,"large":9007199254740995,"items":[true,null,"x"]}"#;
    let json_value = parsed(source);
    let machine_bytes = encode_core_json_machine_payload(source, &json_value).unwrap();

    assert_eq!(decode_core_json_machine_payload(&machine_bytes, source), Some(json_value));
}

#[test]
fn core_json_machine_binary_payload_reads_numeric_ast_payloads() {
    let source = br#"{"numbers":[0,1,-2,3.5,9007199254740995,1.25e-6],"nested":{"answer":42}}"#;
    let json_value = parsed(source);
    let machine_bytes = encode_core_json_machine_payload(source, &json_value).unwrap();

    assert_eq!(
        decode_core_json_machine_payload_with_source_hash(
            &machine_bytes,
            blake3::hash(source).as_bytes()
        ),
        Some(json_value)
    );
}

#[test]
fn core_json_machine_binary_payload_rejects_malformed_numeric_ast_payloads() {
    let source = br#"{"numbers":[1]}"#;
    for number_bytes in [
        b"+1".as_slice(),
        b"NaN".as_slice(),
        b"inf".as_slice(),
        b"Infinity".as_slice(),
        b"01".as_slice(),
        b"1.".as_slice(),
        b".5".as_slice(),
        b"1e9999".as_slice(),
    ] {
        let mut body = vec![CORE_JSON_TAG_NUMBER];
        body.extend_from_slice(&u32::try_from(number_bytes.len()).unwrap().to_le_bytes());
        body.extend_from_slice(number_bytes);

        assert!(
            decode_core_json_machine_payload_with_source_hash(
                &machine_for_body(source, &body),
                blake3::hash(source).as_bytes(),
            )
            .is_none(),
            "malformed number payload should be rejected: {}",
            std::str::from_utf8(number_bytes).unwrap()
        );
    }
}

#[test]
fn core_json_machine_binary_ast_payload_rejects_impossible_collection_counts_before_vec_alloc() {
    let source = br#"{"items":[1]}"#;
    for tag in [CORE_JSON_TAG_ARRAY, CORE_JSON_TAG_OBJECT] {
        let mut body = vec![tag];
        body.extend_from_slice(&u32::MAX.to_le_bytes());

        assert!(decode_core_json_machine_payload_with_source_hash(
            &machine_for_body(source, &body),
            blake3::hash(source).as_bytes(),
        )
        .is_none());
    }
}

#[test]
fn core_json_machine_binary_ast_payload_rejects_trailing_expression_bytes() {
    let source = br#"null"#;
    let body = [CORE_JSON_TAG_NULL, CORE_JSON_TAG_TRUE];

    assert!(decode_core_json_machine_payload_with_source_hash(
        &machine_for_body(source, &body),
        blake3::hash(source).as_bytes(),
    )
    .is_none());
}

#[test]
fn numbers_are_left_to_the_parser_where_the_grammar_is_not_enough() {
    assert!(core_json_machine_number_is_valid(b"1e3"));
    assert!(core_json_machine_number_is_valid(b"-12.5E+10"));
    assert!(!core_json_machine_number_is_valid(b"1e9999"));
    assert!(!core_json_machine_number_is_valid(b""));
    assert!(!core_json_machine_number_is_valid(b"1 2"));
}

#[test]
fn a_json_module_is_worth_caching_above_the_minimum_and_only_as_a_collection() {
    let mut large = vec![b' '; CORE_JSON_MACHINE_MIN_SOURCE_BYTES];
    large[0] = b'[';
    assert!(!core_json_source_worth_machine_cache(&large));
    large.push(b']');
    assert!(core_json_source_worth_machine_cache(&large));
    large[0] = b'"';
    assert!(!core_json_source_worth_machine_cache(&large));
}

#[test]
fn a_written_json_module_is_read_back_and_a_broken_one_is_mended() {
    let mut source = String::from("[");
    while source.len() <= CORE_JSON_MACHINE_MIN_SOURCE_BYTES {
        source.push_str("         1,");
    }
    source.push_str("2]");
    let bytes = source.as_bytes();
    let value = parsed(bytes);
    let target = core_json_machine_cache_target_for_source(
        "/project",
        "/project/data.json",
        bytes,
        Some("1".to_string()),
        PathStyle::Unix,
    );
    let write = store_core_json_machine_cache(&target, bytes, &value, true, None).unwrap();
    assert_eq!(
        consult_core_json_machine_cache(&target, bytes, true, files_of(&write)),
        CoreJsonMachineRead::Hit(value)
    );
    assert_eq!(
        consult_core_json_machine_cache(&target, bytes, false, files_of(&write)),
        CoreJsonMachineRead::Miss
    );
    assert_eq!(
        consult_core_json_machine_cache(&target, bytes, true, no_files()),
        CoreJsonMachineRead::Miss
    );

    let target = target.unwrap();
    let broken = target
        .config
        .write_machine_artifact(&target.paths, &target.source_path, bytes, b"no payload")
        .unwrap();
    assert_eq!(
        read_core_json_machine_cache_or_repair_hash(&target, bytes, files_of(&broken)),
        CoreJsonMachineRead::Repair { source_hash: *blake3::hash(bytes).as_bytes() }
    );
}

#[test]
fn parse_positions_count_from_zero() {
    assert_eq!(json_parse_position(1, 1), (0, 0));
    assert_eq!(json_parse_position(3, 7), (2, 6));
    assert_eq!(json_parse_position(1, 0), (0, 0));
}

#[test]
fn source_is_parsed_into_a_value() {
    let source = r#"{"b":[1,-2.50,1e3,true,null],"a":"\u00e9"}"#;
    let value = parse_json_value_for_module(&StrOrBytes::Str(source.to_string())).unwrap();
    assert_eq!(value, parsed(source.as_bytes()));
    assert_eq!(
        parse_json_value_for_module(&StrOrBytes::Bytes(source.as_bytes().to_vec())),
        Ok(parsed(source.as_bytes()))
    );
    assert_eq!(
        parse_json_value_for_module(&StrOrBytes::Str("[1.50,\"x\"]".to_string())),
        Ok(JsonValue::Array(vec![
            JsonValue::Number("1.5".to_string()),
            JsonValue::Text("x".to_string())
        ]))
    );
}

#[test]
fn parse_error_is_shown_where_it_is() {
    let source = "{\n  \"a\": ]\n}";
    let error = serde_json::from_str::<serde_json::Value>(source).unwrap_err();
    assert_eq!((error.line(), error.column()), (2, 8));
    assert_eq!(
        parse_json_value_for_module(&StrOrBytes::Bytes(source.as_bytes().to_vec())),
        Err(JsonModuleError::Parse { line: 1, column: 7, message: error.to_string() })
    );
    assert_eq!(
        parse_json_value_for_module(&StrOrBytes::Bytes(vec![b'"', 0xff, b'"'])),
        Err(JsonModuleError::NotText)
    );
    let unknown = JsonParseError { line: 3, column: 0, message: "odd".to_string() };
    assert_eq!(
        parsed_json_module(&StrOrBytes::Str("{".to_string()), Err(unknown)),
        Err(JsonModuleError::Parse { line: 2, column: 0, message: "odd".to_string() })
    );
}

#[test]
fn loaded_module_writes_what_its_source_parses_to() {
    let source = format!("[{}0]", "0,".repeat(CORE_JSON_MACHINE_MIN_SOURCE_BYTES));
    let target = core_json_machine_cache_target_for_source(
        "/project",
        "/project/data.json",
        source.as_bytes(),
        Some("1".to_string()),
        PathStyle::Unix,
    );
    let loaded =
        load_json_module(&target, &StrOrBytes::Str(source.clone()), true, None).ok().unwrap();
    assert_eq!(loaded.value, parsed(source.as_bytes()));
    assert!(loaded.write.is_none());

    let wide = format!("[{}0]", "\"x\",            ".repeat(CORE_JSON_MACHINE_MIN_SOURCE_BYTES / 8));
    let loaded = load_json_module(&target, &StrOrBytes::Str(wide.clone()), true, None).ok().unwrap();
    let write = loaded.write.unwrap();
    assert_eq!(
        decode_core_json_machine_payload(&write.machine.bytes, wide.as_bytes()),
        Some(parsed(wide.as_bytes()))
    );
}
