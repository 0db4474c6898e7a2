use rolldown_dx_cache::codec::{
    declared_string_count_fits_remaining, read_optional_string, validated_counted_strings_end,
    write_optional_string, write_string, NONE_LEN,
};
use rolldown_dx_cache::package_json::{
    decode_package_json_machine_payload,
    decode_package_json_optional_peer_dependencies_machine_payload,
    encode_package_json_machine_payload,
    encode_package_json_optional_peer_dependencies_machine_payload,
    is_package_json_machine_side_effects_tag, name_set_of, optional_peer_dependencies_from_maps,
    package_json_machine_magic, package_json_machine_payload_capacity,
    package_json_machine_payload_layout_is_valid,
    package_json_optional_peer_dependencies_machine_payload_capacity,
    package_json_optional_peer_deps_machine_magic, package_json_source_without_utf8_bom,
    package_type_from_machine_tag, package_type_tag,
    parse_package_json_optional_peer_dependencies, PackageJson,
    PackageJsonOptionalPeerDependencies, PackageJsonWithPeerDependenciesRaw, SideEffects,
};

const REALPATH: &str = r"G:\Dx\build\node_modules\pkg\package.json";

fn package(patterns: &[&str]) -> PackageJson {
    PackageJson::from_cache_parts(
        Some("pkg".to_string()),
        Some("1.0.0".to_string()),
        Some("module".to_string()),
        Some(SideEffects::Array(patterns.iter().map(|pattern| pattern.to_string()).collect())),
        REALPATH.to_string(),
    )
    .unwrap()
}

fn side_effects_for(package: &PackageJson, path: &str) -> Option<bool> {
    let matched: Vec<bool> = package
        .side_effect_patterns()
        .iter()
        .map(|pattern| pattern.strip_prefix("./").unwrap_or(pattern) == path)
        .collect();
    package.check_side_effects_for(&matched)
}

fn raw(source: &[u8]) -> Option<PackageJsonWithPeerDependenciesRaw> {
    let value: serde_json::Value =
        serde_json::from_slice(package_json_source_without_utf8_bom(source)).ok()?;
    Some(PackageJsonWithPeerDependenciesRaw {
        name: value.get("name").and_then(|name| name.as_str()).unwrap_or("").to_string(),
        peer_dependencies: value
            .get("peerDependencies")
            .map(|map| map.as_object().unwrap().keys().cloned().collect()),
        peer_dependencies_meta: value.get("peerDependenciesMeta").map(|map| {
            map.as_object()
                .unwrap()
                .iter()
                .map(|(name, meta)| (name.clone(), meta["optional"] == true))
                .collect()
        }),
    })
}

fn peers(names: &[&str]) -> PackageJsonOptionalPeerDependencies {
    PackageJsonOptionalPeerDependencies {
        name: "pkg".to_string(),
        optional_peer_dependencies: name_set_of(names.iter().map(|name| name.to_string()).collect()),
    }
}

fn contains(peers: &PackageJsonOptionalPeerDependencies, name: &str) -> bool {
    peers.optional_peer_dependencies.iter().any(|listed| listed == name)
}

fn package_head(side_effects_tag: u8) -> Vec<u8> {
    let mut machine_bytes = Vec::new();
    machine_bytes.extend_from_slice(&package_json_machine_magic());
    machine_bytes.push(0);
    machine_bytes.push(side_effects_tag);
    machine_bytes.extend_from_slice(&[0, 0]);
    machine_bytes
}

fn peers_head() -> Vec<u8> {
    let mut machine_bytes = Vec::new();
    machine_bytes.extend_from_slice(&package_json_optional_peer_deps_machine_magic());
    machine_bytes.extend_from_slice(&[0, 0, 0, 0]);
    write_string(&mut machine_bytes, "pkg");
    machine_bytes
}

#[test]
fn package_json_from_cache_parts_rebuilds_public_behavior() {
    let package_json = package(&["./style.css"]);

    assert_eq!(package_json.name(), Some("pkg"));
    assert_eq!(package_json.version(), Some("1.0.0"));
    assert_eq!(package_json.package_type(), Some("module"));
    assert_eq!(side_effects_for(&package_json, "style.css"), Some(true));
    assert_eq!(side_effects_for(&package_json, "index.js"), Some(false));
    assert_eq!(package_json.realpath(), REALPATH);
}

#[test]
fn package_json_from_cache_parts_rejects_unknown_package_type() {
    assert!(PackageJson::from_cache_parts(
        None,
        None,
        Some("future-type".to_string()),
        None,
        "package.json".to_string(),
    )
    .is_none());
}

#[test]
fn side_effects_without_patterns_decide_by_themselves() {
    let with = |side_effects: Option<SideEffects>| {
        PackageJson::from_cache_parts(None, None, None, side_effects, "package.json".to_string())
            .unwrap()
    };
    assert_eq!(with(None).check_side_effects_for(&Vec::new()), None);
    assert_eq!(
        with(Some(SideEffects::Bool(false))).check_side_effects_for(&Vec::new()),
        Some(false)
    );
    let one = with(Some(SideEffects::String("*.css".to_string())));
    assert_eq!(one.side_effect_patterns(), ["*.css"]);
    assert_eq!(one.check_side_effects_for(&vec![true]), Some(true));
}

#[test]
fn package_json_machine_payload_round_trips_compact_binary() {
    let package_json = package(&["./style.css", "./theme.css"]);
    let machine_bytes = encode_package_json_machine_payload(&package_json).unwrap();

    assert!(machine_bytes.starts_with(&package_json_machine_magic()));
    assert_ne!(machine_bytes.first(), Some(&b'{'));
    assert_eq!(
        machine_bytes.len(),
        package_json_machine_payload_capacity(&package_json).unwrap()
    );

    let restored =
        decode_package_json_machine_payload(&machine_bytes, REALPATH.to_string()).unwrap();
    assert_eq!(restored.name(), Some("pkg"));
    assert_eq!(restored.version(), Some("1.0.0"));
    assert_eq!(restored.package_type(), Some("module"));
    assert_eq!(side_effects_for(&restored, "style.css"), Some(true));
    assert_eq!(side_effects_for(&restored, "theme.css"), Some(true));
    assert_eq!(side_effects_for(&restored, "index.js"), Some(false));
}

#[test]
fn package_json_machine_payload_validates_counted_strings_once_before_materialization() {
    let machine_bytes =
        encode_package_json_machine_payload(&package(&["./style.css", "./theme.css"])).unwrap();
    let restored =
        decode_package_json_machine_payload(&machine_bytes, REALPATH.to_string()).unwrap();

    assert_eq!(side_effects_for(&restored, "style.css"), Some(true));
}

#[test]
fn package_json_machine_package_type_tag_decodes_static_values() {
    assert_eq!(package_type_from_machine_tag(0), Some(None));
    assert_eq!(package_type_from_machine_tag(1), Some(Some("commonjs")));
    assert_eq!(package_type_from_machine_tag(2), Some(Some("module")));
    assert_eq!(package_type_from_machine_tag(3), None);
}

#[test]
fn package_types_have_tags() {
    assert_eq!(package_type_tag(None), Some(0));
    assert_eq!(package_type_tag(Some("commonjs")), Some(1));
    assert_eq!(package_type_tag(Some("module")), Some(2));
    assert_eq!(package_type_tag(Some("future-type")), None);
}

#[test]
fn package_json_machine_rejects_unknown_side_effects_tag_before_reading_fields() {
    let machine_bytes = package_head(99);

    assert!(!is_package_json_machine_side_effects_tag(99));
    assert!(decode_package_json_machine_payload(&machine_bytes, "package.json".to_string())
        .is_none());
}

#[test]
fn package_json_machine_name_version_reader_decodes_arcstr() {
    let mut machine_bytes = Vec::new();
    write_optional_string(&mut machine_bytes, &Some("pkg".to_string()));
    write_optional_string(&mut machine_bytes, &Some("1.0.0".to_string()));
    let mut cursor = 0;

    let name = read_optional_string(&machine_bytes, &mut cursor).unwrap();
    let version = read_optional_string(&machine_bytes, &mut cursor).unwrap();

    assert_eq!(name.as_deref(), Some("pkg"));
    assert_eq!(version.as_deref(), Some("1.0.0"));
    assert_eq!(cursor, machine_bytes.len());
}

#[test]
fn package_json_machine_payload_rejects_impossible_string_count_before_reserve() {
    let mut machine_bytes = package_head(4);
    machine_bytes.extend_from_slice(&NONE_LEN.to_le_bytes());
    machine_bytes.extend_from_slice(&NONE_LEN.to_le_bytes());
    let count_cursor = machine_bytes.len();
    machine_bytes.extend_from_slice(&16_u32.to_le_bytes());

    assert!(!declared_string_count_fits_remaining(&machine_bytes, count_cursor + 4, 16));
    assert!(decode_package_json_machine_payload(&machine_bytes, "package.json".to_string())
        .is_none());
}

#[test]
fn package_json_machine_payload_rejects_truncated_counted_string_before_reserve() {
    let mut machine_bytes = package_head(4);
    machine_bytes.extend_from_slice(&NONE_LEN.to_le_bytes());
    machine_bytes.extend_from_slice(&NONE_LEN.to_le_bytes());
    machine_bytes.extend_from_slice(&1_u32.to_le_bytes());
    let string_cursor = machine_bytes.len();
    machine_bytes.extend_from_slice(&8_u32.to_le_bytes());

    assert!(declared_string_count_fits_remaining(&machine_bytes, string_cursor, 1));
    assert!(validated_counted_strings_end(&machine_bytes, string_cursor, 1).is_none());
    assert!(decode_package_json_machine_payload(&machine_bytes, "package.json".to_string())
        .is_none());
}

#[test]
fn package_json_machine_payload_rejects_trailing_bytes_before_materialization() {
    let mut machine_bytes =
        encode_package_json_machine_payload(&package(&["./style.css"])).unwrap();
    machine_bytes.push(0);

    assert!(decode_package_json_machine_payload(&machine_bytes, REALPATH.to_string()).is_none());
}

#[test]
fn package_json_optional_peer_deps_payload_rejects_impossible_count_before_reserve() {
    let mut machine_bytes = peers_head();
    let count_cursor = machine_bytes.len();
    machine_bytes.extend_from_slice(&16_u32.to_le_bytes());

    assert!(!declared_string_count_fits_remaining(&machine_bytes, count_cursor + 4, 16));
    assert!(
        decode_package_json_optional_peer_dependencies_machine_payload(&machine_bytes).is_none()
    );
}

#[test]
fn package_json_optional_peer_deps_payload_rejects_truncated_counted_string_before_reserve() {
    let mut machine_bytes = peers_head();
    machine_bytes.extend_from_slice(&1_u32.to_le_bytes());
    let string_cursor = machine_bytes.len();
    machine_bytes.extend_from_slice(&8_u32.to_le_bytes());

    assert!(declared_string_count_fits_remaining(&machine_bytes, string_cursor, 1));
    assert!(validated_counted_strings_end(&machine_bytes, string_cursor, 1).is_none());
    assert!(
        decode_package_json_optional_peer_dependencies_machine_payload(&machine_bytes).is_none()
    );
}

#[test]
fn package_json_optional_peer_deps_rejects_trailing_bytes_before_string_materialization() {
    let mut machine_bytes = peers_head();
    machine_bytes.extend_from_slice(&1_u32.to_le_bytes());
    write_string(&mut machine_bytes, "react");
    machine_bytes.push(0);

    assert!(
        decode_package_json_optional_peer_dependencies_machine_payload(&machine_bytes).is_none()
    );
}

#[test]
fn package_json_optional_peer_deps_parse_optional_dependencies() {
    let parsed = parse_package_json_optional_peer_dependencies(raw(
        br#"{
        "name": "pkg",
        "peerDependencies": {
          "react": "*",
          "vue": "*",
          "solid-js": "*"
        },
        "peerDependenciesMeta": {
          "react": { "optional": true },
          "vue": { "optional": false }
        }
      }"#,
    ));

    assert_eq!(parsed.name, "pkg");
    assert!(contains(&parsed, "react"));
    assert!(!contains(&parsed, "vue"));
    assert!(!contains(&parsed, "solid-js"));
}

#[test]
fn package_json_optional_peer_deps_machine_payload_round_trips_compact_binary() {
    let parsed = parse_package_json_optional_peer_dependencies(raw(
        br#"{
        "name": "pkg",
        "peerDependencies": {
          "react": "*",
          "vue": "*"
        },
        "peerDependenciesMeta": {
          "react": { "optional": true },
          "vue": { "optional": true }
        }
      }"#,
    ));

    let machine_bytes = encode_package_json_optional_peer_dependencies_machine_payload(&parsed)
        .expect("optional peer dependency payload should encode");

    assert!(machine_bytes.starts_with(&package_json_optional_peer_deps_machine_magic()));
    assert_ne!(machine_bytes.first(), Some(&b'{'));
    assert_eq!(
        machine_bytes.len(),
        package_json_optional_peer_dependencies_machine_payload_capacity(&parsed).unwrap()
    );

    let restored =
        decode_package_json_optional_peer_dependencies_machine_payload(&machine_bytes).unwrap();
    assert_eq!(restored.name, "pkg");
    assert!(contains(&restored, "react"));
    assert!(contains(&restored, "vue"));
}

#[test]
fn package_json_optional_peer_deps_legacy_decode_reuses_validated_count() {
    let mut machine_bytes = peers_head();
    machine_bytes.extend_from_slice(&2_u32.to_le_bytes());
    write_string(&mut machine_bytes, "react");
    write_string(&mut machine_bytes, "vue");

    let restored =
        decode_package_json_optional_peer_dependencies_machine_payload(&machine_bytes).unwrap();

    assert_eq!(restored.name, "pkg");
    assert!(contains(&restored, "react"));
    assert!(contains(&restored, "vue"));
}

#[test]
fn package_json_optional_peer_deps_sorted_refs_and_capacity_are_built_together() {
    let parsed = peers(&["vue", "react"]);
    let capacity =
        package_json_optional_peer_dependencies_machine_payload_capacity(&parsed).unwrap();
    let machine_bytes = encode_package_json_optional_peer_dependencies_machine_payload(&parsed)
        .expect("optional peer dependency payload should encode");

    assert_eq!(parsed.optional_peer_dependencies, vec!["react", "vue"]);
    assert_eq!(capacity, machine_bytes.len());
    assert_eq!(machine_bytes.capacity(), machine_bytes.len());
}

#[test]
fn package_json_optional_peer_deps_machine_payload_is_stable_across_set_order() {
    let first = encode_package_json_optional_peer_dependencies_machine_payload(&peers(&[
        "vue",
        "@scope/pkg",
        "react",
    ]))
    .expect("optional peer dependency payload should encode");
    let second = encode_package_json_optional_peer_dependencies_machine_payload(&peers(&[
        "react",
        "vue",
        "@scope/pkg",
    ]))
    .expect("optional peer dependency payload should encode");

    assert_eq!(first, second);
    let restored = decode_package_json_optional_peer_dependencies_machine_payload(&first)
        .expect("encoded payload should decode");
    assert!(contains(&restored, "@scope/pkg"));
    assert!(contains(&restored, "react"));
    assert!(contains(&restored, "vue"));
}

#[test]
fn package_json_optional_peer_deps_reserves_candidate_set_from_raw_maps() {
    let names = optional_peer_dependencies_from_maps(
        vec!["react".to_string(), "vue".to_string(), "solid-js".to_string()],
        &vec![("react".to_string(), true), ("vue".to_string(), false)],
    );

    assert!(names.contains(&"react".to_string()));
    assert!(!names.contains(&"vue".to_string()));
    assert!(!names.contains(&"solid-js".to_string()));
}

#[test]
fn package_json_optional_peer_deps_strip_bom_and_reject_syntax_errors() {
    let parsed = parse_package_json_optional_peer_dependencies(raw(
        "\u{feff}{\"name\":\"pkg\"}".as_bytes(),
    ));
    assert_eq!(parsed.name, "pkg");
    assert!(parsed.optional_peer_dependencies.is_empty());

    let invalid = parse_package_json_optional_peer_dependencies(raw(br#"{"name":"pkg""#));
    assert_eq!(invalid, PackageJsonOptionalPeerDependencies::default());
}

#[test]
fn package_json_optional_peer_deps_bom_strip_works_on_bytes() {
    let source = "\u{feff}{\"name\":\"pkg\"}".as_bytes();

    assert_eq!(package_json_source_without_utf8_bom(source), br#"{"name":"pkg"}"#);
    assert_eq!(package_json_source_without_utf8_bom(br#"{"name":"pkg"}"#), br#"{"name":"pkg"}"#);
}

#[test]
fn package_json_optional_peer_deps_duplicate_keys_follow_serde_json_semantics() {
    let parsed = parse_package_json_optional_peer_dependencies(raw(
        br#"{
        "name": "pkg",
        "peerDependencies": { "react": "*" },
        "peerDependenciesMeta": {
          "react": { "optional": true },
          "react": { "optional": false }
        }
      }"#,
    ));

    assert!(!contains(&parsed, "react"));
}

#[test]
fn decoded_payload_encodes_back_to_itself() {
    let bytes = encode_package_json_machine_payload(&package(&["./a.js", "b/*.css"])).unwrap();
    let decoded = decode_package_json_machine_payload(&bytes, REALPATH.to_string()).unwrap();
    assert_eq!(encode_package_json_machine_payload(&decoded), Some(bytes.clone()));
    let mut longer = bytes;
    longer.push(0);
    assert!(decode_package_json_machine_payload(&longer, REALPATH.to_string()).is_none());
}

#[test]
fn layout_of_a_cut_header_is_refused() {
    let magic = package_json_machine_magic();
    assert!(!package_json_machine_payload_layout_is_valid(&magic, 0));
    assert!(!package_json_machine_payload_layout_is_valid(&[], 0));
}
