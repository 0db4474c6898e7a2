use rolldown_dx_cache::css_bundle::{collect_css_bundle, non_codesplit_css_bundle, CssChunkNode};
use rolldown_dx_cache::css_asset::{
    css_asset_request, css_public_asset_request, public_asset_url, resolve_css_assets,
    CssAssetItem, PublicAssetError,
};
use rolldown_dx_cache::css_chunk::{
    css_chunk_has_asset_name, css_expression, css_injection_edit, css_injection_point,
    css_injection_point_behind, plan_css_chunk, CssChunkFacts, CssChunkPlace, CssInjectionError, OutputFormat,
};
use rolldown_dx_cache::css_name::{
    begin_css_bundle_name, consult_css_package_name_cache, css_bundle_name_not_found_message,
    css_package_name_cache_target, decode_css_package_name_machine_payload,
    encode_css_package_name_machine_payload, normalize_css_package_name_for_bundle,
    parse_css_package_name_for_bundle, write_css_package_name, CssBundleNameStep,
    CssPackageNameError, CssPackageNameRead, CssPackageNameRoot,
    CSS_PACKAGE_NAME_MACHINE_MIN_SOURCE_BYTES, DEFAULT_CSS_BUNDLE_NAME,
};
use rolldown_dx_cache::css_path::{
    css_asset_path, css_relative_asset_url, css_relative_public_url, dotted_relative_path,
    file_name, get_css_asset_dir_name, parent_path,
};
use rolldown_dx_cache::css_prune::{
    empty_chunk_pattern, empty_css_chunk_imports, empty_css_imports, prune_chunks_with_codes,
    prune_pure_css_chunks, BundleChunk, BundleOutput, ChunkMetadata,
};
use rolldown_dx_cache::css_text::{
    extract_index, finalize_css, hoist_at_rules, mark_css, prepare_css, VITE_HASH_UPDATE_MARKER,
};
use rolldown_dx_cache::css_url::{
    css_url_emission, css_url_placeholder, css_url_positions, CssUrlCache, CssUrlEmission,
    CssUrlError, CssUrlRun, CssUrlStep,
};
use rolldown_dx_cache::machine_cache::{DxMachineCacheConfig, FileRead, MachineCacheFiles};
use rolldown_dx_cache::machine_write::MachineArtifactWrite;
use rolldown_dx_cache::package_json::package_json_source_without_utf8_bom;
use rolldown_dx_cache::path_text::PathStyle;
use rolldown_dx_cache::pattern::CapturedRange;
use rolldown_dx_cache::text_edit::{add_edit, apply_edits, find_all, TextEdit};
use sugar_path::SugarPath;

const UNIX: PathStyle = PathStyle::Unix;

fn root_of(source: &[u8]) -> CssPackageNameRoot {
    let value: serde_json::Value =
        serde_json::from_slice(package_json_source_without_utf8_bom(source)).unwrap();
    match value.as_object() {
        Some(entries) => CssPackageNameRoot::Object(
            entries.get("name").and_then(|name| name.as_str()).map(|name| name.to_string()),
        ),
        None => CssPackageNameRoot::Other,
    }
}

fn parse(source: &[u8]) -> Result<Option<String>, CssPackageNameError> {
    parse_css_package_name_for_bundle(&root_of(source))
}

fn large_package(len: usize) -> Vec<u8> {
    let mut source = br#"{"name":"@scope/ui-kit"}"#.to_vec();
    source.resize(len, b' ');
    source
}

fn enabled_config() -> Option<DxMachineCacheConfig> {
    Some(DxMachineCacheConfig::from_env_value("/project", Some("1".to_string()), UNIX))
}

fn files_of(write: &MachineArtifactWrite) -> MachineCacheFiles {
    MachineCacheFiles {
        metadata: FileRead::Bytes(write.metadata.bytes.clone()),
        parsed: None,
        machine: FileRead::Bytes(write.machine.bytes.clone()),
    }
}

fn no_files() -> MachineCacheFiles {
    MachineCacheFiles { metadata: FileRead::NotFound, parsed: None, machine: FileRead::NotFound }
}

#[test]
fn css_package_name_machine_payload_round_trips_compact_binary() {
    let machine_bytes = encode_css_package_name_machine_payload("ui-kit").unwrap();

    assert!(machine_bytes.starts_with(b"RDXCSSN1"));
    assert_ne!(machine_bytes.first(), Some(&b'{'));
    assert_eq!(decode_css_package_name_machine_payload(&machine_bytes).as_deref(), Some("ui-kit"));
}

#[test]
fn css_package_name_payload_is_exact() {
    let machine_bytes = encode_css_package_name_machine_payload("ui").unwrap();
    assert_eq!(machine_bytes, b"RDXCSSN1\0\0\0\0\x02\0\0\0ui");

    let mut longer = machine_bytes.clone();
    longer.push(b'x');
    assert_eq!(decode_css_package_name_machine_payload(&longer), None);
    assert_eq!(decode_css_package_name_machine_payload(&machine_bytes[..17]), None);
    let mut padded = machine_bytes.clone();
    padded[9] = 1;
    assert_eq!(decode_css_package_name_machine_payload(&padded), None);
    let mut invalid = machine_bytes;
    invalid[17] = 0xff;
    assert_eq!(decode_css_package_name_machine_payload(&invalid), None);
}

#[test]
fn css_package_name_parser_preserves_current_bundle_name_rules() {
    assert_eq!(
        parse(b"\xef\xbb\xbf{\"name\":\"@scope/ui-kit\"}").unwrap().as_deref(),
        Some("ui-kit")
    );
    assert_eq!(parse(br#"["not", "object"]"#).unwrap(), None);

    let error = parse(br#"{"version":"1.0.0"}"#).unwrap_err();
    assert!(error.message().contains("Name in package.json is required"));
}

#[test]
fn css_package_name_parser_accepts_bom_bytes_without_utf8_prepass() {
    assert_eq!(
        parse(b"\xef\xbb\xbf{\"name\":\"@scope/ui-kit\"}").unwrap().as_deref(),
        Some("ui-kit")
    );
}

#[test]
fn css_package_name_document_ignores_unused_values() {
    assert_eq!(
        root_of(br#"{"unused":{"deep":["value",{"nested":true}]},"name":"@scope/ui-kit"}"#),
        CssPackageNameRoot::Object(Some("@scope/ui-kit".to_string()))
    );
}

#[test]
fn css_package_names_lose_their_scope() {
    assert_eq!(normalize_css_package_name_for_bundle("plain"), "plain");
    assert_eq!(normalize_css_package_name_for_bundle("plain/part"), "plain/part");
    assert_eq!(normalize_css_package_name_for_bundle("@scope/a/b"), "a/b");
    assert_eq!(normalize_css_package_name_for_bundle("@scope"), "@scope");
}

#[test]
fn css_package_name_cache_skips_sources_at_exact_payoff_boundary() {
    let len = CSS_PACKAGE_NAME_MACHINE_MIN_SOURCE_BYTES;
    let config = enabled_config();
    assert!(css_package_name_cache_target("/project", "/project/package.json", len, &config)
        .is_none());
}

#[test]
fn css_package_name_cache_writes_sources_above_payoff_boundary() {
    let source = large_package(CSS_PACKAGE_NAME_MACHINE_MIN_SOURCE_BYTES + 1);
    let target = css_package_name_cache_target(
        "/project",
        "/project/package.json",
        source.len(),
        &enabled_config(),
    )
    .unwrap();
    assert_eq!(target.source_path, "package.json");
    let write = write_css_package_name(&target, &source, "ui-kit", None).unwrap();
    assert!(matches!(
        consult_css_package_name_cache(
            &target,
            "/project/package.json",
            &source,
            files_of(&write),
            files_of(&write),
        ),
        CssPackageNameRead::Name(name) if name == "ui-kit"
    ));
    let mut changed = source.clone();
    changed[10] = b'x';
    assert!(matches!(
        consult_css_package_name_cache(
            &target,
            "/project/package.json",
            &changed,
            files_of(&write),
            files_of(&write),
        ),
        CssPackageNameRead::Miss
    ));
}

#[test]
fn css_package_name_disabled_cache_has_no_paths() {
    let len = CSS_PACKAGE_NAME_MACHINE_MIN_SOURCE_BYTES + 1;
    let disabled = Some(DxMachineCacheConfig::from_env_value("/project", None, UNIX));
    assert!(css_package_name_cache_target("/project", "/project/package.json", len, &disabled)
        .is_none());
    assert!(css_package_name_cache_target("/project", "/project/package.json", len, &None)
        .is_none());
}

#[test]
fn css_package_name_cache_preserves_absolute_metadata_fallback_after_relative_invalid() {
    let source = large_package(CSS_PACKAGE_NAME_MACHINE_MIN_SOURCE_BYTES + 1);
    let target = css_package_name_cache_target(
        "/project",
        "/project/package.json",
        source.len(),
        &enabled_config(),
    )
    .unwrap();
    let payload = encode_css_package_name_machine_payload("ui-kit").unwrap();
    let write = target
        .config
        .write_machine_artifact(&target.paths, "/project/package.json", &source, &payload)
        .unwrap();
    assert!(matches!(
        consult_css_package_name_cache(
            &target,
            "/project/package.json",
            &source,
            files_of(&write),
            files_of(&write),
        ),
        CssPackageNameRead::Name(name) if name == "ui-kit"
    ));
}

#[test]
fn css_package_name_cache_cold_miss_skips_absolute_package_path_retry() {
    let source = large_package(CSS_PACKAGE_NAME_MACHINE_MIN_SOURCE_BYTES + 1);
    let target = css_package_name_cache_target(
        "/project",
        "/project/package.json",
        source.len(),
        &enabled_config(),
    )
    .unwrap();
    let write = write_css_package_name(&target, &source, "ui-kit", None).unwrap();
    assert!(matches!(
        consult_css_package_name_cache(
            &target,
            "/project/package.json",
            &source,
            no_files(),
            files_of(&write),
        ),
        CssPackageNameRead::Miss
    ));
}

#[test]
fn css_package_name_cache_repairs_validated_decode_miss_with_source_hash() {
    let source = large_package(CSS_PACKAGE_NAME_MACHINE_MIN_SOURCE_BYTES + 1);
    let target = css_package_name_cache_target(
        "/project",
        "/project/package.json",
        source.len(),
        &enabled_config(),
    )
    .unwrap();
    let broken = target
        .config
        .write_machine_artifact(&target.paths, &target.source_path, &source, b"no payload")
        .unwrap();
    let CssPackageNameRead::Repair(hash) = consult_css_package_name_cache(
        &target,
        "/project/package.json",
        &source,
        files_of(&broken),
        files_of(&broken),
    ) else {
        panic!("expected a repair");
    };
    assert_eq!(&hash, blake3::hash(&source).as_bytes());
    assert_eq!(
        write_css_package_name(&target, &source, "ui-kit", Some(hash)),
        write_css_package_name(&target, &source, "ui-kit", None)
    );
}

fn searched_name(root: &str, names: &[(&str, &str)]) -> Option<String> {
    let mut step = begin_css_bundle_name(None, true, None, root, UNIX);
    loop {
        match step {
            CssBundleNameStep::Named(name) => return Some(name),
            CssBundleNameStep::NotFound => return None,
            CssBundleNameStep::Probe(search) => {
                let probe = search.probe();
                let found = names
                    .iter()
                    .find(|(path, _)| *path == probe)
                    .map(|(_, name)| name.to_string());
                step = search.next(found);
            }
        }
    }
}

#[test]
fn css_bundle_name_comes_from_the_nearest_package() {
    let names = [("/a/package.json", "outer"), ("/a/b/package.json", "inner")];
    assert_eq!(searched_name("/a/b/c", &names).as_deref(), Some("inner.css"));
    assert_eq!(searched_name("/a", &names).as_deref(), Some("outer.css"));
    assert_eq!(searched_name("/x", &names), None);
    assert_eq!(searched_name("x", &[("package.json", "here")]).as_deref(), Some("here.css"));
    assert_eq!(
        css_bundle_name_not_found_message(),
        "Didn't find the nearest package.json when determining the library CSS bundle name."
    );
}

#[test]
fn css_bundle_name_options_come_first() {
    let named = |step: CssBundleNameStep| match step {
        CssBundleNameStep::Named(name) => name,
        _ => panic!("expected a name"),
    };
    assert_eq!(
        named(begin_css_bundle_name(Some("known.css".to_string()), true, None, "/a", UNIX)),
        "known.css"
    );
    assert_eq!(named(begin_css_bundle_name(None, false, None, "/a", UNIX)), "style.css");
    assert_eq!(DEFAULT_CSS_BUNDLE_NAME, "style.css");
    assert_eq!(
        named(begin_css_bundle_name(None, true, Some("lib.css".to_string()), "/a", UNIX)),
        "lib.css"
    );
}

#[test]
fn index_is_read_behind_its_marker() {
    assert_eq!(extract_index("a.vue?type=style&index=12&lang.css"), Some("12"));
    assert_eq!(extract_index("a.html?html-proxy&index=0.css"), Some("0"));
    assert_eq!(extract_index("a.html?html-proxy&index=.css"), None);
    assert_eq!(extract_index("a.html&index=x&index=7"), None);
    assert_eq!(extract_index("é&index=7é"), Some("7"));
    assert_eq!(extract_index("a.css"), None);
}

#[test]
fn at_rules_are_hoisted() {
    assert_eq!(
        hoist_at_rules("a{}@import url(b.css);@charset \"utf-8\";c{}@import \"d.css\";"),
        "@charset \"utf-8\";@import url(b.css);@import \"d.css\";a{}c{}"
    );
}

#[test]
fn at_rules_in_comments_stay() {
    let css = "/* @import \"a.css\"; é */ b{}";
    assert_eq!(hoist_at_rules(css), css);
    assert_eq!(
        hoist_at_rules("a{}@import /* é */ \"b.css\";"),
        "@import          \"b.css\";a{}"
    );
}

#[test]
fn only_the_first_charset_is_kept() {
    assert_eq!(
        hoist_at_rules("a{}@charset \"utf-8\";b{}@charset \"ascii\";"),
        "@charset \"utf-8\";a{}b{}"
    );
}

#[test]
fn semicolons_in_import_urls_do_not_end_the_rule() {
    assert_eq!(
        hoist_at_rules("a{}@import url(\"data:text/css;base64,YQ==\") screen;b{}"),
        "@import url(\"data:text/css;base64,YQ==\") screen;a{}b{}"
    );
}

#[test]
fn finalized_css_is_marked() {
    assert_eq!(finalize_css("a{}".to_string()), "a{}/*$vite$:1*/");
    assert_eq!(
        finalize_css("a{}@import \"b.css\";".to_string()),
        "@import \"b.css\";a{}/*$vite$:1*/"
    );
    assert_eq!(prepare_css("a{}".to_string()), "a{}");
    assert_eq!(mark_css("a{}".to_string()), format!("a{{}}{VITE_HASH_UPDATE_MARKER}"));
}

#[test]
fn css_urls_are_found_and_read() {
    let id = "/src/style.css?url é";
    let code = format!(
        "const a = \"é\";\nuse(__VITE_CSS_URL__{}__);",
        base64_simd::STANDARD.encode_to_string(id)
    );
    let positions = css_url_positions(&code);
    assert_eq!(positions, [code.find("__VITE").unwrap()]);
    let found = css_url_placeholder(&code, positions[0]).unwrap();
    assert_eq!(found.id, id);
    assert_eq!(&code[found.end..], ");");
}

fn css_url(id: &str) -> String {
    format!("__VITE_CSS_URL__{}__", base64_simd::STANDARD.encode_to_string(id))
}

#[test]
fn css_urls_are_replaced_and_each_id_is_emitted_once() {
    let code = format!("é({},{},{});", css_url("/a.css"), css_url("/b.css"), css_url("/a.css"));
    let mut cache = CssUrlCache::new();
    let mut run = CssUrlRun::new(code.clone());
    let mut emitted = Vec::new();
    loop {
        match run.advance(&cache) {
            CssUrlStep::Emit { id } => {
                cache.insert(&id, &format!("\"{id}?hash\""));
                emitted.push(id);
            }
            CssUrlStep::Failed(error) => panic!("{error:?}"),
            CssUrlStep::Done => break,
        }
    }
    assert_eq!(emitted, ["/a.css", "/b.css"]);
    assert_eq!(
        apply_edits(&code, &run.edits).unwrap(),
        "é(\"/a.css?hash\",\"/b.css?hash\",\"/a.css?hash\");"
    );
    assert_eq!(cache.url("/b.css").as_deref(), Some("\"/b.css?hash\""));
    assert_eq!(cache.url("/c.css"), None);

    let mut again = CssUrlRun::new(code);
    assert_eq!(again.advance(&cache), CssUrlStep::Done);
    assert_eq!(again.edits, run.edits);
}

#[test]
fn css_urls_stop_at_a_broken_placeholder() {
    let mut cache = CssUrlCache::new();
    cache.insert("/a.css", "a");
    let mut run = CssUrlRun::new(format!("{};__VITE_CSS_URL__*__", css_url("/a.css")));
    assert_eq!(run.advance(&cache), CssUrlStep::Failed(CssUrlError::InvalidBase64));
    assert_eq!(run.edits.len(), 1);
    assert_eq!(CssUrlRun::new("none".to_string()).advance(&cache), CssUrlStep::Done);
}

#[test]
fn broken_css_urls_are_reported() {
    let unclosed = css_url_placeholder("__VITE_CSS_URL__abc", 0).unwrap_err();
    assert_eq!(unclosed, CssUrlError::Unclosed);
    assert_eq!(
        unclosed.message("index"),
        "Invalid __VITE_CSS_URL__ in 'index', expected '__VITE_CSS_URL__<base64>__'"
    );
    let invalid = css_url_placeholder("__VITE_CSS_URL__a*c=__", 0).unwrap_err();
    assert_eq!(invalid, CssUrlError::InvalidBase64);
    assert_eq!(invalid.message("index"), "Invalid base64 in '__VITE_CSS_URL__'");
    assert_eq!(
        css_url_placeholder("__VITE_CSS_URL__YR==__", 0).unwrap_err(),
        CssUrlError::InvalidBase64
    );
    assert_eq!(
        css_url_placeholder("__VITE_CSS_URL__/w==__", 0).unwrap_err(),
        CssUrlError::InvalidId
    );
}

#[test]
fn css_is_emitted_under_the_name_of_its_file() {
    assert_eq!(
        css_url_emission("/src/a.scss?url", Some("b{}".to_string()), "/src/a.scss", UNIX),
        Ok(CssUrlEmission { style: "b{}".to_string(), asset_name: "a.css".to_string() })
    );
    assert_eq!(
        css_url_emission("a", None, "a", UNIX),
        Err("CSS content for  'a' was not found".to_string())
    );
}

fn facts() -> CssChunkFacts {
    CssChunkFacts {
        format: OutputFormat::Esm,
        css_code_split: true,
        is_client: true,
        is_pure_css_chunk: true,
        chunk_filename: "assets/index-123.js".to_string(),
        chunk_name: "pages/index.module".to_string(),
        is_entry: true,
        facade_is_css: false,
    }
}

#[test]
fn split_css_goes_to_an_asset() {
    let plan = plan_css_chunk(&facts(), UNIX);
    assert!(plan.record_pure_chunk);
    assert_eq!(
        plan.place,
        CssChunkPlace::Asset { name: "index.css".to_string(), is_css_entry: true }
    );

    let dynamic = CssChunkFacts { is_entry: false, is_pure_css_chunk: false, ..facts() };
    let plan = plan_css_chunk(&dynamic, UNIX);
    assert!(!plan.record_pure_chunk);
    assert_eq!(
        plan.place,
        CssChunkPlace::Asset { name: "pages/index.css".to_string(), is_css_entry: false }
    );

    let css_facade = CssChunkFacts { facade_is_css: true, ..facts() };
    assert_eq!(
        plan_css_chunk(&css_facade, UNIX).place,
        CssChunkPlace::Asset { name: "pages/index.css".to_string(), is_css_entry: true }
    );
}

#[test]
fn entries_without_a_file_name_have_no_asset_name() {
    let nameless = CssChunkFacts { chunk_name: "pages/..".to_string(), ..facts() };
    assert!(!css_chunk_has_asset_name(&nameless, UNIX));
    assert!(css_chunk_has_asset_name(&facts(), UNIX));
    let shared = CssChunkFacts { css_code_split: false, ..nameless };
    assert!(css_chunk_has_asset_name(&shared, UNIX));
}

#[test]
fn other_css_goes_to_the_code_or_the_bundle() {
    let iife = CssChunkFacts { format: OutputFormat::Iife, ..facts() };
    let plan = plan_css_chunk(&iife, UNIX);
    assert!(!plan.record_pure_chunk);
    assert_eq!(plan.place, CssChunkPlace::Code);

    let legacy =
        CssChunkFacts { chunk_filename: "assets/index-legacy-1.js".to_string(), ..facts() };
    assert_eq!(plan_css_chunk(&legacy, UNIX).place, CssChunkPlace::Code);

    let server = CssChunkFacts { is_client: false, ..legacy };
    assert_eq!(plan_css_chunk(&server, UNIX).place, CssChunkPlace::Nowhere);

    let shared = CssChunkFacts { css_code_split: false, ..facts() };
    assert_eq!(plan_css_chunk(&shared, UNIX).place, CssChunkPlace::Bundle);
}

#[test]
fn css_is_injected_behind_hashbangs_and_function_heads() {
    assert_eq!(css_injection_point(OutputFormat::Esm, "a();"), Ok(0));
    assert_eq!(css_injection_point(OutputFormat::Esm, "#!/usr/bin/env node\na();"), Ok(19));
    assert_eq!(css_injection_point(OutputFormat::Esm, "#!/usr/bin/env node"), Ok(0));
    assert_eq!(
        css_injection_point(OutputFormat::Cjs, "a();"),
        Err(CssInjectionError::UnsupportedFormat)
    );
    let iife = "var lib = (function(a) { \"use strict\"; b(); })();";
    assert_eq!(
        css_injection_point(OutputFormat::Iife, iife),
        Ok(iife.find(" b();").unwrap())
    );
    let umd = "(function(g, f) { f(); })(this, function(exports) { b(); });";
    assert_eq!(css_injection_point(OutputFormat::Umd, umd), Ok(umd.find(" b();").unwrap()));
    assert_eq!(
        css_injection_point(OutputFormat::Umd, "a();"),
        Err(CssInjectionError::PointNotFound)
    );
    assert_eq!(css_injection_point_behind(OutputFormat::Iife, "", &vec![(3, 8)]), Ok(8));
    assert_eq!(
        CssInjectionError::PointNotFound.message(),
        "Injection point for inlined CSS not found"
    );
    assert_eq!(
        CssInjectionError::UnsupportedFormat.message(),
        "CJS format is not supported for CSS injection"
    );
}

#[test]
fn injected_code_adds_a_style_element() {
    let edit = css_injection_edit(0, &css_expression("a{}"));
    assert_eq!(
        apply_edits("b();", &vec![edit]).unwrap(),
        "var __vite_style__ = document.createElement('style');__vite_style__.textContent = \
         \"a{}\";document.head.appendChild(__vite_style__);b();"
    );
}

#[test]
fn asset_urls_in_css() {
    let request = css_asset_request("img/a.png", &Some("?x#y".to_string()), "assets");
    assert_eq!(request.path, "img/a.png?x#y");
    assert!(!request.is_public);
    assert_eq!(request.relative_url.as_deref(), Some("../img/a.png?x#y"));
    assert_eq!(css_asset_request("a.png", &None, "").path, "a.png");
    let request = css_public_asset_request("/a.png".to_string(), "root", "assets");
    assert_eq!(request.path, "/a.png");
    assert!(request.is_public);
    assert_eq!(request.relative_url.as_deref(), Some("../root/a.png"));
    let rooted = "/srv/app/dist/assets";
    let request = css_public_asset_request("/a.png".to_string(), "/srv/app/public", rooted);
    assert_eq!(request.relative_url.as_deref(), Some("../../public/a.png"));
    let request = css_public_asset_request("/a.png".to_string(), "/no-such-root/app", "assets");
    let url = request.relative_url.unwrap();
    assert!(url.starts_with("../") && url.ends_with("../no-such-root/app/a.png"), "{url}");
    let way = std::path::Path::new("/no-such-root/app").relative("assets").into_owned();
    assert_eq!(url, format!("{}/a.png", way.to_slash_lossy()));
    let request = css_asset_request("/srv/app/a.png", &None, rooted);
    assert_eq!(request.relative_url.as_deref(), Some("../../a.png"));
    assert_eq!(public_asset_url(true, Some("/a.png".to_string())), Ok("/a.png".to_string()));
    let missing = public_asset_url(false, Some("/a.png".to_string())).unwrap_err();
    assert_eq!(missing, PublicAssetError::CacheMissing);
    assert_eq!(missing.message("x"), "PublicAssetUrlCache missing");
    let unknown = public_asset_url(true, None).unwrap_err();
    assert_eq!(unknown.message("__VITE_PUBLIC__"), "Can't find the cache of __VITE_PUBLIC__");
}

#[test]
fn assets_in_css_are_replaced_by_their_urls() {
    let css = "a{b:url(X)}é{b:url(YY)}";
    let first = css.find('X').unwrap();
    let second = css.find("YY").unwrap();
    let items = vec![
        CssAssetItem::Asset {
            start: first,
            end: first + 1,
            reference_id: "r".to_string(),
            postfix: None,
        },
        CssAssetItem::PublicAsset { start: second, end: second + 2, hash: "h".to_string() },
    ];
    let urls = vec!["./a.png".to_string(), "/b.png".to_string()];
    assert_eq!(
        resolve_css_assets(css, &items, &urls).as_deref(),
        Some("a{b:url(./a.png)}é{b:url(/b.png)}")
    );
    assert_eq!(resolve_css_assets(css, &Vec::new(), &Vec::new()).as_deref(), Some(css));
    let crossed = vec![items[1].clone(), items[0].clone()];
    assert_eq!(resolve_css_assets(css, &crossed, &urls), None);
}

#[test]
fn asset_paths_take_the_css_extension() {
    assert_eq!(css_asset_path("pages/index", UNIX), "pages/index.css");
    assert_eq!(css_asset_path("pages/index.module.scss", UNIX), "pages/index.module.css");
    assert_eq!(css_asset_path("pages/.hidden", UNIX), "pages/.hidden.css");
    assert_eq!(css_asset_path("pages/a.b/", UNIX), "pages/a.css");
    assert_eq!(css_asset_path("pages/..", UNIX), "pages/..");
    assert_eq!(css_asset_path("", UNIX), "");
    for path in ["pages/index", "a.b.c", "x/.y", "x/y.", "a/./", "..", "/", "a/b/"] {
        assert_eq!(
            css_asset_path(path, UNIX),
            std::path::Path::new(path).with_extension("css").to_str().unwrap(),
            "{path}"
        );
        assert_eq!(
            file_name(path, UNIX).as_deref(),
            std::path::Path::new(path).file_name().map(|name| name.to_str().unwrap()),
            "{path}"
        );
        assert_eq!(
            parent_path(path, UNIX).as_deref(),
            std::path::Path::new(path).parent().map(|parent| parent.to_str().unwrap()),
            "{path}"
        );
    }
}

#[test]
fn asset_directories_follow_the_file_name_pattern() {
    assert_eq!(
        get_css_asset_dir_name("pages/a.css", "", "assets", UNIX).as_deref(),
        Some("assets/pages")
    );
    assert_eq!(
        get_css_asset_dir_name("a.css", "static/[name].css", "assets", UNIX).as_deref(),
        Some("static/")
    );
    assert_eq!(
        get_css_asset_dir_name(r"pages\a.css", "", "assets", PathStyle::Windows).as_deref(),
        Some("assets/pages")
    );
    assert_eq!(get_css_asset_dir_name("", "", "assets", UNIX), None);
}

#[test]
fn asset_urls_are_relative_to_the_css() {
    assert_eq!(
        css_relative_asset_url("assets/a.png", "assets").as_deref(),
        Some("./a.png")
    );
    assert_eq!(
        css_relative_asset_url("img/a.png", "assets/css").as_deref(),
        Some("../../img/a.png")
    );
    assert_eq!(
        css_relative_public_url("root", "assets/css", "/a.png").as_deref(),
        Some("../../root/a.png")
    );
    assert_eq!(dotted_relative_path("a"), "./a");
    assert_eq!(dotted_relative_path("../a"), "../a");
}

#[test]
fn edits_are_kept_in_order() {
    let edit = |start: usize, end: usize, text: &str| TextEdit {
        start,
        end,
        text: text.to_string(),
    };
    let mut edits = Vec::new();
    assert!(add_edit(&mut edits, edit(4, 6, "B"), 8));
    assert!(add_edit(&mut edits, edit(0, 2, "A"), 8));
    assert!(add_edit(&mut edits, edit(4, 4, "+"), 8));
    assert!(!add_edit(&mut edits, edit(1, 5, "X"), 8));
    assert!(!add_edit(&mut edits, edit(7, 9, "X"), 8));
    assert_eq!(apply_edits("aabbccdd", &edits).as_deref(), Some("Abb+Bdd"));
    assert_eq!(apply_edits("é", &vec![edit(1, 2, "")]), None);
    assert_eq!(apply_edits("ab", &vec![edit(1, 2, ""), edit(0, 1, "")]), None);
    assert_eq!(find_all(b"aaaa", b"aa"), [0, 2]);
}

fn node(
    filename: &str,
    is_entry: bool,
    imports: &[&str],
    dynamic_imports: &[&str],
    css: Option<&str>,
) -> CssChunkNode {
    let list = |names: &[&str]| names.iter().map(|name| name.to_string()).collect();
    CssChunkNode {
        filename: filename.to_string(),
        is_entry,
        imports: list(imports),
        dynamic_imports: list(dynamic_imports),
        css: css.map(|css| css.to_string()),
    }
}

#[test]
fn bundle_css_follows_imports_and_then_dynamic_imports() {
    let nodes = vec![
        node("entry.js", true, &["b.js", "missing.js"], &["lazy.js"], Some("entry;")),
        node("a.js", false, &["b.js"], &[], Some("a;")),
        node("b.js", false, &["a.js"], &["lazy.js", "later.js"], Some("b;")),
        node("lazy.js", false, &["a.js"], &["deep.js"], Some("lazy;")),
        node("later.js", false, &[], &[], None),
        node("deep.js", false, &[], &["entry.js"], Some("deep;")),
        node("unused.js", false, &[], &[], Some("unused;")),
    ];
    let state = collect_css_bundle(&nodes);
    assert_eq!(state.css, "a;b;entry;lazy;deep;");
    assert_eq!(
        state.visited,
        ["entry.js", "b.js", "a.js", "lazy.js", "later.js", "deep.js"]
    );
    assert!(state.pending.is_empty());
}

#[test]
fn bundle_css_is_emitted_once_and_only_where_chunks_share_it() {
    let nodes = vec![node("entry.js", true, &[], &[], Some("a{}"))];
    assert_eq!(non_codesplit_css_bundle(false, false, &nodes).as_deref(), Some("a{}"));
    assert_eq!(non_codesplit_css_bundle(true, false, &nodes), None);
    assert_eq!(non_codesplit_css_bundle(false, true, &nodes), None);
    let empty = vec![node("entry.js", true, &[], &[], None)];
    assert_eq!(non_codesplit_css_bundle(false, false, &empty), None);
}

fn chunk(filename: &str, preliminary: &str, imports: &[&str], code: &str) -> BundleOutput {
    BundleOutput::Chunk(BundleChunk {
        filename: filename.to_string(),
        preliminary_filename: preliminary.to_string(),
        imports: imports.iter().map(|name| name.to_string()).collect(),
        code: code.to_string(),
    })
}

fn record(id: &str, css: &[&str], assets: &[&str]) -> ChunkMetadata {
    let list = |names: &[&str]| names.iter().map(|name| name.to_string()).collect();
    ChunkMetadata { id: id.to_string(), imported_css: list(css), imported_assets: list(assets) }
}

#[test]
fn pure_css_chunks_are_pruned() {
    let outputs = vec![
        chunk(
            "assets/main.js",
            "main",
            &["assets/style.js", "assets/lib.js"],
            "import \"./style.js\";import \"./lib.js\";run();",
        ),
        chunk("assets/style.js", "style", &[], ""),
        chunk("assets/lib.js", "lib", &[], "lib();"),
        BundleOutput::Asset("assets/style.js.map".to_string()),
        BundleOutput::Asset("assets/style".to_string()),
    ];
    let pruned = prune_pure_css_chunks(
        outputs,
        &vec!["style".to_string()],
        OutputFormat::Esm,
        vec![record("style", &["assets/style.css"], &["a.png"]), record("main", &["b.css"], &[])],
        UNIX,
    )
    .unwrap();

    assert_eq!(
        pruned.outputs,
        [
            chunk(
                "assets/main.js",
                "main",
                &["assets/lib.js"],
                "/* empty css      */import \"./lib.js\";run();",
            ),
            chunk("assets/lib.js", "lib", &[], "lib();"),
            BundleOutput::Asset("assets/style.js.map".to_string()),
            BundleOutput::Asset("assets/style".to_string()),
        ]
    );
    assert_eq!("/* empty css      */".len(), "import \"./style.js\";".len());
    assert_eq!(pruned.removed.len(), 1);
    assert_eq!(pruned.removed[0].filename, "assets/style.js");
    assert_eq!(
        pruned.metadata,
        [
            record("style", &["assets/style.css"], &["a.png"]),
            record("main", &["b.css", "assets/style.css"], &["a.png"]),
            record("lib", &[], &[]),
        ]
    );
}

#[test]
fn required_pure_css_chunks_are_pruned() {
    let names = vec!["assets/style.js".to_string()];
    let code = "var a = 1, b = require(\"./style.js\"), c = 2;require(\"./style.js\");";
    assert_eq!(
        empty_css_chunk_imports(&names, OutputFormat::Cjs, UNIX, code).unwrap(),
        "var a = 1, b = /* empty css        */ c = 2;;/* empty css       */"
    );
    assert_eq!(
        empty_chunk_pattern(&names, OutputFormat::Esm, UNIX),
        r#"\bimport\s*["'][^"']*(?:style\.js)["'];"#
    );
}

#[test]
fn replaced_imports_keep_what_stood_before_them() {
    let code = "a, require('x'),b";
    let found = vec![CapturedRange {
        start: 1,
        end: 16,
        first: Some((1, 3)),
        second: Some((15, 16)),
    }];
    assert_eq!(
        empty_css_imports(OutputFormat::Cjs, code, &found),
        "a, /* empty css */b"
    );
}

#[test]
fn replaced_imports_leave_other_characters_whole() {
    let names = vec!["assets/é.js".to_string()];
    assert_eq!(
        empty_css_chunk_imports(
            &names,
            OutputFormat::Esm,
            UNIX,
            "let ü='→';import\"./é.js\";let ß;"
        )
        .as_deref(),
        Some("let ü='→';/* empty css  */let ß;")
    );
}

#[test]
fn asset_with_the_map_of_a_pure_chunk_is_pruned() {
    let outputs = vec![
        chunk("style.js.map", "style", &[], ""),
        BundleOutput::Asset("style.js".to_string()),
        BundleOutput::Asset("other.js".to_string()),
    ];
    let pruned = prune_pure_css_chunks(
        outputs,
        &vec!["style".to_string()],
        OutputFormat::Esm,
        Vec::new(),
        UNIX,
    )
    .unwrap();
    assert_eq!(pruned.outputs, [BundleOutput::Asset("other.js".to_string())]);
    assert_eq!(pruned.metadata, [record("style", &[], &[])]);
}

#[test]
fn a_bundle_without_pure_css_chunks_stays() {
    let outputs = vec![chunk("main.js", "main", &["style.js"], "import \"./style.js\";")];
    let pruned = prune_pure_css_chunks(
        outputs.clone(),
        &Vec::new(),
        OutputFormat::Esm,
        vec![record("main", &["a.css"], &[])],
        UNIX,
    )
    .unwrap();
    assert_eq!(pruned.outputs, outputs);
    assert!(pruned.removed.is_empty());
    assert_eq!(pruned.metadata, [record("main", &["a.css"], &[])]);
}

#[test]
fn emptied_code_takes_the_place_of_the_code() {
    let outputs = vec![
        chunk("main.js", "main", &["style.js"], "import \"./style.js\";run();"),
        chunk("style.js", "style", &[], ""),
        chunk("lib.js", "lib", &[], "lib();"),
    ];
    let codes = vec!["run();".to_string(), String::new(), String::new()];
    let pruned = prune_chunks_with_codes(
        outputs,
        &vec!["style".to_string()],
        &codes,
        vec![record("style", &["style.css"], &[])],
    );
    assert_eq!(
        pruned.outputs,
        [chunk("main.js", "main", &[], "run();"), chunk("lib.js", "lib", &[], "lib();")]
    );
    assert_eq!(pruned.removed.len(), 1);
    assert!(pruned.metadata.contains(&record("main", &["style.css"], &[])));
}

#[test]
fn meta_characters_of_a_name_are_escaped() {
    assert_eq!(
        empty_chunk_pattern(&vec!["a+b(c)-~#&.js".to_string()], OutputFormat::Esm, UNIX),
        r#"\bimport\s*["'][^"']*(?:a\+b\(c\)\-\~\#\&\.js)["'];"#
    );
}
