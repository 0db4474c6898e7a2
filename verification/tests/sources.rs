use rolldown_dx_cache::module_source::{
    is_commonjs_format, parse_route, parser_settings, pre_process_source, ModuleDefFormat,
    ModuleType, OxcParseType, ParseRoute, Platform, SourceError, StrOrBytes,
};
use rolldown_dx_cache::file_system::{FileSystem, FileSystemError};

fn process(source: StrOrBytes, module_type: ModuleType) -> Result<(bool, String), SourceError> {
    pre_process_source(source, &module_type, Platform::Node, "rolldown:runtime", None)
}

fn text(content: &str) -> StrOrBytes {
    StrOrBytes::Str(content.to_string())
}

#[test]
fn code_is_parsed_as_it_is() {
    assert_eq!(process(text("a();"), ModuleType::Tsx), Ok((false, "a();".to_string())));
    assert_eq!(
        process(StrOrBytes::Bytes(vec![0xff]), ModuleType::Js),
        Err(SourceError::NotText)
    );
}

#[test]
fn texts_become_string_literals() {
    assert_eq!(
        process(text("\u{feff}say \"hi\"\n"), ModuleType::Text),
        Ok((true, "\"say \\\"hi\\\"\\n\"".to_string()))
    );
    assert_eq!(
        process(StrOrBytes::Bytes(b"hello".to_vec()), ModuleType::Base64),
        Ok((true, "\"aGVsbG8=\"".to_string()))
    );
    assert_eq!(process(text("{}"), ModuleType::Json), Ok((true, "{}".to_string())));
}

#[test]
fn data_urls_come_from_the_caller() {
    assert_eq!(
        pre_process_source(
            text("a"),
            &ModuleType::Dataurl,
            Platform::Browser,
            "rolldown:runtime",
            Some("data:text/plain,a".to_string()),
        ),
        Ok((true, "\"data:text/plain,a\"".to_string()))
    );
    assert_eq!(process(text("a"), ModuleType::Dataurl), Err(SourceError::DataUrl));
}

#[test]
fn empty_modules_are_empty() {
    assert_eq!(process(text("a"), ModuleType::Empty), Ok((false, String::new())));
}

#[test]
fn binary_modules_decode_themselves() {
    let (lazy, code) = process(StrOrBytes::Bytes(b"hello".to_vec()), ModuleType::Binary).unwrap();
    assert!(!lazy);
    assert!(code.contains("aGVsbG8="));
    assert!(code.contains("rolldown:runtime"));
}

#[test]
fn other_modules_are_refused() {
    let asset = process(text("a"), ModuleType::Asset).unwrap_err();
    assert!(asset.message().unwrap().contains("type `asset`"));
    let copy = process(text("a"), ModuleType::Copy).unwrap_err();
    assert!(copy.message().unwrap().contains("type `copy`"));
    let custom = process(text("a"), ModuleType::Custom("x".to_string())).unwrap_err();
    assert_eq!(custom.message().as_deref(), Some("Unknown module type: x"));
}

#[test]
fn parser_settings_follow_the_file() {
    assert!(is_commonjs_format(ModuleDefFormat::Cts));
    assert!(!is_commonjs_format(ModuleDefFormat::EsmMjs));
    let settings = parser_settings(ModuleDefFormat::Cjs, OxcParseType::Tsx, true);
    assert!(settings.commonjs && settings.typescript && !settings.jsx);
    assert_eq!(parse_route(&ModuleType::Json), ParseRoute::JsonValue);
    assert_eq!(parse_route(&ModuleType::Text), ParseRoute::Expression);
    assert_eq!(parse_route(&ModuleType::Js), ParseRoute::Program);
}

struct NoFiles;

impl FileSystem for NoFiles {
    fn remove_dir_all(&self, _path: &str) -> Result<(), FileSystemError> {
        Ok(())
    }

    fn create_dir_all(&self, _path: &str) -> Result<(), FileSystemError> {
        Ok(())
    }

    fn write(&self, _path: &str, _content: &[u8]) -> Result<(), FileSystemError> {
        Err(FileSystemError { message: "read-only".to_string() })
    }

    fn path_exists(&self, _path: &str) -> bool {
        false
    }

    fn read_dir(&self, _path: &str) -> Result<Vec<String>, FileSystemError> {
        Ok(Vec::new())
    }

    fn remove_file(&self, _path: &str) -> Result<(), FileSystemError> {
        Ok(())
    }
}

#[test]
fn reads_block_unless_a_file_system_says_otherwise() {
    assert!(NoFiles.should_spawn_blocking_reads());
    assert!(!NoFiles.path_exists("/a"));
    assert_eq!(NoFiles.write("/a", b"").unwrap_err().message, "read-only");
}
