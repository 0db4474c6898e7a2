//! The parse of a JSON module's source.

use vstd::prelude::*;
use crate::core_json;
use crate::core_json::{json_parse_position, store_core_json_machine_cache,
    CoreJsonMachineCacheTarget, JsonValue};
use crate::digest;
use crate::machine_cache;
use crate::machine_write;
use crate::machine_write::MachineArtifactWrite;
use crate::module_source;
use crate::module_source::StrOrBytes;
use crate::text::utf8_str;

verus! {

/// Why bytes are no JSON, and where, with lines and columns counted from one.
#[derive(Debug, Clone, PartialEq, Eq)]
pub struct JsonParseError {
    pub line: usize,
    pub column: usize,
    pub message: String,
}

#[verifier::external_type_specification]
#[verifier::external_body]
pub struct ExJsonTree(serde_json::Value);

/// What `serde_json::from_slice` reads into a `serde_json::Value`, with the texts of its numbers,
/// or the line, the column and the message of its error.
pub uninterp spec fn serde_value(bytes: Seq<u8>) -> Result<core_json::JsonModel, (nat, nat, Seq<char>)>;

pub open spec fn parse_model(parsed: Result<JsonValue, JsonParseError>) -> Result<
    core_json::JsonModel,
    (nat, nat, Seq<char>),
> {
    match parsed {
        Ok(value) => Ok(value@),
        Err(error) => Err((error.line as nat, error.column as nat, error.message@)),
    }
}

/// Moves a `serde_json::Value` into the library's own type, variant for variant; a number becomes
/// its text. It only serves `parse_serde_value`, and nothing is claimed of it by itself.
#[verifier::external_body]
fn own_json_value(value: serde_json::Value) -> (own: JsonValue) {
    match value {
        serde_json::Value::Null => JsonValue::Null,
        serde_json::Value::Bool(flag) => JsonValue::Bool(flag),
        serde_json::Value::Number(number) => JsonValue::Number(number.to_string()),
        serde_json::Value::String(content) => JsonValue::Text(content),
        serde_json::Value::Array(items) => {
            JsonValue::Array(items.into_iter().map(own_json_value).collect())
        },
        serde_json::Value::Object(entries) => JsonValue::Object(
            entries.into_iter().map(|entry| (entry.0, own_json_value(entry.1))).collect(),
        ),
    }
}

/// `serde_json::from_slice` into a `serde_json::Value`: the value or the error depends on the bytes
/// alone. Errors count lines from one.
#[verifier::external_body]
fn parse_serde_value(bytes: &[u8]) -> (parsed: Result<JsonValue, JsonParseError>)
    ensures
        parse_model(parsed) == serde_value(bytes@),
        parsed matches Err(error) ==> error.line > 0,
{
    match serde_json::from_slice::<serde_json::Value>(bytes) {
        Ok(value) => Ok(own_json_value(value)),
        Err(error) => Err(
            JsonParseError {
                line: error.line(),
                column: error.column(),
                message: error.to_string(),
            },
        ),
    }
}

/// A source that is no JSON: it is no text, in which the error could be shown, or it is wrong at a
/// line and a column, counted from zero.
#[derive(Debug, Clone, PartialEq, Eq)]
pub enum JsonModuleError {
    NotText,
    Parse { line: usize, column: usize, message: String },
}

pub ghost enum JsonModuleErrorModel {
    NotText,
    Parse(nat, nat, Seq<char>),
}

impl View for JsonModuleError {
    type V = JsonModuleErrorModel;

    open spec fn view(&self) -> JsonModuleErrorModel {
        match self {
            JsonModuleError::NotText => JsonModuleErrorModel::NotText,
            JsonModuleError::Parse { line, column, message } => JsonModuleErrorModel::Parse(
                *line as nat,
                *column as nat,
                message@,
            ),
        }
    }
}

pub open spec fn module_model(r: Result<JsonValue, JsonModuleError>) -> Result<
    core_json::JsonModel,
    JsonModuleErrorModel,
> {
    match r {
        Ok(value) => Ok(value@),
        Err(error) => Err(error@),
    }
}

/// What a source comes to, given what its bytes parse to.
pub open spec fn module_value(
    source: StrOrBytes,
    parsed: Result<core_json::JsonModel, (nat, nat, Seq<char>)>,
) -> Result<core_json::JsonModel, JsonModuleErrorModel> {
    match parsed {
        Ok(value) => Ok(value),
        Err((line, column, message)) => if module_source::source_text(source) is None {
            Err(JsonModuleErrorModel::NotText)
        } else {
            Err(
                JsonModuleErrorModel::Parse(
                    (line - 1) as nat,
                    if column == 0 {
                        0
                    } else {
                        (column - 1) as nat
                    },
                    message,
                ),
            )
        },
    }
}

/// The value of a source of which the parse is known.
pub fn parsed_json_module(source: &StrOrBytes, parsed: Result<JsonValue, JsonParseError>) -> (r:
    Result<JsonValue, JsonModuleError>)
    requires
        parsed matches Err(error) ==> error.line > 0,
    ensures
        module_model(r) == module_value(*source, parse_model(parsed)),
        match (parsed, r) {
            (Ok(value), Ok(found)) => found@ == value@,
            (Err(error), Err(JsonModuleError::NotText)) => module_source::source_text(*source)
                is None,
            (Err(error), Err(JsonModuleError::Parse { line, column, message })) => {
                &&& module_source::source_text(*source) is Some
                &&& line + 1 == error.line
                &&& column == if error.column == 0 {
                    0
                } else {
                    error.column - 1
                }
                &&& message@ == error.message@
            },
            _ => false,
        },
{
    match parsed {
        Ok(value) => Ok(value),
        Err(error) => {
            if let StrOrBytes::Bytes(bytes) = source {
                if utf8_str(bytes.as_slice()).is_none() {
                    return Err(JsonModuleError::NotText);
                }
            }
            let (line, column): (usize, usize) = json_parse_position(error.line, error.column);
            Err(JsonModuleError::Parse { line, column, message: error.message })
        },
    }
}

/// The value of a JSON module's source.
pub fn parse_json_value_for_module(source: &StrOrBytes) -> (r: Result<JsonValue, JsonModuleError>)
    ensures
        module_model(r) == module_value(*source, serde_value(module_source::source_bytes(*source))),
{
    parsed_json_module(source, parse_serde_value(source.as_bytes()))
}

/// A parsed module, and what to write so that the cache has it.
pub struct LoadedJsonModule {
    pub value: JsonValue,
    pub write: Option<MachineArtifactWrite>,
}

/// Parses a source that the cache does not have. What is written is the value of its bytes.
pub fn load_json_module(
    target: &Option<CoreJsonMachineCacheTarget>,
    source: &StrOrBytes,
    use_machine_cache: bool,
    repair_source_hash: Option<[u8; 32]>,
) -> (r: Result<LoadedJsonModule, JsonModuleError>)
    ensures
        ({
            let source_bytes = module_source::source_bytes(*source);
            match module_value(*source, serde_value(source_bytes)) {
                Err(error) => r matches Err(found) && found@ == error,
                Ok(value) => {
                    let hash = digest::effective_hash(repair_source_hash, source_bytes);
                    let bytes = core_json::encoded_payload(hash, core_json::encoded_value(value));
                    &&& r matches Ok(loaded)
                    &&& loaded.value@ == value
                    &&& loaded.write is Some == {
                        &&& use_machine_cache
                        &&& *target matches Some(present) && present.config.enabled
                        &&& core_json::payload_fits(value)
                        &&& machine_cache::size_benefits(source_bytes.len(), bytes.len())
                    }
                    &&& loaded.write matches Some(write) ==> write.machine.bytes@ == bytes && (
                    *target matches Some(present) && write.machine.path@ == present.paths.machine@
                        && write.metadata.path@ == present.paths.metadata@ && write.metadata.bytes@
                        == machine_write::metadata_bytes(
                        present.source_path@,
                        source_bytes.len(),
                        hash,
                        present.paths.machine@,
                        bytes,
                        present.config.style,
                    ))
                },
            }
        }),
{
    let value: JsonValue = match parse_json_value_for_module(source) {
        Ok(value) => value,
        Err(error) => {
            return Err(error);
        },
    };
    let write: Option<MachineArtifactWrite> = store_core_json_machine_cache(
        target,
        source.as_bytes(),
        &value,
        use_machine_cache,
        repair_source_hash,
    );
    Ok(LoadedJsonModule { value, write })
}

} // verus!
