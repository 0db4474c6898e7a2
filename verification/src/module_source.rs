//! How the source of a module becomes the text that is parsed.

use vstd::prelude::*;
use vstd::utf8::*;
use crate::codec;
use crate::base64_text;
use crate::base64_text::to_standard_base64;
use crate::core_json;
use crate::json_read;
use crate::json_text;
use crate::text;
use crate::text::{chars_of, utf8_text};

verus! {

/// What a module's source is taken for.
#[derive(Debug, Clone, PartialEq, Eq)]
pub enum ModuleType {
    Js,
    Jsx,
    Ts,
    Tsx,
    Json,
    Text,
    Base64,
    Dataurl,
    Binary,
    Empty,
    Css,
    Asset,
    Copy,
    Custom(String),
}

#[derive(Debug, Clone, Copy, PartialEq, Eq, Structural)]
pub enum Platform {
    Node,
    Browser,
    Neutral,
}

/// A source as it was loaded.
#[derive(Debug, Clone, PartialEq, Eq)]
pub enum StrOrBytes {
    Str(String),
    Bytes(Vec<u8>),
}

/// The bytes of a source.
pub open spec fn source_bytes(source: StrOrBytes) -> Seq<u8> {
    match source {
        StrOrBytes::Str(content) => encode_utf8(content@),
        StrOrBytes::Bytes(bytes) => bytes@,
    }
}

/// The text of a source, where it is text.
pub open spec fn source_text(source: StrOrBytes) -> Option<Seq<char>> {
    match source {
        StrOrBytes::Str(content) => Some(content@),
        StrOrBytes::Bytes(bytes) => if valid_utf8(bytes@) {
            Some(decode_utf8(bytes@))
        } else {
            None
        },
    }
}

impl StrOrBytes {
    pub fn as_bytes(&self) -> (bytes: &[u8])
        ensures
            bytes@ == source_bytes(*self),
            self matches StrOrBytes::Str(content) ==> bytes@ == encode_utf8(content@),
            self matches StrOrBytes::Bytes(held) ==> bytes@ == held@,
    {
        match self {
            StrOrBytes::Str(content) => content.as_str().as_bytes(),
            StrOrBytes::Bytes(bytes) => bytes.as_slice(),
        }
    }

    pub fn try_into_string(self) -> (r: Option<String>)
        ensures
            r is Some == (source_text(self) is Some),
            r matches Some(content) ==> source_text(self) == Some(content@),
            self matches StrOrBytes::Str(held) ==> r == Some(held),
            self matches StrOrBytes::Bytes(held) ==> r is Some == valid_utf8(held@) && (
            r matches Some(content) ==> encode_utf8(content@) == held@),
    {
        proof {
            if self is Bytes && valid_utf8(source_bytes(self)) {
                decode_utf8_encode_utf8(source_bytes(self));
            }
        }
        match self {
            StrOrBytes::Str(content) => Some(content),
            StrOrBytes::Bytes(bytes) => utf8_text(bytes.as_slice()),
        }
    }
}

/// Why a source cannot be parsed as a module.
#[derive(Debug, Clone, PartialEq, Eq)]
pub enum SourceError {
    NotText,
    DataUrl,
    Asset,
    Copy,
    UnknownModuleType(String),
}

pub ghost enum SourceErrorModel {
    NotText,
    DataUrl,
    Asset,
    Copy,
    UnknownModuleType(Seq<char>),
}

impl View for SourceError {
    type V = SourceErrorModel;

    open spec fn view(&self) -> SourceErrorModel {
        match self {
            SourceError::NotText => SourceErrorModel::NotText,
            SourceError::DataUrl => SourceErrorModel::DataUrl,
            SourceError::Asset => SourceErrorModel::Asset,
            SourceError::Copy => SourceErrorModel::Copy,
            SourceError::UnknownModuleType(name) => SourceErrorModel::UnknownModuleType(name@),
        }
    }
}

/// What is reported. A source that is no text, or has no data URL, is reported by whoever found
/// that out.
pub open spec fn error_message(error: SourceErrorModel) -> Option<Seq<char>> {
    match error {
        SourceErrorModel::NotText => None,
        SourceErrorModel::DataUrl => None,
        SourceErrorModel::Asset => Some("Encountered a module with type `asset` during AST parsing. Modules with type `asset` must be handled by the builtin AssetModulePlugin before this stage; please check your plugin and loader configuration."@),
        SourceErrorModel::Copy => Some("Encountered a module with type `copy` during AST parsing. Modules with type `copy` must be handled by the builtin CopyModulePlugin before this stage; please check your plugin and loader configuration."@),
        SourceErrorModel::UnknownModuleType(name) => Some("Unknown module type: "@ + name),
    }
}

impl SourceError {
    pub fn message(&self) -> (message: Option<String>)
        ensures
            codec::opt_text(message) == error_message(self@),
            message is None == (*self is NotText || *self is DataUrl),
            self matches SourceError::UnknownModuleType(name) ==> (message matches Some(text)
                && text@ == "Unknown module type: "@ + name@),
    {
        match self {
            SourceError::NotText => None,
            SourceError::DataUrl => None,
            SourceError::Asset => Some("Encountered a module with type `asset` during AST parsing. Modules with type `asset` must be handled by the builtin AssetModulePlugin before this stage; please check your plugin and loader configuration.".to_string()),
            SourceError::Copy => Some("Encountered a module with type `copy` during AST parsing. Modules with type `copy` must be handled by the builtin CopyModulePlugin before this stage; please check your plugin and loader configuration.".to_string()),
            SourceError::UnknownModuleType(name) => {
                let mut message: String = "Unknown module type: ".to_string();
                message.push_str(name.as_str());
                Some(message)
            },
        }
    }
}

/// Whether a text of `len` bytes can be escaped: the room for its longest escape is addressable.
pub open spec fn escapable(len: nat) -> bool {
    6 * len + 35 <= isize::MAX
}

/// `json_escape_simd::escape`: a JSON string literal, quotes included. It reserves room for the
/// longest possible escape, which must be addressable.
#[verifier::external_body]
fn escape_text(value: &str) -> (literal: String)
    requires
        escapable(encode_utf8(value@).len()),
    ensures
        literal@ == json_text::string_literal(value@),
{
    json_escape_simd::escape(value)
}

pub open spec fn without_bom(value: Seq<char>) -> Seq<char> {
    if value.len() > 0 && value[0] as u32 == 0xfeff {
        value.skip(1)
    } else {
        value
    }
}

fn strip_bom(value: String) -> (stripped: String)
    ensures
        stripped@ == without_bom(value@),
{
    let chars: Vec<char> = chars_of(value.as_str());
    if chars.len() == 0 || chars[0] as u32 != 0xfeff {
        return value;
    }
    let mut stripped: String = String::new();
    let mut i: usize = 1;
    while i < chars.len()
        invariant
            1 <= i <= chars.len(),
            chars@ == value@,
            stripped@ == value@.subrange(1, i as int),
        decreases chars.len() - i,
    {
        stripped.push(chars[i]);
        assert(value@.subrange(1, i + 1) =~= value@.subrange(1, i as int).push(value@[i as int]));
        i = i + 1;
    }
    assert(value@.subrange(1, i as int) =~= value@.skip(1));
    stripped
}

/// The name of the runtime helper that turns base64 into bytes.
pub open spec fn binary_helper(platform: Platform) -> Seq<char> {
    match platform {
        Platform::Node => "__toBinaryNode"@,
        _ => "__toBinary"@,
    }
}

/// A module that decodes its content with a runtime helper.
pub open spec fn binary_module(
    helper: Seq<char>,
    runtime_module: Seq<char>,
    digits: Seq<char>,
) -> Seq<char> {
    "import {"@ + helper + "} from '"@ + runtime_module + "'; export default "@ + helper + "('"@
        + digits + "')"@
}

/// Whether the exports of a module may be made up on first use.
pub open spec fn exports_lazily(module_type: ModuleType) -> bool {
    module_type is Json || module_type is Text || module_type is Base64 || module_type is Dataurl
}

/// The text to parse for a source.
pub open spec fn processed_source(
    source: StrOrBytes,
    module_type: ModuleType,
    platform: Platform,
    runtime_module: Seq<char>,
    dataurl: Option<Seq<char>>,
) -> Result<Seq<char>, SourceErrorModel> {
    match module_type {
        ModuleType::Js | ModuleType::Jsx | ModuleType::Ts | ModuleType::Tsx | ModuleType::Json => {
            match source_text(source) {
                Some(content) => Ok(content),
                None => Err(SourceErrorModel::NotText),
            }
        },
        ModuleType::Text => match source_text(source) {
            Some(content) => Ok(json_text::string_literal(without_bom(content))),
            None => Err(SourceErrorModel::NotText),
        },
        ModuleType::Base64 => Ok(
            json_text::string_literal(base64_text::base64(source_bytes(source))),
        ),
        ModuleType::Dataurl => match dataurl {
            Some(url) => Ok(json_text::string_literal(url)),
            None => Err(SourceErrorModel::DataUrl),
        },
        ModuleType::Binary => Ok(
            binary_module(
                binary_helper(platform),
                runtime_module,
                base64_text::base64(source_bytes(source)),
            ),
        ),
        ModuleType::Empty => Ok(Seq::empty()),
        ModuleType::Asset => Err(SourceErrorModel::Asset),
        ModuleType::Copy => Err(SourceErrorModel::Copy),
        ModuleType::Custom(name) => Err(SourceErrorModel::UnknownModuleType(name@)),
        ModuleType::Css => Ok(Seq::empty()),
    }
}

/// Whether memory can hold what a source becomes.
pub open spec fn has_room(
    source: StrOrBytes,
    module_type: ModuleType,
    dataurl: Option<Seq<char>>,
) -> bool {
    let digits = base64_text::base64_len(source_bytes(source).len());
    match module_type {
        ModuleType::Text => escapable(source_bytes(source).len()),
        ModuleType::Base64 => escapable(digits),
        ModuleType::Binary => digits <= isize::MAX,
        ModuleType::Dataurl => dataurl matches Some(url) ==> escapable(encode_utf8(url).len()),
        _ => true,
    }
}

pub open spec fn result_model(r: Result<(bool, String), SourceError>) -> Result<
    (bool, Seq<char>),
    SourceErrorModel,
> {
    match r {
        Ok((lazily, content)) => Ok((lazily, content@)),
        Err(error) => Err(error@),
    }
}

proof fn lemma_base64_is_ascii(bytes: Seq<u8>)
    ensures
        is_ascii_chars(base64_text::base64(bytes)),
    decreases bytes.len(),
{
    if bytes.len() > 2 {
        lemma_base64_is_ascii(bytes.skip(3));
    }
}

proof fn lemma_without_bom_is_no_longer(value: Seq<char>)
    ensures
        encode_utf8(without_bom(value)).len() <= encode_utf8(value).len(),
{
    if without_bom(value) != value {
        assert(value =~= seq![value[0]] + value.skip(1));
        text::lemma_encode_concat(seq![value[0]], value.skip(1));
    }
}

/// Whether the module exports lazily, and the text to parse. `dataurl` is the data URL of the
/// source, which only a data URL module needs. A CSS module never comes here.
pub fn pre_process_source(
    source: StrOrBytes,
    module_type: &ModuleType,
    platform: Platform,
    runtime_module: &str,
    dataurl: Option<String>,
) -> (r: Result<(bool, String), SourceError>)
    requires
        !(*module_type is Css),
        has_room(source, *module_type, codec::opt_text(dataurl)),
    ensures
        result_model(r) == match processed_source(
            source,
            *module_type,
            platform,
            runtime_module@,
            codec::opt_text(dataurl),
        ) {
            Ok(content) => Ok((exports_lazily(*module_type), content)),
            Err(error) => Err(error),
        },
        is_processed(source, *module_type, platform, runtime_module@, codec::opt_text(dataurl), r),
{
    proof {
        lemma_processed(source, *module_type, platform, runtime_module@, codec::opt_text(dataurl));
    }
    match module_type {
        ModuleType::Js | ModuleType::Jsx | ModuleType::Ts | ModuleType::Tsx => {
            match source.try_into_string() {
                Some(content) => Ok((false, content)),
                None => Err(SourceError::NotText),
            }
        },
        ModuleType::Json => match source.try_into_string() {
            Some(content) => Ok((true, content)),
            None => Err(SourceError::NotText),
        },
        ModuleType::Text => {
            let ghost bytes = source_bytes(source);
            match source.try_into_string() {
                Some(content) => {
                    proof {
                        lemma_without_bom_is_no_longer(content@);
                        if source is Bytes {
                            decode_utf8_encode_utf8(bytes);
                        }
                    }
                    let stripped: String = strip_bom(content);
                    Ok((true, escape_text(stripped.as_str())))
                },
                None => Err(SourceError::NotText),
            }
        },
        ModuleType::Base64 => {
            proof {
                base64_text::lemma_base64_len(source_bytes(source));
                lemma_base64_is_ascii(source_bytes(source));
                text::lemma_encode_ascii_len(base64_text::base64(source_bytes(source)));
            }
            let digits: String = to_standard_base64(source.as_bytes());
            Ok((true, escape_text(digits.as_str())))
        },
        ModuleType::Dataurl => match dataurl {
            Some(url) => Ok((true, escape_text(url.as_str()))),
            None => Err(SourceError::DataUrl),
        },
        ModuleType::Binary => {
            let digits: String = to_standard_base64(source.as_bytes());
            let helper: &str = match platform {
                Platform::Node => "__toBinaryNode",
                _ => "__toBinary",
            };
            let mut output: String = String::new();
            output.push_str("import {");
            output.push_str(helper);
            output.push_str("} from '");
            output.push_str(runtime_module);
            output.push_str("'; export default ");
            output.push_str(helper);
            output.push_str("('");
            output.push_str(digits.as_str());
            output.push_str("')");
            assert(output@ =~= binary_module(helper@, runtime_module@, digits@));
            Ok((false, output))
        },
        ModuleType::Empty => Ok((false, String::new())),
        ModuleType::Asset => Err(SourceError::Asset),
        ModuleType::Copy => Err(SourceError::Copy),
        ModuleType::Custom(name) => Err(SourceError::UnknownModuleType(name.clone())),
        ModuleType::Css => Ok((false, String::new())),
    }
}

// ---------------------------------------------------------------------------------------------
// How the text is parsed

/// What decides between script and module.
#[derive(Debug, Clone, Copy, PartialEq, Eq, Structural)]
pub enum ModuleDefFormat {
    Unknown,
    Cjs,
    CjsPackageJson,
    EsmMjs,
    EsmPackageJson,
    Cts,
    EsmMts,
}

/// The language that a source is written in.
#[derive(Debug, Clone, Copy, PartialEq, Eq, Structural)]
pub enum OxcParseType {
    Js,
    Jsx,
    Ts,
    Tsx,
}

/// The settings of the parser.
#[derive(Debug, Clone, Copy, PartialEq, Eq, Structural)]
pub struct ParserSettings {
    pub commonjs: bool,
    pub typescript: bool,
    pub jsx: bool,
}

/// Only `.cjs` and `.cts` files are scripts; everything else is parsed as a module.
pub fn is_commonjs_format(module_def_format: ModuleDefFormat) -> (r: bool)
    ensures
        r == (module_def_format is Cjs || module_def_format is Cts),
{
    match module_def_format {
        ModuleDefFormat::Cjs | ModuleDefFormat::Cts => true,
        _ => false,
    }
}

pub fn parser_settings(
    module_def_format: ModuleDefFormat,
    parse_type: OxcParseType,
    jsx_disabled: bool,
) -> (settings: ParserSettings)
    ensures
        settings.commonjs == (module_def_format is Cjs || module_def_format is Cts),
        settings.typescript == (parse_type is Ts || parse_type is Tsx),
        settings.jsx == ((parse_type is Jsx || parse_type is Tsx) && !jsx_disabled),
{
    let commonjs: bool = is_commonjs_format(module_def_format);
    match parse_type {
        OxcParseType::Js => ParserSettings { commonjs, typescript: false, jsx: false },
        OxcParseType::Jsx => ParserSettings { commonjs, typescript: false, jsx: !jsx_disabled },
        OxcParseType::Ts => ParserSettings { commonjs, typescript: true, jsx: false },
        OxcParseType::Tsx => ParserSettings { commonjs, typescript: true, jsx: !jsx_disabled },
    }
}

/// How the syntax tree of a module is made.
#[derive(Debug, Clone, Copy, PartialEq, Eq, Structural)]
pub enum ParseRoute {
    JsonValue,
    Expression,
    Program,
}

pub open spec fn route_of(module_type: ModuleType) -> ParseRoute {
    match module_type {
        ModuleType::Json => ParseRoute::JsonValue,
        ModuleType::Dataurl | ModuleType::Base64 | ModuleType::Text => ParseRoute::Expression,
        _ => ParseRoute::Program,
    }
}

pub fn parse_route(module_type: &ModuleType) -> (route: ParseRoute)
    ensures
        route == route_of(*module_type),
        route is JsonValue == (*module_type is Json),
        route is Expression == (*module_type is Dataurl || *module_type is Base64 || *module_type
            is Text),
{
    match module_type {
        ModuleType::Json => ParseRoute::JsonValue,
        ModuleType::Dataurl | ModuleType::Base64 | ModuleType::Text => ParseRoute::Expression,
        _ => ParseRoute::Program,
    }
}

/// The text of a source, where it has one, without a byte order mark in front.
pub open spec fn is_plain_text_of(source: StrOrBytes, content: Seq<char>) -> bool {
    source_text(source) matches Some(whole) && if whole.len() > 0 && whole[0] == '\u{feff}' {
        whole == seq![whole[0]] + content
    } else {
        whole == content
    }
}

/// What a source becomes by its type: code stays as it is, a text, the digits of bytes and a data URL
/// become string literals, and these three and JSON are exported only when they are used.
pub open spec fn is_processed(
    source: StrOrBytes,
    module_type: ModuleType,
    platform: Platform,
    runtime_module: Seq<char>,
    dataurl: Option<Seq<char>>,
    result: Result<(bool, String), SourceError>,
) -> bool {
    match module_type {
        ModuleType::Js | ModuleType::Jsx | ModuleType::Ts | ModuleType::Tsx => match result {
            Ok((lazily, content)) => !lazily && source_text(source) == Some(content@),
            Err(error) => error is NotText && source_text(source) is None,
        },
        ModuleType::Json => match result {
            Ok((lazily, content)) => lazily && source_text(source) == Some(content@),
            Err(error) => error is NotText && source_text(source) is None,
        },
        ModuleType::Text => match result {
            Ok((lazily, content)) => lazily && (json_read::read(content@) matches Some(
                core_json::JsonModel::Text(inner),
            ) && is_plain_text_of(source, inner)),
            Err(error) => error is NotText && source_text(source) is None,
        },
        ModuleType::Base64 => result matches Ok((lazily, content)) && lazily && json_read::read(
            content@,
        ) == Some(core_json::JsonModel::Text(base64_text::base64(source_bytes(source)))),
        ModuleType::Dataurl => match dataurl {
            Some(url) => result matches Ok((lazily, content)) && lazily && json_read::read(content@)
                == Some(core_json::JsonModel::Text(url)),
            None => result matches Err(error) && error is DataUrl,
        },
        ModuleType::Binary => result matches Ok((lazily, content)) && !lazily && {
            let helper = if platform is Node {
                "__toBinaryNode"@
            } else {
                "__toBinary"@
            };
            content@ == "import {"@ + helper + "} from '"@ + runtime_module + "'; export default "@
                + helper + "('"@ + base64_text::base64(source_bytes(source)) + "')"@
        },
        ModuleType::Empty => result matches Ok((lazily, content)) && !lazily && content@.len() == 0,
        ModuleType::Asset => result matches Err(error) && error is Asset,
        ModuleType::Copy => result matches Err(error) && error is Copy,
        ModuleType::Custom(name) => result matches Err(SourceError::UnknownModuleType(found))
            && found@ == name@,
        ModuleType::Css => true,
    }
}

proof fn lemma_literal_is_read(content: Seq<char>)
    ensures
        json_read::read(json_text::string_literal(content)) == Some(
            core_json::JsonModel::Text(content),
        ),
{
    json_read::lemma_compact_text_reads_back(core_json::JsonModel::Text(content));
}

proof fn lemma_processed(
    source: StrOrBytes,
    module_type: ModuleType,
    platform: Platform,
    runtime_module: Seq<char>,
    dataurl: Option<Seq<char>>,
)
    ensures
        module_type is Text ==> (source_text(source) matches Some(content) ==> json_read::read(
            json_text::string_literal(without_bom(content)),
        ) == Some(core_json::JsonModel::Text(without_bom(content))) && is_plain_text_of(
            source,
            without_bom(content),
        )),
        json_read::read(json_text::string_literal(base64_text::base64(source_bytes(source)))) == Some(
            core_json::JsonModel::Text(base64_text::base64(source_bytes(source))),
        ),
        dataurl matches Some(url) ==> json_read::read(json_text::string_literal(url)) == Some(
            core_json::JsonModel::Text(url),
        ),
{
    lemma_literal_is_read(base64_text::base64(source_bytes(source)));
    if let Some(url) = dataurl {
        lemma_literal_is_read(url);
    }
    if let Some(content) = source_text(source) {
        lemma_literal_is_read(without_bom(content));
        if content.len() > 0 {
            assert(content =~= seq![content[0]] + content.skip(1));
            if content[0] as u32 == 0xfeff {
                char_u32_cast(content[0], 0xfeff);
                char_u32_cast('\u{feff}', 0xfeff);
            }
        }
    }
}

} // verus!
