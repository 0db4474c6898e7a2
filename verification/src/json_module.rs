//! JSON files as modules of the Vite JSON plugin, and their machine payloads.

use vstd::prelude::*;
use vstd::utf8::*;
use crate::codec;
use crate::codec::{copy_range, starts_with_bytes, write_bytes, write_u32};
use crate::core_json;
use crate::digest;
use crate::digest::blake3_hash;
use crate::json_parse;
use crate::json_read;
use crate::json_text;
use crate::json_text::json_string_literal;
use crate::machine_cache;
use crate::machine_cache::{DxMachineCacheConfig, DxMachineCachePaths, DxMachineCacheStatus,
    MachineCacheFiles};
use crate::machine_write;
use crate::machine_write::{copy_bytes, MachineArtifactWrite};
use crate::module_source;
use crate::module_source::ModuleType;
use crate::path_text::PathStyle;
use crate::text;
use crate::text::{byte_len, chars_of, utf8_text};

verus! {

pub const JSON_MODULE_MACHINE_HEADER_LEN: usize = 48;

pub const JSON_MODULE_MACHINE_CODEC_RAW: u8 = 0;

pub const JSON_MODULE_MACHINE_CODEC_LZ4: u8 = 1;

pub const JSON_MODULE_MACHINE_LZ4_THRESHOLD: usize = 16384;

pub const JSON_MODULE_MACHINE_MIN_SOURCE_BYTES: usize = 16384;

pub const JSON_MODULE_MACHINE_MAX_GENERATED_LEN: usize = 268_435_456;

/// A source above this many bytes is stringified where that is left to the plugin.
pub const JSON_MODULE_STRINGIFY_THRESHOLD: usize = 10_000;

/// The options of the plugin.
#[derive(Debug)]
pub struct ViteJsonPlugin {
    pub minify: bool,
    pub named_exports: bool,
    pub stringify: ViteJsonPluginStringify,
}

#[derive(Debug, Clone, Copy, PartialEq, Eq, Hash, Structural)]
pub enum ViteJsonPluginStringify {
    Auto,
    True,
    False,
}

impl Default for ViteJsonPluginStringify {
    fn default() -> (stringify: Self)
        ensures
            stringify is Auto,
    {
        ViteJsonPluginStringify::Auto
    }
}

impl Default for ViteJsonPlugin {
    fn default() -> (plugin: Self)
        ensures
            !plugin.minify,
            !plugin.named_exports,
            plugin.stringify is Auto,
    {
        ViteJsonPlugin {
            minify: false,
            named_exports: false,
            stringify: ViteJsonPluginStringify::default(),
        }
    }
}

pub open spec fn stringify_tag(stringify: ViteJsonPluginStringify) -> u8 {
    match stringify {
        ViteJsonPluginStringify::Auto => 0,
        ViteJsonPluginStringify::True => 1,
        ViteJsonPluginStringify::False => 2,
    }
}

impl ViteJsonPluginStringify {
    pub fn cache_tag(self) -> (tag: u8)
        ensures
            tag == stringify_tag(self),
    {
        match self {
            ViteJsonPluginStringify::Auto => 0,
            ViteJsonPluginStringify::True => 1,
            ViteJsonPluginStringify::False => 2,
        }
    }
}

impl ViteJsonPlugin {
    /// What the generated module depends on.
    pub fn machine_options(&self) -> (options: JsonModuleMachineOptions)
        ensures
            options.named_exports == self.named_exports,
            options.minify == self.minify,
            options.stringify == self.stringify,
    {
        JsonModuleMachineOptions::new(self.named_exports, self.minify, self.stringify)
    }
}

#[derive(Debug, Clone, Copy, PartialEq, Eq, Structural)]
pub struct JsonModuleMachineOptions {
    pub named_exports: bool,
    pub minify: bool,
    pub stringify: ViteJsonPluginStringify,
}

/// The name of the options in cache file names.
pub open spec fn namespace_of(options: JsonModuleMachineOptions) -> Seq<char> {
    match (options.named_exports, options.minify, options.stringify) {
        (true, true, ViteJsonPluginStringify::Auto) => {
            "json_module_v2_named_exports_1_minify_1_stringify_auto"@
        },
        (true, true, ViteJsonPluginStringify::True) => {
            "json_module_v2_named_exports_1_minify_1_stringify_true"@
        },
        (true, true, ViteJsonPluginStringify::False) => {
            "json_module_v2_named_exports_1_minify_1_stringify_false"@
        },
        (true, false, ViteJsonPluginStringify::Auto) => {
            "json_module_v2_named_exports_1_minify_0_stringify_auto"@
        },
        (true, false, ViteJsonPluginStringify::True) => {
            "json_module_v2_named_exports_1_minify_0_stringify_true"@
        },
        (true, false, ViteJsonPluginStringify::False) => {
            "json_module_v2_named_exports_1_minify_0_stringify_false"@
        },
        (false, true, ViteJsonPluginStringify::Auto) => {
            "json_module_v2_named_exports_0_minify_1_stringify_auto"@
        },
        (false, true, ViteJsonPluginStringify::True) => {
            "json_module_v2_named_exports_0_minify_1_stringify_true"@
        },
        (false, true, ViteJsonPluginStringify::False) => {
            "json_module_v2_named_exports_0_minify_1_stringify_false"@
        },
        (false, false, ViteJsonPluginStringify::Auto) => {
            "json_module_v2_named_exports_0_minify_0_stringify_auto"@
        },
        (false, false, ViteJsonPluginStringify::True) => {
            "json_module_v2_named_exports_0_minify_0_stringify_true"@
        },
        (false, false, ViteJsonPluginStringify::False) => {
            "json_module_v2_named_exports_0_minify_0_stringify_false"@
        },
    }
}

impl JsonModuleMachineOptions {
    pub fn new(named_exports: bool, minify: bool, stringify: ViteJsonPluginStringify) -> (options:
        Self)
        ensures
            options.named_exports == named_exports,
            options.minify == minify,
            options.stringify == stringify,
    {
        JsonModuleMachineOptions { named_exports, minify, stringify }
    }

    pub fn cache_namespace(self) -> (namespace: &'static str)
        ensures
            namespace@ == namespace_of(self),
    {
        match (self.named_exports, self.minify, self.stringify) {
            (true, true, ViteJsonPluginStringify::Auto) => {
                "json_module_v2_named_exports_1_minify_1_stringify_auto"
            },
            (true, true, ViteJsonPluginStringify::True) => {
                "json_module_v2_named_exports_1_minify_1_stringify_true"
            },
            (true, true, ViteJsonPluginStringify::False) => {
                "json_module_v2_named_exports_1_minify_1_stringify_false"
            },
            (true, false, ViteJsonPluginStringify::Auto) => {
                "json_module_v2_named_exports_1_minify_0_stringify_auto"
            },
            (true, false, ViteJsonPluginStringify::True) => {
                "json_module_v2_named_exports_1_minify_0_stringify_true"
            },
            (true, false, ViteJsonPluginStringify::False) => {
                "json_module_v2_named_exports_1_minify_0_stringify_false"
            },
            (false, true, ViteJsonPluginStringify::Auto) => {
                "json_module_v2_named_exports_0_minify_1_stringify_auto"
            },
            (false, true, ViteJsonPluginStringify::True) => {
                "json_module_v2_named_exports_0_minify_1_stringify_true"
            },
            (false, true, ViteJsonPluginStringify::False) => {
                "json_module_v2_named_exports_0_minify_1_stringify_false"
            },
            (false, false, ViteJsonPluginStringify::Auto) => {
                "json_module_v2_named_exports_0_minify_0_stringify_auto"
            },
            (false, false, ViteJsonPluginStringify::True) => {
                "json_module_v2_named_exports_0_minify_0_stringify_true"
            },
            (false, false, ViteJsonPluginStringify::False) => {
                "json_module_v2_named_exports_0_minify_0_stringify_false"
            },
        }
    }
}

// ---------------------------------------------------------------------------------------------
// The source

/// The plugin takes the modules of type JSON whose id has the extension of JSON and no query that
/// it leaves alone.
pub fn takes_json_module(
    module_type: &ModuleType,
    has_json_extension: bool,
    has_special_query: bool,
) -> (r: bool)
    ensures
        r == (*module_type is Json && has_json_extension && !has_special_query),
{
    match module_type {
        ModuleType::Json => has_json_extension && !has_special_query,
        _ => false,
    }
}

/// A byte order mark takes three bytes, and the next character starts behind them.
proof fn lemma_bom_bytes(code: Seq<char>)
    requires
        code.len() > 0,
        code[0] as u32 == 0xfeff,
    ensures
        encode_utf8(code).len() >= 3,
        is_char_boundary(encode_utf8(code), 3),
        encode_utf8(code).skip(3) == encode_utf8(code.skip(1)),
{
    let bytes = encode_utf8(code);
    let mark = encode_scalar(code[0] as u32);
    assert(code.drop_first() =~= code.skip(1));
    assert(bytes == mark + encode_utf8(code.skip(1)));
    assert(mark.len() == 3);
    assert(bytes.skip(3) =~= encode_utf8(code.skip(1)));
    encode_utf8_valid_utf8(code);
    encode_utf8_valid_utf8(code.skip(1));
    let rest = encode_utf8(code.skip(1));
    if rest.len() == 0 {
        is_char_boundary_start_end_of_seq(bytes);
    } else {
        is_char_boundary_start_end_of_seq(rest);
        is_char_boundary_iff_not_is_continuation_byte(rest, 0);
        assert(bytes[3] == rest[0]);
        is_char_boundary_iff_not_is_continuation_byte(bytes, 3);
    }
}

/// The code without a byte order mark in front.
pub fn strip_bom(code: &str) -> (stripped: &str)
    ensures
        stripped@ == module_source::without_bom(code@),
        code@.len() > 0 && code@[0] as u32 == 0xfeff ==> stripped@ == code@.skip(1),
        code@.len() == 0 || code@[0] as u32 != 0xfeff ==> stripped@ == code@,
{
    let chars: Vec<char> = chars_of(code);
    if chars.len() == 0 || chars[0] as u32 != 0xfeff {
        return code;
    }
    proof {
        lemma_bom_bytes(code@);
    }
    let (mark, rest) = code.split_at(3);
    proof {
        let bytes = encode_utf8(code@);
        assert(bytes.subrange(3, bytes.len() as int) =~= bytes.skip(3));
        text::lemma_encode_injective(rest@, code@.skip(1));
    }
    rest
}

// ---------------------------------------------------------------------------------------------
// The generated module

/// What is to be done with a source.
#[derive(Debug, Clone, Copy, PartialEq, Eq, Structural)]
pub struct JsonModuleTransformPlan {
    pub uses_named_exports: bool,
    pub uses_stringify: bool,
    pub requires_parse: bool,
    pub source_is_structured: bool,
}

/// The first byte that is no white space.
pub open spec fn first_byte(bytes: Seq<u8>) -> Option<u8>
    decreases bytes.len(),
{
    if bytes.len() == 0 {
        None
    } else if core_json::is_json_space(bytes[0]) {
        first_byte(bytes.skip(1))
    } else {
        Some(bytes[0])
    }
}

/// Whether a text of JSON starts with this byte, apart from white space in front of it.
pub open spec fn starts_with_byte(bytes: Seq<u8>, byte: u8) -> bool {
    exists|at: int|
        0 <= at < bytes.len() && #[trigger] bytes[at] == byte && !is_blank(byte) && forall|i: int|
            0 <= i < at ==> is_blank(#[trigger] bytes[i])
}

/// Space, tab, line feed, form feed and carriage return.
pub open spec fn is_blank(byte: u8) -> bool {
    byte == 0x20 || byte == 0x09 || byte == 0x0a || byte == 0x0c || byte == 0x0d
}

/// The first byte that is no white space has nothing but white space in front of it, and there is
/// none exactly where all is white space.
pub proof fn lemma_first_byte(bytes: Seq<u8>)
    ensures
        forall|byte: u8|
            first_byte(bytes) == Some(byte) <==> #[trigger] starts_with_byte(bytes, byte),
        first_byte(bytes) is None <==> forall|i: int|
            0 <= i < bytes.len() ==> is_blank(#[trigger] bytes[i]),
    decreases bytes.len(),
{
    if bytes.len() > 0 {
        let tail = bytes.skip(1);
        assert(core_json::is_json_space(bytes[0]) == is_blank(bytes[0]));
        if is_blank(bytes[0]) {
            lemma_first_byte(tail);
            assert forall|byte: u8| starts_with_byte(tail, byte) == #[trigger] starts_with_byte(
                bytes,
                byte,
            ) by {
                if starts_with_byte(tail, byte) {
                    let at = choose|at: int|
                        0 <= at < tail.len() && #[trigger] tail[at] == byte && !is_blank(byte)
                            && forall|i: int| 0 <= i < at ==> is_blank(#[trigger] tail[i]);
                    assert(bytes[at + 1] == byte);
                    assert forall|i: int| 0 <= i < at + 1 implies is_blank(#[trigger] bytes[i]) by {
                        if i > 0 {
                            assert(tail[i - 1] == bytes[i]);
                        }
                    }
                }
                if starts_with_byte(bytes, byte) {
                    let at = choose|at: int|
                        0 <= at < bytes.len() && #[trigger] bytes[at] == byte && !is_blank(byte)
                            && forall|i: int| 0 <= i < at ==> is_blank(#[trigger] bytes[i]);
                    assert(tail[at - 1] == byte);
                    assert forall|i: int| 0 <= i < at - 1 implies is_blank(#[trigger] tail[i]) by {
                        assert(bytes[i + 1] == tail[i]);
                    }
                }
            }
            assert((forall|i: int| 0 <= i < bytes.len() ==> is_blank(#[trigger] bytes[i]))
                == forall|i: int| 0 <= i < tail.len() ==> is_blank(#[trigger] tail[i])) by {
                if forall|i: int| 0 <= i < bytes.len() ==> is_blank(#[trigger] bytes[i]) {
                    assert forall|i: int| 0 <= i < tail.len() implies is_blank(
                        #[trigger] tail[i],
                    ) by {
                        assert(bytes[i + 1] == tail[i]);
                    }
                }
                if forall|i: int| 0 <= i < tail.len() ==> is_blank(#[trigger] tail[i]) {
                    assert forall|i: int| 0 <= i < bytes.len() implies is_blank(
                        #[trigger] bytes[i],
                    ) by {
                        if i > 0 {
                            assert(tail[i - 1] == bytes[i]);
                        }
                    }
                }
            }
        } else {
            assert(starts_with_byte(bytes, bytes[0]));
            assert forall|byte: u8| #[trigger] starts_with_byte(bytes, byte) implies byte
                == bytes[0] by {
                let at = choose|at: int|
                    0 <= at < bytes.len() && #[trigger] bytes[at] == byte && !is_blank(byte)
                        && forall|i: int| 0 <= i < at ==> is_blank(#[trigger] bytes[i]);
                if at > 0 {
                    assert(is_blank(bytes[0]));
                }
            }
        }
    }
}

pub fn json_module_first_non_whitespace_byte(code: &str) -> (r: Option<u8>)
    ensures
        r == first_byte(encode_utf8(code@)),
        forall|byte: u8|
            r == Some(byte) <==> #[trigger] starts_with_byte(encode_utf8(code@), byte),
{
    proof {
        lemma_first_byte(encode_utf8(code@));
    }
    let bytes: &[u8] = code.as_bytes();
    let mut i: usize = 0;
    assert(bytes@.skip(0) =~= bytes@);
    while i < bytes.len()
        invariant
            i <= bytes@.len(),
            bytes@ == encode_utf8(code@),
            first_byte(bytes@.skip(i as int)) == first_byte(bytes@),
        decreases bytes@.len() - i,
    {
        let byte: u8 = bytes[i];
        assert(bytes@.skip(i as int)[0] == byte);
        assert(bytes@.skip(i as int).skip(1) =~= bytes@.skip(i + 1));
        if !(byte == 0x20 || byte == 0x09 || byte == 0x0a || byte == 0x0c || byte == 0x0d) {
            proof {
                lemma_first_byte(bytes@);
            }
            return Some(byte);
        }
        i = i + 1;
    }
    None
}

pub open spec fn stringifies(code_len: nat, stringify: ViteJsonPluginStringify) -> bool {
    match stringify {
        ViteJsonPluginStringify::Auto => code_len > JSON_MODULE_STRINGIFY_THRESHOLD,
        ViteJsonPluginStringify::True => true,
        ViteJsonPluginStringify::False => false,
    }
}

pub fn json_module_uses_stringify(code: &str, options: &JsonModuleMachineOptions) -> (r: bool)
    ensures
        r == stringifies(encode_utf8(code@).len(), options.stringify),
        options.stringify is True ==> r,
        options.stringify is False ==> !r,
        options.stringify is Auto ==> r == (encode_utf8(code@).len() > 10_000),
{
    match options.stringify {
        ViteJsonPluginStringify::Auto => byte_len(code) > JSON_MODULE_STRINGIFY_THRESHOLD,
        ViteJsonPluginStringify::True => true,
        ViteJsonPluginStringify::False => false,
    }
}

pub open spec fn transform_plan(code: Seq<u8>, options: JsonModuleMachineOptions) -> JsonModuleTransformPlan {
    let uses_named_exports = options.named_exports && first_byte(code) == Some(0x7bu8);
    let uses_stringify = stringifies(code.len(), options.stringify);
    JsonModuleTransformPlan {
        uses_named_exports,
        uses_stringify,
        requires_parse: uses_named_exports || !uses_stringify || options.minify,
        source_is_structured: first_byte(code) == Some(0x7bu8) || first_byte(code) == Some(0x5bu8),
    }
}

pub fn json_module_transform_plan(code: &str, options: &JsonModuleMachineOptions) -> (plan:
    JsonModuleTransformPlan)
    ensures
        plan == transform_plan(encode_utf8(code@), *options),
        plan.uses_named_exports == (options.named_exports && starts_with_byte(
            encode_utf8(code@),
            0x7b,
        )),
        plan.source_is_structured == (starts_with_byte(encode_utf8(code@), 0x7b)
            || starts_with_byte(encode_utf8(code@), 0x5b)),
        !plan.requires_parse ==> !plan.uses_named_exports && plan.uses_stringify && !options.minify,
        plan.requires_parse ==> plan.uses_named_exports || !plan.uses_stringify || options.minify,
{
    let first: Option<u8> = json_module_first_non_whitespace_byte(code);
    let opens_object: bool = match first {
        Some(byte) => byte == 0x7b,
        None => false,
    };
    let opens_array: bool = match first {
        Some(byte) => byte == 0x5b,
        None => false,
    };
    let uses_named_exports: bool = options.named_exports && opens_object;
    let uses_stringify: bool = json_module_uses_stringify(code, options);
    JsonModuleTransformPlan {
        uses_named_exports,
        uses_stringify,
        requires_parse: uses_named_exports || !uses_stringify || options.minify,
        source_is_structured: opens_object || opens_array,
    }
}

/// A value as JSON without white space.
pub open spec fn compact_text(value: core_json::JsonModel) -> Seq<char>
    decreases value, 0nat,
{
    match value {
        core_json::JsonModel::Null => "null"@,
        core_json::JsonModel::Bool(flag) => if flag {
            "true"@
        } else {
            "false"@
        },
        core_json::JsonModel::Number(number) => number,
        core_json::JsonModel::Text(content) => json_text::string_literal(content),
        core_json::JsonModel::Array(items) => seq!['['] + compact_items(items, items.len())
            + seq![']'],
        core_json::JsonModel::Object(entries) => seq!['{'] + compact_entries(
            entries,
            entries.len(),
        ) + seq!['}'],
    }
}

/// The first `count` items, with commas between them.
pub open spec fn compact_items(items: Seq<core_json::JsonModel>, count: nat) -> Seq<char>
    decreases items, count,
{
    if count == 0 || count > items.len() {
        Seq::empty()
    } else if count == 1 {
        compact_text(items[0])
    } else {
        compact_items(items, (count - 1) as nat).push(',') + compact_text(items[count - 1])
    }
}

/// The first `count` entries, with commas between them.
pub open spec fn compact_entries(
    entries: Seq<(Seq<char>, core_json::JsonModel)>,
    count: nat,
) -> Seq<char>
    decreases entries, count,
{
    if count == 0 || count > entries.len() {
        Seq::empty()
    } else {
        let before = compact_entries(entries, (count - 1) as nat);
        let own = json_text::string_literal(entries[count - 1].0).push(':') + compact_text(
            entries[count - 1].1,
        );
        if count == 1 {
            own
        } else {
            before.push(',') + own
        }
    }
}

/// The value that a text parses to, without white space; the message of the error where the text
/// is no JSON.
pub open spec fn compact_json(code: Seq<char>) -> Result<Seq<char>, Seq<char>> {
    match json_parse::serde_value(encode_utf8(code)) {
        Ok(value) => Ok(compact_text(value)),
        Err((line, column, message)) => Err(message),
    }
}

pub open spec fn text_result(result: Result<String, String>) -> Result<Seq<char>, Seq<char>> {
    match result {
        Ok(value) => Ok(value@),
        Err(message) => Err(message@),
    }
}

/// `serde_json::to_string` of the `serde_json::Value` that `serde_json::from_slice` reads: the
/// parse fails as named, with its message, and what is written is the value without white space,
/// its strings as literals and its numbers as their texts.
#[verifier::external_body]
fn compact_json_text(code: &str) -> (json: Result<String, String>)
    ensures
        match json_parse::serde_value(encode_utf8(code@)) {
            Ok(value) => json matches Ok(written) && written@ == compact_text(value),
            Err(error) => json matches Err(message) && message@ == error.2,
        },
{
    match serde_json::from_slice::<serde_json::Value>(code.as_bytes()) {
        Ok(value) => serde_json::to_string(&value).map_err(|error| error.to_string()),
        Err(error) => Err(error.to_string()),
    }
}

/// What a source becomes: a finished module, or a module that is to be rendered from the parsed
/// value, or the reason why it is no JSON.
#[derive(Debug, Clone, PartialEq, Eq)]
pub enum JsonModuleOutput {
    Code(String),
    DataToEsm { named_exports: bool },
    Invalid { message: String },
}

pub ghost enum JsonOutputModel {
    Code(Seq<char>),
    DataToEsm(bool),
    Invalid(Seq<char>),
}

impl View for JsonModuleOutput {
    type V = JsonOutputModel;

    open spec fn view(&self) -> JsonOutputModel {
        match self {
            JsonModuleOutput::Code(code) => JsonOutputModel::Code(code@),
            JsonModuleOutput::DataToEsm { named_exports } => JsonOutputModel::DataToEsm(
                *named_exports,
            ),
            JsonModuleOutput::Invalid { message } => JsonOutputModel::Invalid(message@),
        }
    }
}

/// A module that parses a JSON text when it runs.
pub open spec fn parse_module(json: Seq<char>) -> Seq<char> {
    "export default /*#__PURE__*/ JSON.parse("@ + json_text::string_literal(json) + ")"@
}

/// The module of a source, given what its compact form is. The compact form matters only where
/// the source has to be parsed.
pub open spec fn module_output(
    code: Seq<char>,
    compact: Result<Seq<char>, Seq<char>>,
    options: JsonModuleMachineOptions,
    plan: JsonModuleTransformPlan,
) -> JsonOutputModel {
    if !plan.uses_named_exports && plan.uses_stringify {
        if options.minify {
            match compact {
                Ok(json) => JsonOutputModel::Code(parse_module(json)),
                Err(message) => JsonOutputModel::Invalid(message),
            }
        } else {
            JsonOutputModel::Code(parse_module(code))
        }
    } else {
        match compact {
            Ok(_) => JsonOutputModel::DataToEsm(options.named_exports),
            Err(message) => JsonOutputModel::Invalid(message),
        }
    }
}

/// Whether a module hands this text to `JSON.parse` and exports what comes back.
pub open spec fn parses_when_run(module: Seq<char>, json: Seq<char>) -> bool {
    let head = "export default /*#__PURE__*/ JSON.parse("@;
    &&& head.is_prefix_of(module)
    &&& json_read::value_at(module.skip(head.len() as int)) == Some(
        (core_json::JsonModel::Text(json), seq![')']),
    )
}

/// A module that parses a JSON text when it runs has that text as the one argument of the call.
pub proof fn lemma_parse_module(json: Seq<char>)
    ensures
        parses_when_run(parse_module(json), json),
{
    let head = "export default /*#__PURE__*/ JSON.parse("@;
    let module = parse_module(json);
    reveal_strlit(")");
    assert(module.subrange(0, head.len() as int) =~= head);
    assert(module.skip(head.len() as int) =~= json_text::string_literal(json) + seq![')']);
    json_read::lemma_value_reads_back(core_json::JsonModel::Text(json), seq![')']);
}

/// What an output says of the source: a module to be rendered from the value has named exports
/// exactly where the options ask for them. Where no named exports are made and the value is given as
/// a string, the module parses the source, or its compact form where it is to be short. A source is
/// refused only where it has to be parsed and is no JSON.
pub open spec fn output_is_right(
    output: JsonOutputModel,
    code: Seq<char>,
    compact: Result<Seq<char>, Seq<char>>,
    options: JsonModuleMachineOptions,
    uses_named_exports: bool,
    uses_stringify: bool,
) -> bool {
    let as_string = !uses_named_exports && uses_stringify;
    &&& output matches JsonOutputModel::DataToEsm(named) ==> named == options.named_exports
        && !as_string && compact is Ok
    &&& output matches JsonOutputModel::Invalid(message) ==> compact == Err::<Seq<char>, _>(message)
        && (options.minify || !as_string)
    &&& output matches JsonOutputModel::Code(module) ==> as_string && if options.minify {
        compact matches Ok(json) && parses_when_run(module, json)
    } else {
        parses_when_run(module, code)
    }
}

pub proof fn lemma_module_output(
    code: Seq<char>,
    compact: Result<Seq<char>, Seq<char>>,
    options: JsonModuleMachineOptions,
    plan: JsonModuleTransformPlan,
)
    ensures
        output_is_right(
            module_output(code, compact, options, plan),
            code,
            compact,
            options,
            plan.uses_named_exports,
            plan.uses_stringify,
        ),
        module_output(code, compact, options, plan) matches JsonOutputModel::DataToEsm(named)
            ==> named == options.named_exports,
        !options.named_exports ==> module_output(code, compact, options, plan)
            != JsonOutputModel::DataToEsm(true),
{
    lemma_parse_module(code);
    if let Ok(json) = compact {
        lemma_parse_module(json);
    }
}

/// A module that parses `json` when it runs.
pub fn json_parse_module(json: &str) -> (code: String)
    ensures
        code@ == parse_module(json@),
        parses_when_run(code@, json@),
{
    proof {
        lemma_parse_module(json@);
    }
    let literal: String = match json_string_literal(json) {
        Some(literal) => literal,
        None => {
            assert(false);
            String::new()
        },
    };
    let mut code: String = String::new();
    code.push_str("export default /*#__PURE__*/ JSON.parse(");
    code.push_str(literal.as_str());
    code.push_str(")");
    assert(code@ =~= parse_module(json@));
    code
}

/// The module of a source of which the compact form is known.
pub fn json_module_output(
    code: &str,
    compact: Result<String, String>,
    options: &JsonModuleMachineOptions,
    plan: JsonModuleTransformPlan,
) -> (output: JsonModuleOutput)
    ensures
        output@ == module_output(code@, text_result(compact), *options, plan),
        output matches JsonModuleOutput::DataToEsm { named_exports } ==> named_exports
            == options.named_exports,
        output_is_right(
            output@,
            code@,
            text_result(compact),
            *options,
            plan.uses_named_exports,
            plan.uses_stringify,
        ),
{
    proof {
        lemma_module_output(code@, text_result(compact), *options, plan);
    }
    if !plan.uses_named_exports && plan.uses_stringify {
        if options.minify {
            match compact {
                Ok(json) => JsonModuleOutput::Code(json_parse_module(json.as_str())),
                Err(message) => JsonModuleOutput::Invalid { message },
            }
        } else {
            JsonModuleOutput::Code(json_parse_module(code))
        }
    } else {
        match compact {
            Ok(_) => JsonModuleOutput::DataToEsm { named_exports: options.named_exports },
            Err(message) => JsonModuleOutput::Invalid { message },
        }
    }
}

pub fn transform_json_module_with_plan(
    code: &str,
    options: &JsonModuleMachineOptions,
    plan: JsonModuleTransformPlan,
) -> (output: JsonModuleOutput)
    ensures
        output@ == module_output(code@, compact_json(code@), *options, plan),
        output matches JsonModuleOutput::DataToEsm { named_exports } ==> named_exports
            == options.named_exports,
        output_is_right(
            output@,
            code@,
            compact_json(code@),
            *options,
            plan.uses_named_exports,
            plan.uses_stringify,
        ),
{
    proof {
        lemma_module_output(code@, compact_json(code@), *options, plan);
    }
    if !plan.uses_named_exports && plan.uses_stringify && !options.minify {
        return JsonModuleOutput::Code(json_parse_module(code));
    }
    json_module_output(code, compact_json_text(code), options, plan)
}

pub fn transform_json_module(code: &str, options: &JsonModuleMachineOptions) -> (output:
    JsonModuleOutput)
    ensures
        output@ == module_output(
            code@,
            compact_json(code@),
            *options,
            transform_plan(encode_utf8(code@), *options),
        ),
        output matches JsonModuleOutput::DataToEsm { named_exports } ==> named_exports
            == options.named_exports,
        output_is_right(
            output@,
            code@,
            compact_json(code@),
            *options,
            options.named_exports && starts_with_byte(encode_utf8(code@), 0x7b),
            options.stringify is True || (options.stringify is Auto && encode_utf8(code@).len()
                > 10_000),
        ),
{
    let plan: JsonModuleTransformPlan = json_module_transform_plan(code, options);
    transform_json_module_with_plan(code, options, plan)
}

// ---------------------------------------------------------------------------------------------
// Where the artifact lives

/// `memchr::memchr` finds the first occurrence of a byte.
#[verifier::external_body]
fn first_occurrence(needle: u8, haystack: &[u8]) -> (at: Option<usize>)
    ensures
        at is Some == haystack@.contains(needle),
        at matches Some(index) ==> index < haystack@.len() && haystack@[index as int] == needle
            && !haystack@.take(index as int).contains(needle),
{
    memchr::memchr(needle, haystack)
}

/// The characters before the first `mark`.
pub open spec fn before_mark(value: Seq<char>, mark: char) -> Seq<char>
    decreases value.len(),
{
    if value.len() == 0 || value[0] == mark {
        Seq::empty()
    } else {
        seq![value[0]] + before_mark(value.skip(1), mark)
    }
}

/// An identifier without its query.
pub open spec fn source_path_of(id: Seq<char>) -> Seq<char> {
    before_mark(id, '?')
}

proof fn lemma_before_mark(value: Seq<char>, mark: char)
    ensures
        before_mark(value, mark).is_prefix_of(value),
        !before_mark(value, mark).contains(mark),
        before_mark(value, mark).len() < value.len() ==> value[before_mark(value, mark).len() as int]
            == mark,
    decreases value.len(),
{
    let front = before_mark(value, mark);
    if value.len() == 0 || value[0] == mark {
        assert(value.subrange(0, 0) =~= Seq::<char>::empty());
    } else {
        let rest = before_mark(value.skip(1), mark);
        lemma_before_mark(value.skip(1), mark);
        assert(value.subrange(0, front.len() as int) =~= front) by {
            assert forall|i: int| 0 <= i < front.len() implies value[i] == front[i] by {
                if i > 0 {
                    assert(value.skip(1).subrange(0, rest.len() as int)[i - 1] == rest[i - 1]);
                }
            }
        }
        if front.contains(mark) {
            let i = choose|i: int| 0 <= i < front.len() && front[i] == mark;
            assert(rest[i - 1] == mark);
        }
    }
}

proof fn lemma_question_mark_is_one_byte(scalar: u32)
    by (bit_vector)
    requires
        scalar != 0x3f,
        scalar <= 0x10ffff,
    ensures
        scalar <= 0x7f ==> (scalar & 0x7f) as u8 != 0x3f,
        0xC0u8 | (((scalar >> 6) & 0x1F) as u8) != 0x3f,
        0xE0u8 | (((scalar >> 12) & 0x0F) as u8) != 0x3f,
        0xF0u8 | (((scalar >> 18) & 0x7) as u8) != 0x3f,
        0x80u8 | ((scalar & 0x3F) as u8) != 0x3f,
        0x80u8 | (((scalar >> 6) & 0x3F) as u8) != 0x3f,
        0x80u8 | (((scalar >> 12) & 0x3F) as u8) != 0x3f,
{
}

/// The byte of a question mark stands for nothing else.
proof fn lemma_no_question_mark(value: Seq<char>)
    requires
        !value.contains('?'),
    ensures
        !encode_utf8(value).contains(0x3f),
    decreases value.len(),
{
    if value.len() > 0 {
        let scalar = value[0] as u32;
        let first = encode_scalar(scalar);
        let tail = value.drop_first();
        assert(value[0] != '?');
        char_u32_cast(value[0], scalar);
        assert(scalar != 0x3f);
        lemma_question_mark_is_one_byte(scalar);
        if tail.contains('?') {
            let i = choose|i: int| 0 <= i < tail.len() && tail[i] == '?';
            assert(value[i + 1] == '?');
        }
        lemma_no_question_mark(tail);
        assert forall|i: int| 0 <= i < first.len() implies #[trigger] first[i] != 0x3f by {}
        let all = first + encode_utf8(tail);
        if all.contains(0x3f) {
            let i = choose|i: int| 0 <= i < all.len() && all[i] == 0x3f;
            if i >= first.len() {
                assert(encode_utf8(tail)[i - first.len()] == 0x3f);
            }
        }
    }
}

proof fn lemma_question_mark_byte()
    ensures
        encode_utf8(seq!['?']) == seq![0x3fu8],
{
    assert(is_ascii_chars(seq!['?']));
    text::lemma_encode_ascii_len(seq!['?']);
    assert(seq!['?'].drop_first() =~= Seq::<char>::empty());
    assert(0x3fu32 & 0x7f == 0x3f) by (bit_vector);
    assert(encode_utf8(Seq::<char>::empty()) =~= Seq::<u8>::empty());
    assert(encode_utf8(seq!['?']) =~= seq![0x3fu8]);
}

/// The path of a module, without the query of its identifier.
pub fn json_module_source_path(id: &str) -> (path: String)
    ensures
        path@ == source_path_of(id@),
        !path@.contains('?'),
        path@.is_prefix_of(id@),
        path@.len() < id@.len() ==> id@[path@.len() as int] == '?',
{
    let bytes: &[u8] = id.as_bytes();
    let ghost front = source_path_of(id@);
    proof {
        lemma_before_mark(id@, '?');
        lemma_no_question_mark(front);
    }
    match first_occurrence(0x3f, bytes) {
        None => {
            proof {
                if front.len() < id@.len() {
                    let n = front.len() as int;
                    assert(id@ =~= front + (seq!['?'] + id@.skip(n + 1)));
                    text::lemma_encode_concat(front, seq!['?'] + id@.skip(n + 1));
                    text::lemma_encode_concat(seq!['?'], id@.skip(n + 1));
                    lemma_question_mark_byte();
                    assert(bytes@[encode_utf8(front).len() as int] == 0x3f);
                }
                assert(front =~= id@);
            }
            id.to_string()
        },
        Some(index) => {
            proof {
                if front.len() == id@.len() {
                    assert(front =~= id@);
                }
                let n = front.len() as int;
                assert(id@ =~= front + (seq!['?'] + id@.skip(n + 1)));
                text::lemma_encode_concat(front, seq!['?'] + id@.skip(n + 1));
                text::lemma_encode_concat(seq!['?'], id@.skip(n + 1));
                lemma_question_mark_byte();
                let len = encode_utf8(front).len() as int;
                assert(bytes@[len] == 0x3f);
                if index < len {
                    assert(encode_utf8(front)[index as int] == bytes@[index as int]);
                }
                if len < index {
                    assert(bytes@.take(index as int)[len] == 0x3f);
                }
                assert(bytes@.take(index as int) =~= encode_utf8(front));
                encode_utf8_valid_utf8(front);
                encode_utf8_decode_utf8(front);
            }
            let head: &[u8] = &bytes[0..index];
            assert(head@ =~= bytes@.take(index as int));
            match utf8_text(head) {
                Some(path) => path,
                None => String::new(),
            }
        },
    }
}

/// A virtual module has a NUL character in its path.
pub fn json_module_machine_source_path_is_virtual(source_path: &str) -> (r: bool)
    ensures
        r == source_path@.contains('\0'),
{
    let chars: Vec<char> = chars_of(source_path);
    let mut i: usize = 0;
    while i < chars.len()
        invariant
            i <= chars.len(),
            chars@ == source_path@,
            forall|j: int| 0 <= j < i ==> #[trigger] chars@[j] != '\0',
        decreases chars.len() - i,
    {
        if chars[i] == '\0' {
            return true;
        }
        i = i + 1;
    }
    false
}

/// Where the artifact of a JSON module lives.
#[derive(Debug, Clone, PartialEq, Eq)]
pub struct JsonModuleMachineCacheTarget {
    pub config: DxMachineCacheConfig,
    pub source_path: String,
    pub paths: DxMachineCachePaths,
}

pub open spec fn json_module_paths(
    root: Seq<char>,
    project_root: Seq<char>,
    source_path: Seq<char>,
    options: JsonModuleMachineOptions,
    style: PathStyle,
) -> (Seq<char>, Seq<char>) {
    machine_cache::artifact_paths(root, project_root, namespace_of(options), source_path, style)
}

/// Whether a target is the one of this source under this configuration.
pub open spec fn is_target_of(
    target: JsonModuleMachineCacheTarget,
    root: Seq<char>,
    style: PathStyle,
    project_root: Seq<char>,
    source_path: Seq<char>,
    options: JsonModuleMachineOptions,
) -> bool {
    &&& target.config.enabled
    &&& target.config.root@ == root
    &&& target.config.style == style
    &&& target.source_path@ == source_path
    &&& (target.paths.machine@, target.paths.metadata@) == json_module_paths(
        root,
        project_root,
        source_path,
        options,
        style,
    )
}

pub fn json_module_machine_cache_paths_if_enabled(
    cache_config: &DxMachineCacheConfig,
    project_root: &str,
    source_path: &str,
    options: &JsonModuleMachineOptions,
) -> (paths: Option<DxMachineCachePaths>)
    ensures
        paths is Some == cache_config.enabled,
        paths matches Some(p) ==> (p.machine@, p.metadata@) == json_module_paths(
            cache_config.root@,
            project_root@,
            source_path@,
            *options,
            cache_config.style,
        ),
{
    cache_config.paths_for_source_if_enabled(project_root, options.cache_namespace(), source_path)
}

pub fn json_module_machine_cache_target_from_non_virtual_source_path(
    cache_config: DxMachineCacheConfig,
    project_root: &str,
    source_path: String,
    options: &JsonModuleMachineOptions,
) -> (r: Option<JsonModuleMachineCacheTarget>)
    ensures
        r is Some == cache_config.enabled,
        r matches Some(target) ==> is_target_of(
            target,
            cache_config.root@,
            cache_config.style,
            project_root@,
            source_path@,
            *options,
        ),
{
    let paths: DxMachineCachePaths = json_module_machine_cache_paths_if_enabled(
        &cache_config,
        project_root,
        source_path.as_str(),
        options,
    )?;
    Some(JsonModuleMachineCacheTarget { config: cache_config, source_path, paths })
}

/// The target of a path, which a virtual module does not have.
pub fn json_module_machine_cache_target_from_source_path(
    cache_config: DxMachineCacheConfig,
    project_root: &str,
    source_path: String,
    options: &JsonModuleMachineOptions,
) -> (r: Option<JsonModuleMachineCacheTarget>)
    ensures
        r is Some == (cache_config.enabled && !source_path@.contains('\0')),
        r matches Some(target) ==> is_target_of(
            target,
            cache_config.root@,
            cache_config.style,
            project_root@,
            source_path@,
            *options,
        ),
{
    if json_module_machine_source_path_is_virtual(source_path.as_str()) {
        return None;
    }
    json_module_machine_cache_target_from_non_virtual_source_path(
        cache_config,
        project_root,
        source_path,
        options,
    )
}

pub fn json_module_machine_cache_target_with_config(
    cache_config: DxMachineCacheConfig,
    project_root: &str,
    id: &str,
    options: &JsonModuleMachineOptions,
) -> (r: Option<JsonModuleMachineCacheTarget>)
    ensures
        r is Some == (cache_config.enabled && !source_path_of(id@).contains('\0')),
        r matches Some(target) ==> is_target_of(
            target,
            cache_config.root@,
            cache_config.style,
            project_root@,
            source_path_of(id@),
            *options,
        ),
{
    json_module_machine_cache_target_from_source_path(
        cache_config,
        project_root,
        json_module_source_path(id),
        options,
    )
}

/// The target of a module. The environment counts only for a module that is not virtual.
pub fn json_module_machine_cache_target(
    project_root: &str,
    id: &str,
    options: &JsonModuleMachineOptions,
    env_value: Option<String>,
    style: PathStyle,
) -> (r: Option<JsonModuleMachineCacheTarget>)
    ensures
        r is Some == (machine_cache::env_enables(env_value) && !source_path_of(id@).contains(
            '\0',
        )),
        r matches Some(target) ==> is_target_of(
            target,
            machine_cache::cache_root(project_root@, style),
            style,
            project_root@,
            source_path_of(id@),
            *options,
        ),
{
    let source_path: String = json_module_source_path(id);
    if json_module_machine_source_path_is_virtual(source_path.as_str()) {
        return None;
    }
    let cache_config: DxMachineCacheConfig = DxMachineCacheConfig::from_env_value_if_enabled(
        project_root,
        env_value,
        style,
    )?;
    json_module_machine_cache_target_from_non_virtual_source_path(
        cache_config,
        project_root,
        source_path,
        options,
    )
}

pub fn json_module_source_len_worth_machine_cache(source_len: usize) -> (r: bool)
    ensures
        r == (source_len > JSON_MODULE_MACHINE_MIN_SOURCE_BYTES),
{
    source_len > JSON_MODULE_MACHINE_MIN_SOURCE_BYTES
}

/// A source is worth caching where it is large, an object or an array, and has to be parsed.
pub open spec fn worth_caching(code_len: nat, plan: JsonModuleTransformPlan) -> bool {
    code_len > JSON_MODULE_MACHINE_MIN_SOURCE_BYTES && plan.requires_parse
        && plan.source_is_structured
}

pub fn json_module_source_worth_machine_cache_with_plan(
    code: &str,
    transform_plan: JsonModuleTransformPlan,
) -> (r: bool)
    ensures
        r == worth_caching(encode_utf8(code@).len(), transform_plan),
        r == (encode_utf8(code@).len() > JSON_MODULE_MACHINE_MIN_SOURCE_BYTES
            && transform_plan.requires_parse && transform_plan.source_is_structured),
{
    json_module_source_len_worth_machine_cache(byte_len(code)) && transform_plan.requires_parse
        && transform_plan.source_is_structured
}

pub fn json_module_machine_cache_target_if_worth_cache(
    project_root: &str,
    id: &str,
    code: &str,
    transform_plan: JsonModuleTransformPlan,
    options: &JsonModuleMachineOptions,
    env_value: Option<String>,
    style: PathStyle,
) -> (r: Option<JsonModuleMachineCacheTarget>)
    ensures
        r is Some == (worth_caching(encode_utf8(code@).len(), transform_plan)
            && machine_cache::env_enables(env_value) && !source_path_of(id@).contains('\0')),
        r matches Some(target) ==> is_target_of(
            target,
            machine_cache::cache_root(project_root@, style),
            style,
            project_root@,
            source_path_of(id@),
            *options,
        ),
{
    if !json_module_source_worth_machine_cache_with_plan(code, transform_plan) {
        return None;
    }
    json_module_machine_cache_target(project_root, id, options, env_value, style)
}

// ---------------------------------------------------------------------------------------------
// Compression

/// A length inside a compressed block is a run of 255s and one more byte. Below this run, the sum
/// of the length, what a decoder adds to it, and a position in the largest module fits 32 bits; the
/// block of such a module has runs of about a million at most.
pub const LZ4_OVERLONG_RUN: usize = 15_000_000;

/// Whether the block holds `run` bytes of 255 in a row.
pub open spec fn has_run(block: Seq<u8>, run: nat) -> bool {
    exists|start: int| #[trigger] is_run(block, start, run)
}

pub open spec fn is_run(block: Seq<u8>, start: int, run: nat) -> bool {
    0 <= start && start + run <= block.len() && forall|i: int|
        start <= i < start + run ==> #[trigger] block[i] == 255
}

fn has_overlong_run(block: &[u8]) -> (r: bool)
    ensures
        r == has_run(block@, LZ4_OVERLONG_RUN as nat),
{
    let mut run: usize = 0;
    let mut i: usize = 0;
    while i < block.len()
        invariant
            i <= block@.len(),
            run <= i,
            run < LZ4_OVERLONG_RUN,
            forall|j: int| i - run <= j < i ==> #[trigger] block@[j] == 255,
            run < i ==> block@[i - run - 1] != 255,
            forall|start: int|
                start + LZ4_OVERLONG_RUN <= i ==> !#[trigger] is_run(
                    block@,
                    start,
                    LZ4_OVERLONG_RUN as nat,
                ),
        decreases block@.len() - i,
    {
        let ghost before = run;
        if block[i] == 255 {
            run = run + 1;
            if run == LZ4_OVERLONG_RUN {
                assert(is_run(block@, i + 1 - run, LZ4_OVERLONG_RUN as nat));
                return true;
            }
            proof {
                assert forall|start: int|
                    start + LZ4_OVERLONG_RUN <= i + 1 implies !#[trigger] is_run(
                    block@,
                    start,
                    LZ4_OVERLONG_RUN as nat,
                ) by {
                    if start + LZ4_OVERLONG_RUN == i + 1 && is_run(
                        block@,
                        start,
                        LZ4_OVERLONG_RUN as nat,
                    ) {
                        assert(block@[i - before - 1] != 255);
                    }
                }
            }
        } else {
            run = 0;
            proof {
                assert forall|start: int|
                    start + LZ4_OVERLONG_RUN <= i + 1 implies !#[trigger] is_run(
                    block@,
                    start,
                    LZ4_OVERLONG_RUN as nat,
                ) by {
                    if start + LZ4_OVERLONG_RUN == i + 1 && is_run(
                        block@,
                        start,
                        LZ4_OVERLONG_RUN as nat,
                    ) {
                        assert(block@[i as int] == 255);
                    }
                }
            }
        }
        i = i + 1;
    }
    proof {
        assert forall|start: int| !#[trigger] is_run(block@, start, LZ4_OVERLONG_RUN as nat) by {
            if is_run(block@, start, LZ4_OVERLONG_RUN as nat) {
                assert(start + LZ4_OVERLONG_RUN <= i);
            }
        }
    }
    false
}

/// What `lz4_flex::decompress` makes of a block when at most `size` bytes are expected.
pub uninterp spec fn lz4_unpacked(block: Seq<u8>, size: nat) -> Option<Seq<u8>>;

/// `lz4_flex::decompress` of a block: the result depends on the block and the expected size alone.
/// No length inside the block may be so large that, together with a position in the output, it
/// takes more than 32 bits: the decoder adds the two in a `usize`.
#[verifier::external_body]
fn lz4_decompress(block: &[u8], size: usize) -> (unpacked: Option<Vec<u8>>)
    requires
        size <= JSON_MODULE_MACHINE_MAX_GENERATED_LEN,
        !has_run(block@, LZ4_OVERLONG_RUN as nat),
    ensures
        unpacked is Some == (lz4_unpacked(block@, size as nat) is Some),
        unpacked matches Some(bytes) ==> lz4_unpacked(block@, size as nat) == Some(bytes@),
{
    lz4_flex::decompress(block, size).ok()
}

/// Whether `packed` is the length of some bytes and a block that unpacks to them.
pub open spec fn is_packed(packed: Seq<u8>, bytes: Seq<u8>) -> bool {
    &&& packed.len() >= 4
    &&& packed.take(4) == codec::le32(bytes.len())
    &&& !has_run(packed.skip(4), LZ4_OVERLONG_RUN as nat)
    &&& lz4_unpacked(packed.skip(4), bytes.len()) == Some(bytes)
}

/// `lz4_flex::compress_prepend_size` of a text: the length in four bytes and a block that
/// `lz4_flex::decompress` turns back into the text. Which block that is depends on the machine.
/// A text has no byte of 255, so the runs in the block come from lengths alone.
#[verifier::external_body]
fn lz4_compress_prepend_size(bytes: &[u8]) -> (packed: Vec<u8>)
    requires
        valid_utf8(bytes@),
        bytes@.len() <= JSON_MODULE_MACHINE_MAX_GENERATED_LEN,
    ensures
        is_packed(packed@, bytes@),
{
    lz4_flex::compress_prepend_size(bytes)
}

// ---------------------------------------------------------------------------------------------
// The payload

/// `RDXJSON2`.
pub open spec fn json_module_magic() -> Seq<u8> {
    seq![0x52u8, 0x44, 0x58, 0x4a, 0x53, 0x4f, 0x4e, 0x32]
}

pub fn json_module_machine_magic() -> (magic: [u8; 8])
    ensures
        magic@ == json_module_magic(),
{
    let magic: [u8; 8] = [0x52, 0x44, 0x58, 0x4a, 0x53, 0x4f, 0x4e, 0x32];
    assert(magic@ =~= json_module_magic());
    magic
}

pub open spec fn flag_byte(flag: bool) -> u8 {
    if flag {
        1
    } else {
        0
    }
}

fn byte_of_flag(flag: bool) -> (byte: u8)
    ensures
        byte == flag_byte(flag),
        byte <= 1,
        byte == 1 <==> flag,
{
    if flag {
        1
    } else {
        0
    }
}

/// Magic, the options, the codec, the length of the module, the digest of the source, the module
/// as the codec has it.
pub open spec fn encoded_payload(
    source_hash: Seq<u8>,
    options: JsonModuleMachineOptions,
    generated_len: nat,
    codec: u8,
    payload: Seq<u8>,
) -> Seq<u8> {
    json_module_magic() + (seq![
        flag_byte(options.named_exports),
        flag_byte(options.minify),
        stringify_tag(options.stringify),
        codec,
    ] + (codec::le32(generated_len) + (source_hash + payload)))
}

pub fn json_module_generated_len_within_machine_budget(generated_len: usize) -> (r: bool)
    ensures
        r == (generated_len <= JSON_MODULE_MACHINE_MAX_GENERATED_LEN),
{
    generated_len <= JSON_MODULE_MACHINE_MAX_GENERATED_LEN
}

/// Whether a payload of this length is smaller than its source.
pub fn json_module_machine_len_benefits_source(source_len: usize, payload_len: usize) -> (r: bool)
    ensures
        r == (payload_len + JSON_MODULE_MACHINE_HEADER_LEN < source_len),
{
    match JSON_MODULE_MACHINE_HEADER_LEN.checked_add(payload_len) {
        Some(len) => len < source_len,
        None => false,
    }
}

/// The codec and the bytes for a module, given its compressed form, if it was compressed.
pub open spec fn chosen_payload(generated: Seq<u8>, packed: Option<Seq<u8>>) -> (u8, Seq<u8>) {
    match packed {
        Some(compressed) => if compressed.len() < generated.len() {
            (JSON_MODULE_MACHINE_CODEC_LZ4, compressed)
        } else {
            (JSON_MODULE_MACHINE_CODEC_RAW, generated)
        },
        None => (JSON_MODULE_MACHINE_CODEC_RAW, generated),
    }
}

pub open spec fn opt_bytes(bytes: Option<Vec<u8>>) -> Option<Seq<u8>> {
    match bytes {
        Some(present) => Some(present@),
        None => None,
    }
}

/// The compressed form counts only where it is shorter.
pub fn choose_json_module_payload(generated_bytes: &[u8], packed: Option<Vec<u8>>) -> (r: (
    u8,
    Vec<u8>,
))
    ensures
        (r.0, r.1@) == chosen_payload(generated_bytes@, opt_bytes(packed)),
        r.1@.len() <= generated_bytes@.len(),
        r.0 == JSON_MODULE_MACHINE_CODEC_RAW || r.0 == JSON_MODULE_MACHINE_CODEC_LZ4,
        r.0 == JSON_MODULE_MACHINE_CODEC_LZ4 <==> packed is Some && packed->0@.len()
            < generated_bytes@.len(),
        r.0 == JSON_MODULE_MACHINE_CODEC_RAW ==> r.1@ == generated_bytes@,
        r.0 == JSON_MODULE_MACHINE_CODEC_LZ4 ==> r.1@ == packed->0@,
{
    match packed {
        Some(compressed) => if compressed.len() < generated_bytes.len() {
            (JSON_MODULE_MACHINE_CODEC_LZ4, compressed)
        } else {
            (JSON_MODULE_MACHINE_CODEC_RAW, copy_bytes(generated_bytes))
        },
        None => (JSON_MODULE_MACHINE_CODEC_RAW, copy_bytes(generated_bytes)),
    }
}

/// The compressed form of a module that is large enough to be compressed.
pub fn json_module_packed_form(generated_esm: &str) -> (packed: Option<Vec<u8>>)
    requires
        encode_utf8(generated_esm@).len() <= JSON_MODULE_MACHINE_MAX_GENERATED_LEN,
    ensures
        packed is Some == (encode_utf8(generated_esm@).len() >= JSON_MODULE_MACHINE_LZ4_THRESHOLD),
        packed matches Some(bytes) ==> is_packed(bytes@, encode_utf8(generated_esm@)),
{
    let bytes: &[u8] = generated_esm.as_bytes();
    if bytes.len() < JSON_MODULE_MACHINE_LZ4_THRESHOLD {
        return None;
    }
    proof {
        encode_utf8_valid_utf8(generated_esm@);
    }
    Some(lz4_compress_prepend_size(bytes))
}

/// Whether a codec and its bytes stand for a module.
pub open spec fn stands_for(codec: u8, payload: Seq<u8>, generated: Seq<u8>) -> bool {
    ||| codec == JSON_MODULE_MACHINE_CODEC_RAW && payload == generated
    ||| codec == JSON_MODULE_MACHINE_CODEC_LZ4 && payload.len() < generated.len() && is_packed(
        payload,
        generated,
    )
}

pub fn encode_json_module_payload_bytes(generated_esm: &str) -> (r: (u8, Vec<u8>))
    requires
        encode_utf8(generated_esm@).len() <= JSON_MODULE_MACHINE_MAX_GENERATED_LEN,
    ensures
        stands_for(r.0, r.1@, encode_utf8(generated_esm@)),
        encode_utf8(generated_esm@).len() < JSON_MODULE_MACHINE_LZ4_THRESHOLD ==> r.0
            == JSON_MODULE_MACHINE_CODEC_RAW,
{
    let packed: Option<Vec<u8>> = json_module_packed_form(generated_esm);
    choose_json_module_payload(generated_esm.as_bytes(), packed)
}

pub fn encode_json_module_machine_payload_from_encoded_payload(
    source_hash: &[u8; 32],
    options: &JsonModuleMachineOptions,
    generated_len: usize,
    codec: u8,
    payload: &[u8],
) -> (r: Option<Vec<u8>>)
    ensures
        r is Some == (generated_len <= JSON_MODULE_MACHINE_MAX_GENERATED_LEN),
        r matches Some(bytes) ==> bytes@ == encoded_payload(
            source_hash@,
            *options,
            generated_len as nat,
            codec,
            payload@,
        ),
{
    if !json_module_generated_len_within_machine_budget(generated_len) {
        return None;
    }
    let magic: [u8; 8] = json_module_machine_magic();
    let mut output: Vec<u8> = Vec::with_capacity(
        payload.len().saturating_add(JSON_MODULE_MACHINE_HEADER_LEN),
    );
    write_bytes(&mut output, magic.as_slice());
    output.push(byte_of_flag(options.named_exports));
    output.push(byte_of_flag(options.minify));
    output.push(options.stringify.cache_tag());
    output.push(codec);
    write_u32(&mut output, generated_len as u32);
    write_bytes(&mut output, source_hash.as_slice());
    write_bytes(&mut output, payload);
    assert(output@ =~= encoded_payload(
        source_hash@,
        *options,
        generated_len as nat,
        codec,
        payload@,
    ));
    Some(output)
}

/// The text that unpacked bytes stand for, where there are as many as the header says.
pub open spec fn unpacked_text(bytes: Seq<u8>, generated_len: nat) -> Option<Seq<char>> {
    if bytes.len() == generated_len && valid_utf8(bytes) {
        Some(decode_utf8(bytes))
    } else {
        None
    }
}

/// The text that the bytes behind a header stand for.
pub open spec fn decoded_module(codec: u8, generated_len: nat, payload: Seq<u8>) -> Option<
    Seq<char>,
> {
    if generated_len > JSON_MODULE_MACHINE_MAX_GENERATED_LEN {
        None
    } else if codec == JSON_MODULE_MACHINE_CODEC_RAW {
        if payload.len() == generated_len && valid_utf8(payload) {
            Some(decode_utf8(payload))
        } else {
            None
        }
    } else if codec == JSON_MODULE_MACHINE_CODEC_LZ4 {
        if payload.len() < 4 || codec::le32_value(payload) != generated_len || has_run(
            payload.skip(4),
            LZ4_OVERLONG_RUN as nat,
        ) {
            None
        } else {
            match lz4_unpacked(payload.skip(4), generated_len) {
                Some(bytes) => unpacked_text(bytes, generated_len),
                None => None,
            }
        }
    } else {
        None
    }
}

/// Whether a header names these options and this source.
pub open spec fn header_matches(
    bytes: Seq<u8>,
    source_hash: Seq<u8>,
    options: JsonModuleMachineOptions,
) -> bool {
    &&& bytes.len() >= JSON_MODULE_MACHINE_HEADER_LEN
    &&& json_module_magic().is_prefix_of(bytes)
    &&& bytes[8] == flag_byte(options.named_exports)
    &&& bytes[9] == flag_byte(options.minify)
    &&& bytes[10] == stringify_tag(options.stringify)
    &&& bytes.subrange(16, 48) == source_hash
}

pub open spec fn decoded_payload(
    bytes: Seq<u8>,
    source_hash: Seq<u8>,
    options: JsonModuleMachineOptions,
) -> Option<Seq<char>> {
    if header_matches(bytes, source_hash, options) {
        decoded_module(bytes[11], codec::le32_value(bytes.skip(12)), bytes.skip(48))
    } else {
        None
    }
}

fn hash_matches(bytes: &[u8], expected: &[u8; 32]) -> (r: bool)
    requires
        bytes@.len() >= 48,
    ensures
        r == (bytes@.subrange(16, 48) == expected@),
{
    let mut i: usize = 0;
    while i < 32
        invariant
            i <= 32,
            bytes@.len() >= 48,
            expected@.len() == 32,
            forall|j: int| 0 <= j < i ==> #[trigger] expected@[j] == bytes@[16 + j],
        decreases 32 - i,
    {
        if bytes[16 + i] != expected[i] {
            assert(bytes@.subrange(16, 48)[i as int] == bytes@[16 + i]);
            return false;
        }
        i = i + 1;
    }
    assert(bytes@.subrange(16, 48) =~= expected@);
    true
}

/// The codec and the length of the module in a header.
pub fn json_module_machine_payload_header(
    machine_bytes: &[u8],
    source_hash: &[u8; 32],
    options: &JsonModuleMachineOptions,
) -> (r: Option<(u8, usize)>)
    ensures
        r is Some == header_matches(machine_bytes@, source_hash@, *options),
        r is Some ==> {
            &&& machine_bytes@.len() >= JSON_MODULE_MACHINE_HEADER_LEN
            &&& machine_bytes@[8] <= 1 && (machine_bytes@[8] == 1 <==> options.named_exports)
            &&& machine_bytes@[9] <= 1 && (machine_bytes@[9] == 1 <==> options.minify)
            &&& machine_bytes@.subrange(16, 48) == source_hash@
        },
        r matches Some((codec, generated_len)) ==> codec == machine_bytes@[11] && generated_len
            == codec::le32_value(machine_bytes@.skip(12)),
{
    if machine_bytes.len() < JSON_MODULE_MACHINE_HEADER_LEN {
        return None;
    }
    let magic: [u8; 8] = json_module_machine_magic();
    if !starts_with_bytes(machine_bytes, magic.as_slice()) {
        return None;
    }
    if machine_bytes[8] != byte_of_flag(options.named_exports) || machine_bytes[9] != byte_of_flag(
        options.minify,
    ) || machine_bytes[10] != options.stringify.cache_tag() {
        return None;
    }
    if !hash_matches(machine_bytes, source_hash) {
        return None;
    }
    let mut cursor: usize = 12;
    let generated_len: u32 = codec::read_u32(machine_bytes, &mut cursor)?;
    Some((machine_bytes[11], generated_len as usize))
}

/// Whether the first four bytes of a compressed payload name this length.
pub fn json_module_lz4_payload_size_prefix_matches_header(payload: &[u8], generated_len: usize) -> (r:
    bool)
    ensures
        r == (payload@.len() >= 4 && codec::le32_value(payload@) == generated_len),
{
    let mut cursor: usize = 0;
    assert(payload@.skip(0) =~= payload@);
    match codec::read_u32(payload, &mut cursor) {
        Some(prefix) => prefix as usize == generated_len,
        None => false,
    }
}

pub fn json_module_lz4_payload_size_matches_header(payload: &[u8], generated_len: usize) -> (r: bool)
    ensures
        r == (generated_len <= JSON_MODULE_MACHINE_MAX_GENERATED_LEN && payload@.len() >= 4
            && codec::le32_value(payload@) == generated_len),
{
    if !json_module_generated_len_within_machine_budget(generated_len) {
        return false;
    }
    json_module_lz4_payload_size_prefix_matches_header(payload, generated_len)
}

/// A payload whose shape agrees with its header.
#[derive(Debug, Clone, PartialEq, Eq)]
pub enum ValidatedJsonModuleMachinePayload {
    Raw(Vec<u8>),
    Lz4 { compressed: Vec<u8>, generated_len: usize },
}

/// Whether the bytes behind a header can be what it says.
pub open spec fn shape_matches(codec: u8, payload: Seq<u8>, generated_len: nat) -> bool {
    &&& generated_len <= JSON_MODULE_MACHINE_MAX_GENERATED_LEN
    &&& {
        ||| codec == JSON_MODULE_MACHINE_CODEC_RAW && payload.len() == generated_len
        ||| codec == JSON_MODULE_MACHINE_CODEC_LZ4 && payload.len() >= 4 && codec::le32_value(
            payload,
        ) == generated_len
    }
}

pub fn json_module_validated_payload(codec: u8, payload: &[u8], generated_len: usize) -> (r: Option<
    ValidatedJsonModuleMachinePayload,
>)
    ensures
        r is Some == shape_matches(codec, payload@, generated_len as nat),
        r matches Some(ValidatedJsonModuleMachinePayload::Raw(bytes)) ==> codec
            == JSON_MODULE_MACHINE_CODEC_RAW && bytes@ == payload@,
        r matches Some(ValidatedJsonModuleMachinePayload::Lz4 { compressed, generated_len: len })
            ==> codec == JSON_MODULE_MACHINE_CODEC_LZ4 && compressed@ == payload@ && len
            == generated_len,
{
    if !json_module_generated_len_within_machine_budget(generated_len) {
        return None;
    }
    if codec == JSON_MODULE_MACHINE_CODEC_RAW && payload.len() == generated_len {
        return Some(ValidatedJsonModuleMachinePayload::Raw(copy_bytes(payload)));
    }
    if codec == JSON_MODULE_MACHINE_CODEC_LZ4
        && json_module_lz4_payload_size_prefix_matches_header(payload, generated_len) {
        return Some(
            ValidatedJsonModuleMachinePayload::Lz4 {
                compressed: copy_bytes(payload),
                generated_len,
            },
        );
    }
    None
}

pub fn json_module_payload_shape_matches_header(
    codec: u8,
    payload: &[u8],
    generated_len: usize,
) -> (r: bool)
    ensures
        r == shape_matches(codec, payload@, generated_len as nat),
        r ==> generated_len <= JSON_MODULE_MACHINE_MAX_GENERATED_LEN && (codec
            == JSON_MODULE_MACHINE_CODEC_RAW || codec == JSON_MODULE_MACHINE_CODEC_LZ4),
        codec == JSON_MODULE_MACHINE_CODEC_RAW && generated_len
            <= JSON_MODULE_MACHINE_MAX_GENERATED_LEN ==> r == (payload@.len() == generated_len),
        codec == JSON_MODULE_MACHINE_CODEC_LZ4 && generated_len
            <= JSON_MODULE_MACHINE_MAX_GENERATED_LEN ==> r == (payload@.len() >= 4
            && codec::le32_value(payload@) == generated_len),
{
    json_module_validated_payload(codec, payload, generated_len).is_some()
}

/// The module that unpacked bytes stand for.
pub fn unpacked_json_module(unpacked: &[u8], generated_len: usize) -> (r: Option<String>)
    ensures
        codec::opt_text(r) == unpacked_text(unpacked@, generated_len as nat),
        r is Some == (unpacked@.len() == generated_len && valid_utf8(unpacked@)),
        r matches Some(generated) ==> encode_utf8(generated@) == unpacked@,
{
    proof {
        if valid_utf8(unpacked@) {
            decode_utf8_encode_utf8(unpacked@);
        }
    }
    if unpacked.len() != generated_len {
        return None;
    }
    utf8_text(unpacked)
}

pub fn decode_lz4_json_module_payload(compressed: &[u8], generated_len: usize) -> (r: Option<String>)
    requires
        compressed@.len() >= 4,
        codec::le32_value(compressed@) == generated_len,
        generated_len <= JSON_MODULE_MACHINE_MAX_GENERATED_LEN,
    ensures
        codec::opt_text(r) == decoded_module(
            JSON_MODULE_MACHINE_CODEC_LZ4,
            generated_len as nat,
            compressed@,
        ),
{
    let end: usize = compressed.len();
    let block: &[u8] = &compressed[4..end];
    assert(block@ =~= compressed@.skip(4));
    if has_overlong_run(block) {
        return None;
    }
    let unpacked: Vec<u8> = lz4_decompress(block, generated_len)?;
    unpacked_json_module(unpacked.as_slice(), generated_len)
}

pub fn decode_json_module_machine_payload_with_owned_bytes(
    machine_bytes: Vec<u8>,
    source_hash: &[u8; 32],
    options: &JsonModuleMachineOptions,
) -> (r: Option<String>)
    ensures
        codec::opt_text(r) == decoded_payload(machine_bytes@, source_hash@, *options),
{
    let (codec, generated_len): (u8, usize) = json_module_machine_payload_header(
        machine_bytes.as_slice(),
        source_hash,
        options,
    )?;
    let payload: Vec<u8> = copy_range(
        machine_bytes.as_slice(),
        JSON_MODULE_MACHINE_HEADER_LEN,
        machine_bytes.len(),
    );
    assert(payload@ =~= machine_bytes@.skip(48));
    if codec == JSON_MODULE_MACHINE_CODEC_RAW {
        if !json_module_generated_len_within_machine_budget(generated_len) {
            return None;
        }
        if payload.len() != generated_len {
            return None;
        }
        return utf8_text(payload.as_slice());
    }
    if codec != JSON_MODULE_MACHINE_CODEC_LZ4 {
        return None;
    }
    if !json_module_lz4_payload_size_matches_header(payload.as_slice(), generated_len) {
        return None;
    }
    decode_lz4_json_module_payload(payload.as_slice(), generated_len)
}

pub fn decode_json_module_machine_payload_with_source_hash(
    machine_bytes: &[u8],
    source_hash: &[u8; 32],
    options: &JsonModuleMachineOptions,
) -> (r: Option<String>)
    ensures
        codec::opt_text(r) == decoded_payload(machine_bytes@, source_hash@, *options),
{
    let (codec, generated_len): (u8, usize) = json_module_machine_payload_header(
        machine_bytes,
        source_hash,
        options,
    )?;
    let payload: Vec<u8> = copy_range(
        machine_bytes,
        JSON_MODULE_MACHINE_HEADER_LEN,
        machine_bytes.len(),
    );
    assert(payload@ =~= machine_bytes@.skip(48));
    match json_module_validated_payload(codec, payload.as_slice(), generated_len)? {
        ValidatedJsonModuleMachinePayload::Raw(bytes) => utf8_text(bytes.as_slice()),
        ValidatedJsonModuleMachinePayload::Lz4 { compressed, generated_len: len } => {
            decode_lz4_json_module_payload(compressed.as_slice(), len)
        },
    }
}

pub fn decode_json_module_machine_payload(
    machine_bytes: &[u8],
    source_bytes: &[u8],
    options: &JsonModuleMachineOptions,
) -> (r: Option<String>)
    ensures
        codec::opt_text(r) == decoded_payload(
            machine_bytes@,
            digest::blake3_digest(source_bytes@),
            *options,
        ),
{
    let source_hash: [u8; 32] = blake3_hash(source_bytes);
    decode_json_module_machine_payload_with_source_hash(machine_bytes, &source_hash, options)
}

/// Decoding gives back the module that was encoded, for the same source and the same options.
pub proof fn lemma_payload_round_trip(
    source_hash: Seq<u8>,
    options: JsonModuleMachineOptions,
    generated: Seq<char>,
    codec: u8,
    payload: Seq<u8>,
)
    requires
        source_hash.len() == 32,
        encode_utf8(generated).len() <= JSON_MODULE_MACHINE_MAX_GENERATED_LEN,
        stands_for(codec, payload, encode_utf8(generated)),
    ensures
        decoded_payload(
            encoded_payload(source_hash, options, encode_utf8(generated).len(), codec, payload),
            source_hash,
            options,
        ) == Some(generated),
{
    let len = encode_utf8(generated).len();
    let bytes = encoded_payload(source_hash, options, len, codec, payload);
    assert(bytes.subrange(0, 8) =~= json_module_magic());
    assert(bytes.subrange(16, 48) =~= source_hash);
    assert(bytes.skip(48) =~= payload);
    assert(bytes.skip(12) =~= codec::le32(len) + (source_hash + payload));
    codec::lemma_u32_round_trip(len, source_hash + payload);
    encode_utf8_valid_utf8(generated);
    encode_utf8_decode_utf8(generated);
    if codec == JSON_MODULE_MACHINE_CODEC_LZ4 {
        assert(payload =~= codec::le32(len) + payload.skip(4)) by {
            assert forall|i: int| 0 <= i < 4 implies payload[i] == codec::le32(len)[i] by {
                assert(payload.take(4)[i] == payload[i]);
            }
        }
        codec::lemma_u32_round_trip(len, payload.skip(4));
    }
}

/// A payload for one source is none for a source with another digest, nor for other options.
pub proof fn lemma_payload_of_another_source_or_options(
    source_hash: Seq<u8>,
    options: JsonModuleMachineOptions,
    generated_len: nat,
    codec: u8,
    payload: Seq<u8>,
    other_hash: Seq<u8>,
    other_options: JsonModuleMachineOptions,
)
    requires
        source_hash.len() == 32,
        other_hash != source_hash || other_options != options,
    ensures
        decoded_payload(
            encoded_payload(source_hash, options, generated_len, codec, payload),
            other_hash,
            other_options,
        ) is None,
{
    let bytes = encoded_payload(source_hash, options, generated_len, codec, payload);
    assert(bytes.subrange(16, 48) =~= source_hash);
    assert(bytes[8] == flag_byte(options.named_exports));
    assert(bytes[9] == flag_byte(options.minify));
    assert(bytes[10] == stringify_tag(options.stringify));
}

/// The payload of a module for a source with this digest.
pub fn encode_json_module_machine_payload_with_source_hash(
    source_hash: &[u8; 32],
    options: &JsonModuleMachineOptions,
    generated_esm: &str,
) -> (r: Option<Vec<u8>>)
    ensures
        r is Some == (encode_utf8(generated_esm@).len() <= JSON_MODULE_MACHINE_MAX_GENERATED_LEN),
        r matches Some(bytes) ==> decoded_payload(bytes@, source_hash@, *options) == Some(
            generated_esm@,
        ),
        r is Some && encode_utf8(generated_esm@).len() < JSON_MODULE_MACHINE_LZ4_THRESHOLD ==> (
        r->0)@ == encoded_payload(
            source_hash@,
            *options,
            encode_utf8(generated_esm@).len(),
            JSON_MODULE_MACHINE_CODEC_RAW,
            encode_utf8(generated_esm@),
        ),
{
    let generated_len: usize = byte_len(generated_esm);
    if !json_module_generated_len_within_machine_budget(generated_len) {
        return None;
    }
    let (codec, payload): (u8, Vec<u8>) = encode_json_module_payload_bytes(generated_esm);
    proof {
        lemma_payload_round_trip(source_hash@, *options, generated_esm@, codec, payload@);
    }
    encode_json_module_machine_payload_from_encoded_payload(
        source_hash,
        options,
        generated_len,
        codec,
        payload.as_slice(),
    )
}

pub fn encode_json_module_machine_payload(
    source_bytes: &[u8],
    options: &JsonModuleMachineOptions,
    generated_esm: &str,
) -> (r: Option<Vec<u8>>)
    ensures
        r is Some == (encode_utf8(generated_esm@).len() <= JSON_MODULE_MACHINE_MAX_GENERATED_LEN),
        r matches Some(bytes) ==> decoded_payload(
            bytes@,
            digest::blake3_digest(source_bytes@),
            *options,
        ) == Some(generated_esm@),
{
    let source_hash: [u8; 32] = blake3_hash(source_bytes);
    encode_json_module_machine_payload_with_source_hash(&source_hash, options, generated_esm)
}

// ---------------------------------------------------------------------------------------------
// The cache

/// What a look into the cache of JSON modules came to.
#[derive(Debug, Clone, PartialEq, Eq)]
pub enum JsonModuleMachineCacheRead {
    Hit(String),
    Repair { source_hash: [u8; 32] },
    Miss,
}

pub ghost enum JsonModuleReadModel {
    Hit(Seq<char>),
    Repair(Seq<u8>),
    Miss,
}

impl View for JsonModuleMachineCacheRead {
    type V = JsonModuleReadModel;

    open spec fn view(&self) -> JsonModuleReadModel {
        match self {
            JsonModuleMachineCacheRead::Hit(code) => JsonModuleReadModel::Hit(code@),
            JsonModuleMachineCacheRead::Repair { source_hash } => JsonModuleReadModel::Repair(
                source_hash@,
            ),
            JsonModuleMachineCacheRead::Miss => JsonModuleReadModel::Miss,
        }
    }
}

pub open spec fn cache_read(
    looked_up: DxMachineCacheStatus<machine_cache::HitModel>,
    options: JsonModuleMachineOptions,
) -> JsonModuleReadModel {
    match looked_up {
        DxMachineCacheStatus::Hit(hit) => match decoded_payload(
            hit.machine_bytes,
            hit.source_hash,
            options,
        ) {
            Some(code) => JsonModuleReadModel::Hit(code),
            None => JsonModuleReadModel::Repair(hit.source_hash),
        },
        _ => JsonModuleReadModel::Miss,
    }
}

pub open spec fn looked_up(
    target: JsonModuleMachineCacheTarget,
    source_bytes: Seq<u8>,
    files: MachineCacheFiles,
) -> DxMachineCacheStatus<machine_cache::HitModel> {
    machine_cache::validated_read(
        target.config.enabled,
        target.paths.machine@,
        target.source_path@,
        source_bytes,
        files.metadata@,
        machine_cache::parsed_model(files.parsed),
        files.machine@,
        target.config.style,
    )
}

pub fn read_json_module_machine_cache_for_repair(
    cache_target: &JsonModuleMachineCacheTarget,
    source_bytes: &[u8],
    options: &JsonModuleMachineOptions,
    files: MachineCacheFiles,
) -> (r: JsonModuleMachineCacheRead)
    ensures
        r@ == cache_read(looked_up(*cache_target, source_bytes@, files), *options),
{
    match cache_target.config.read_validated_machine_with_source_hash(
        &cache_target.paths,
        cache_target.source_path.as_str(),
        source_bytes,
        files,
    ) {
        DxMachineCacheStatus::Hit(hit) => {
            let source_hash: [u8; 32] = hit.source_hash;
            match decode_json_module_machine_payload_with_owned_bytes(
                hit.machine_bytes,
                &source_hash,
                options,
            ) {
                Some(code) => JsonModuleMachineCacheRead::Hit(code),
                None => JsonModuleMachineCacheRead::Repair { source_hash },
            }
        },
        _ => JsonModuleMachineCacheRead::Miss,
    }
}

pub fn read_json_module_machine_cache(
    cache_target: &JsonModuleMachineCacheTarget,
    source_bytes: &[u8],
    options: &JsonModuleMachineOptions,
    files: MachineCacheFiles,
) -> (r: Option<String>)
    ensures
        codec::opt_text(r) == match cache_read(
            looked_up(*cache_target, source_bytes@, files),
            *options,
        ) {
            JsonModuleReadModel::Hit(code) => Some(code),
            _ => None,
        },
{
    match read_json_module_machine_cache_for_repair(cache_target, source_bytes, options, files) {
        JsonModuleMachineCacheRead::Hit(code) => Some(code),
        _ => None,
    }
}

pub fn hash_json_module_source_bytes(source_bytes: &[u8]) -> (hash: [u8; 32])
    ensures
        hash@ == digest::blake3_digest(source_bytes@),
{
    blake3_hash(source_bytes)
}

/// What to write for a module, given its compressed form, if it was compressed.
pub fn write_packed_json_module(
    cache_target: &JsonModuleMachineCacheTarget,
    source_bytes: &[u8],
    options: &JsonModuleMachineOptions,
    generated_esm: &str,
    packed: Option<Vec<u8>>,
    source_hash: Option<[u8; 32]>,
) -> (r: Option<MachineArtifactWrite>)
    ensures
        ({
            let generated = encode_utf8(generated_esm@);
            let (codec, payload) = chosen_payload(generated, opt_bytes(packed));
            let hash = digest::effective_hash(source_hash, source_bytes@);
            let bytes = encoded_payload(hash, *options, generated.len(), codec, payload);
            &&& r is Some == {
                &&& generated.len() <= JSON_MODULE_MACHINE_MAX_GENERATED_LEN
                &&& bytes.len() < source_bytes@.len()
                &&& cache_target.config.enabled
            }
            &&& r matches Some(write) ==> {
                &&& write.machine.path@ == cache_target.paths.machine@
                &&& write.machine.bytes@ == bytes
                &&& write.metadata.path@ == cache_target.paths.metadata@
                &&& write.metadata.bytes@ == machine_write::metadata_bytes(
                    cache_target.source_path@,
                    source_bytes@.len(),
                    hash,
                    cache_target.paths.machine@,
                    bytes,
                    cache_target.config.style,
                )
            }
        }),
{
    let generated_len: usize = byte_len(generated_esm);
    if !json_module_generated_len_within_machine_budget(generated_len) {
        return None;
    }
    let (codec, payload): (u8, Vec<u8>) = choose_json_module_payload(
        generated_esm.as_bytes(),
        packed,
    );
    if !json_module_machine_len_benefits_source(source_bytes.len(), payload.len()) {
        return None;
    }
    let hash: [u8; 32] = match source_hash {
        Some(known) => known,
        None => hash_json_module_source_bytes(source_bytes),
    };
    let machine_bytes: Vec<u8> = encode_json_module_machine_payload_from_encoded_payload(
        &hash,
        options,
        generated_len,
        codec,
        payload.as_slice(),
    )?;
    cache_target.config.write_machine_artifact_with_source_hash(
        &cache_target.paths,
        cache_target.source_path.as_str(),
        source_bytes.len(),
        &hash,
        machine_bytes.as_slice(),
    )
}

/// What to write for a module. How far it shrinks depends on the compressor; what is written
/// stands for the module whatever the compressor made of it.
#[verifier::spinoff_prover]
#[verifier::rlimit(60)]
pub fn write_json_module_machine_cache_with_source_hash(
    cache_target: &JsonModuleMachineCacheTarget,
    source_bytes: &[u8],
    options: &JsonModuleMachineOptions,
    generated_esm: &str,
    source_hash: Option<[u8; 32]>,
) -> (r: Option<MachineArtifactWrite>)
    ensures
        ({
            let generated = encode_utf8(generated_esm@);
            let hash = digest::effective_hash(source_hash, source_bytes@);
            &&& generated.len() < JSON_MODULE_MACHINE_LZ4_THRESHOLD ==> r is Some == (
            generated.len() + JSON_MODULE_MACHINE_HEADER_LEN < source_bytes@.len()
                && cache_target.config.enabled)
            &&& generated.len() <= JSON_MODULE_MACHINE_MAX_GENERATED_LEN && generated.len()
                + JSON_MODULE_MACHINE_HEADER_LEN < source_bytes@.len()
                && cache_target.config.enabled ==> r is Some
            &&& r matches Some(write) ==> {
                &&& cache_target.config.enabled
                &&& generated.len() <= JSON_MODULE_MACHINE_MAX_GENERATED_LEN
                &&& machine_cache::size_benefits(source_bytes@.len(), write.machine.bytes@.len())
                &&& write.machine.path@ == cache_target.paths.machine@
                &&& decoded_payload(write.machine.bytes@, hash, *options) == Some(generated_esm@)
                &&& write.metadata.path@ == cache_target.paths.metadata@
                &&& write.metadata.bytes@ == machine_write::metadata_bytes(
                    cache_target.source_path@,
                    source_bytes@.len(),
                    hash,
                    cache_target.paths.machine@,
                    write.machine.bytes@,
                    cache_target.config.style,
                )
            }
        }),
{
    if !json_module_generated_len_within_machine_budget(byte_len(generated_esm)) {
        return None;
    }
    let packed: Option<Vec<u8>> = json_module_packed_form(generated_esm);
    proof {
        let generated = encode_utf8(generated_esm@);
        let (codec, payload) = chosen_payload(generated, opt_bytes(packed));
        lemma_payload_round_trip(
            digest::effective_hash(source_hash, source_bytes@),
            *options,
            generated_esm@,
            codec,
            payload,
        );
    }
    write_packed_json_module(
        cache_target,
        source_bytes,
        options,
        generated_esm,
        packed,
        source_hash,
    )
}

/// What is written for a module is read back as that module, for the same source and options, as
/// long as the files are within the sizes that a reader accepts.
pub proof fn lemma_written_module_reads_back(
    machine_path: Seq<char>,
    source_path: Seq<char>,
    source_bytes: Seq<u8>,
    options: JsonModuleMachineOptions,
    machine_bytes: Seq<u8>,
    generated: Seq<char>,
    parsed: Option<crate::metadata::DocumentModel>,
    style: PathStyle,
)
    requires
        decoded_payload(machine_bytes, digest::blake3_digest(source_bytes), options) == Some(
            generated,
        ),
        machine_cache::size_benefits(source_bytes.len(), machine_bytes.len()),
        source_bytes.len() <= u64::MAX,
        machine_bytes.len() <= crate::metadata::DX_MACHINE_MAX_BYTES,
        machine_write::metadata_bytes(
            source_path,
            source_bytes.len(),
            digest::blake3_digest(source_bytes),
            machine_path,
            machine_bytes,
            style,
        ).len() <= machine_cache::DX_MACHINE_METADATA_MAX_BYTES,
    ensures
        cache_read(
            machine_cache::validated_read(
                true,
                machine_path,
                source_path,
                source_bytes,
                machine_cache::FileModel::Bytes(
                    machine_write::metadata_bytes(
                        source_path,
                        source_bytes.len(),
                        digest::blake3_digest(source_bytes),
                        machine_path,
                        machine_bytes,
                        style,
                    ),
                ),
                parsed,
                machine_cache::FileModel::Bytes(machine_bytes),
                style,
            ),
            options,
        ) == JsonModuleReadModel::Hit(generated),
{
    machine_write::lemma_write_then_read_hits(
        machine_path,
        source_path,
        source_bytes,
        machine_bytes,
        parsed,
        style,
    );
}

/// A payload that is read for a source and options is one that is written for them: its header names
/// both and the length of the module, and behind it stands the module itself or its compressed form.
pub proof fn lemma_decoded_payload_is_written(
    bytes: Seq<u8>,
    source_hash: Seq<u8>,
    options: JsonModuleMachineOptions,
)
    requires
        source_hash.len() == 32,
    ensures
        decoded_payload(bytes, source_hash, options) matches Some(module) ==> {
            let written = encode_utf8(module);
            &&& bytes == encoded_payload(
                source_hash,
                options,
                written.len(),
                bytes[11],
                bytes.skip(48),
            )
            &&& {
                ||| bytes[11] == JSON_MODULE_MACHINE_CODEC_RAW && bytes.skip(48) == written
                ||| bytes[11] == JSON_MODULE_MACHINE_CODEC_LZ4 && lz4_unpacked(
                    bytes.skip(52),
                    written.len(),
                ) == Some(written)
            }
        },
{
    if let Some(module) = decoded_payload(bytes, source_hash, options) {
        let written = encode_utf8(module);
        let payload = bytes.skip(48);
        let len = codec::le32_value(bytes.skip(12));
        codec::lemma_u32_read_is_written(bytes.skip(12));
        assert(codec::u32_at(bytes.skip(12)) == Some((len, bytes.skip(12).skip(4))));
        if bytes[11] == JSON_MODULE_MACHINE_CODEC_RAW {
            decode_utf8_encode_utf8(payload);
        } else {
            let unpacked = lz4_unpacked(payload.skip(4), len)->0;
            decode_utf8_encode_utf8(unpacked);
            assert(payload.skip(4) =~= bytes.skip(52));
        }
        assert(written.len() == len);
        let flags = seq![
            flag_byte(options.named_exports),
            flag_byte(options.minify),
            stringify_tag(options.stringify),
            bytes[11],
        ];
        assert(flags =~= bytes.subrange(8, 12));
        assert(json_module_magic() =~= bytes.subrange(0, 8));
        assert(bytes.skip(12) =~= codec::le32(len) + bytes.skip(16));
        assert(bytes.skip(16) =~= source_hash + payload) by {
            assert(bytes.subrange(16, 48) + payload =~= bytes.skip(16));
        }
        assert(bytes =~= bytes.subrange(0, 8) + (bytes.subrange(8, 12) + bytes.skip(12)));
    }
}

/// The name of the options tells every option apart.
pub proof fn lemma_namespaces_differ(
    left: JsonModuleMachineOptions,
    right: JsonModuleMachineOptions,
)
    ensures
        namespace_of(left) == namespace_of(right) ==> left == right,
{
    lemma_namespace(left);
    lemma_namespace(right);
}

proof fn lemma_namespace(options: JsonModuleMachineOptions)
    ensures
        namespace_of(options).len() > 50,
        namespace_of(options)[29] == if options.named_exports {
            '1'
        } else {
            '0'
        },
        namespace_of(options)[38] == if options.minify {
            '1'
        } else {
            '0'
        },
        namespace_of(options)[50] == match options.stringify {
            ViteJsonPluginStringify::Auto => 'a',
            ViteJsonPluginStringify::True => 't',
            ViteJsonPluginStringify::False => 'f',
        },
{
    reveal_strlit("json_module_v2_named_exports_1_minify_1_stringify_auto");
    reveal_strlit("json_module_v2_named_exports_1_minify_1_stringify_true");
    reveal_strlit("json_module_v2_named_exports_1_minify_1_stringify_false");
    reveal_strlit("json_module_v2_named_exports_1_minify_0_stringify_auto");
    reveal_strlit("json_module_v2_named_exports_1_minify_0_stringify_true");
    reveal_strlit("json_module_v2_named_exports_1_minify_0_stringify_false");
    reveal_strlit("json_module_v2_named_exports_0_minify_1_stringify_auto");
    reveal_strlit("json_module_v2_named_exports_0_minify_1_stringify_true");
    reveal_strlit("json_module_v2_named_exports_0_minify_1_stringify_false");
    reveal_strlit("json_module_v2_named_exports_0_minify_0_stringify_auto");
    reveal_strlit("json_module_v2_named_exports_0_minify_0_stringify_true");
    reveal_strlit("json_module_v2_named_exports_0_minify_0_stringify_false");
}

} // verus!
