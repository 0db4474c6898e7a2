//! The tsconfig payload: what is kept of a tsconfig file, its bytes and its JSON.
//!
//! The parts of a tsconfig are modelled as a list of fields, each of one kind. The byte format
//! and the JSON text are both given field by field.

use vstd::prelude::*;
use vstd::utf8::*;
use crate::codec;
use crate::codec::{encoded_optional_string_len, encoded_string_len, encoded_strings_len,
    read_counted_strings, read_optional_string, read_string, read_u32, skip_optional_string,
    skip_string, starts_with_bytes, validated_counted_strings_end, write_bytes,
    write_optional_string, write_string, write_strings, write_u32, NONE_LEN};
use crate::json_text;
use crate::json_text::json_string_literal;
use crate::text;
use crate::text::{byte_len, text_with_room};
use crate::tsconfig_reading;

verus! {

pub const DX_TSCONFIG_MACHINE_SCHEMA: &'static str = "rolldown.dx.tsconfig.v3";

pub const DX_TSCONFIG_MACHINE_HEADER_LEN: usize = 12;

pub const DX_TSCONFIG_SOURCE_HASH_LEN: usize = 32;

/// One entry of `paths`.
#[derive(Debug, Clone, PartialEq, Eq)]
pub struct DxTsconfigPathMappingPayload {
    pub key: String,
    pub values: Vec<String>,
}

#[derive(Debug, Clone, PartialEq, Eq)]
pub struct DxTsconfigCompilerOptionsPayload {
    pub base_url: Option<String>,
    pub paths: Option<Vec<DxTsconfigPathMappingPayload>>,
    pub experimental_decorators: Option<bool>,
    pub emit_decorator_metadata: Option<bool>,
    pub use_define_for_class_fields: Option<bool>,
    pub rewrite_relative_import_extensions: Option<bool>,
    pub jsx: Option<String>,
    pub jsx_factory: Option<String>,
    pub jsx_fragment_factory: Option<String>,
    pub jsx_import_source: Option<String>,
    pub verbatim_module_syntax: Option<bool>,
    pub preserve_value_imports: Option<bool>,
    pub imports_not_used_as_values: Option<String>,
    pub target: Option<String>,
    pub module: Option<String>,
    pub allow_js: Option<bool>,
    pub root_dirs: Option<Vec<String>>,
}

#[derive(Debug, Clone, PartialEq, Eq)]
pub struct DxTsconfigMachinePayload {
    pub schema: &'static str,
    pub source_blake3: [u8; 32],
    pub files: Option<Vec<String>>,
    pub included: Option<Vec<String>>,
    pub exclude: Option<Vec<String>>,
    pub compiler_options: DxTsconfigCompilerOptionsPayload,
}

pub ghost struct MappingModel {
    pub key: Seq<char>,
    pub values: Seq<Seq<char>>,
}

impl View for DxTsconfigPathMappingPayload {
    type V = MappingModel;

    open spec fn view(&self) -> MappingModel {
        MappingModel { key: self.key@, values: text::texts(self.values@) }
    }
}

pub open spec fn mapping_models(mappings: Seq<DxTsconfigPathMappingPayload>) -> Seq<MappingModel> {
    mappings.map_values(|mapping: DxTsconfigPathMappingPayload| mapping@)
}

pub open spec fn opt_mappings(mappings: Option<Vec<DxTsconfigPathMappingPayload>>) -> Option<
    Seq<MappingModel>,
> {
    match mappings {
        Some(present) => Some(mapping_models(present@)),
        None => None,
    }
}

pub ghost enum FieldKind {
    Text,
    Mappings,
    Flag,
    Texts,
}

/// One part of a tsconfig, which may be absent.
pub ghost enum FieldModel {
    Text(Option<Seq<char>>),
    Mappings(Option<Seq<MappingModel>>),
    Flag(Option<bool>),
    Texts(Option<Seq<Seq<char>>>),
}

pub open spec fn kind_of(field: FieldModel) -> FieldKind {
    match field {
        FieldModel::Text(_) => FieldKind::Text,
        FieldModel::Mappings(_) => FieldKind::Mappings,
        FieldModel::Flag(_) => FieldKind::Flag,
        FieldModel::Texts(_) => FieldKind::Texts,
    }
}

pub open spec fn list_kinds() -> Seq<FieldKind> {
    seq![FieldKind::Texts, FieldKind::Texts, FieldKind::Texts]
}

pub open spec fn option_kinds() -> Seq<FieldKind> {
    seq![
        FieldKind::Text,
        FieldKind::Mappings,
        FieldKind::Flag,
        FieldKind::Flag,
        FieldKind::Flag,
        FieldKind::Flag,
        FieldKind::Text,
        FieldKind::Text,
        FieldKind::Text,
        FieldKind::Text,
        FieldKind::Flag,
        FieldKind::Flag,
        FieldKind::Text,
        FieldKind::Text,
        FieldKind::Text,
        FieldKind::Flag,
        FieldKind::Texts,
    ]
}

/// The names of the compiler options in JSON, in the same order.
pub open spec fn option_names() -> Seq<Seq<char>> {
    seq![
        "baseUrl"@,
        "paths"@,
        "experimentalDecorators"@,
        "emitDecoratorMetadata"@,
        "useDefineForClassFields"@,
        "rewriteRelativeImportExtensions"@,
        "jsx"@,
        "jsxFactory"@,
        "jsxFragmentFactory"@,
        "jsxImportSource"@,
        "verbatimModuleSyntax"@,
        "preserveValueImports"@,
        "importsNotUsedAsValues"@,
        "target"@,
        "module"@,
        "allowJs"@,
        "rootDirs"@,
    ]
}

impl View for DxTsconfigCompilerOptionsPayload {
    type V = Seq<FieldModel>;

    open spec fn view(&self) -> Seq<FieldModel> {
        seq![
            FieldModel::Text(codec::opt_text(self.base_url)),
            FieldModel::Mappings(opt_mappings(self.paths)),
            FieldModel::Flag(self.experimental_decorators),
            FieldModel::Flag(self.emit_decorator_metadata),
            FieldModel::Flag(self.use_define_for_class_fields),
            FieldModel::Flag(self.rewrite_relative_import_extensions),
            FieldModel::Text(codec::opt_text(self.jsx)),
            FieldModel::Text(codec::opt_text(self.jsx_factory)),
            FieldModel::Text(codec::opt_text(self.jsx_fragment_factory)),
            FieldModel::Text(codec::opt_text(self.jsx_import_source)),
            FieldModel::Flag(self.verbatim_module_syntax),
            FieldModel::Flag(self.preserve_value_imports),
            FieldModel::Text(codec::opt_text(self.imports_not_used_as_values)),
            FieldModel::Text(codec::opt_text(self.target)),
            FieldModel::Text(codec::opt_text(self.module)),
            FieldModel::Flag(self.allow_js),
            FieldModel::Texts(codec::opt_texts(self.root_dirs)),
        ]
    }
}

pub ghost struct PayloadModel {
    pub source_blake3: Seq<u8>,
    pub lists: Seq<FieldModel>,
    pub options: Seq<FieldModel>,
}

impl View for DxTsconfigMachinePayload {
    type V = PayloadModel;

    open spec fn view(&self) -> PayloadModel {
        PayloadModel {
            source_blake3: self.source_blake3@,
            lists: seq![
                FieldModel::Texts(codec::opt_texts(self.files)),
                FieldModel::Texts(codec::opt_texts(self.included)),
                FieldModel::Texts(codec::opt_texts(self.exclude)),
            ],
            options: self.compiler_options@,
        }
    }
}

impl Default for DxTsconfigCompilerOptionsPayload {
    fn default() -> (r: Self)
        ensures
            r@ == absent_fields(option_kinds()),
    {
        let r = DxTsconfigCompilerOptionsPayload {
            base_url: None,
            paths: None,
            experimental_decorators: None,
            emit_decorator_metadata: None,
            use_define_for_class_fields: None,
            rewrite_relative_import_extensions: None,
            jsx: None,
            jsx_factory: None,
            jsx_fragment_factory: None,
            jsx_import_source: None,
            verbatim_module_syntax: None,
            preserve_value_imports: None,
            imports_not_used_as_values: None,
            target: None,
            module: None,
            allow_js: None,
            root_dirs: None,
        };
        assert(r@ =~= absent_fields(option_kinds()));
        r
    }
}

pub open spec fn absent_fields(kinds: Seq<FieldKind>) -> Seq<FieldModel> {
    kinds.map_values(
        |kind: FieldKind|
            match kind {
                FieldKind::Text => FieldModel::Text(None),
                FieldKind::Mappings => FieldModel::Mappings(None),
                FieldKind::Flag => FieldModel::Flag(None),
                FieldKind::Texts => FieldModel::Texts(None),
            },
    )
}

// ---------------------------------------------------------------------------------------------
// Bytes: the model

/// A counted list of texts.
pub open spec fn text_list_at(rest: Seq<u8>) -> Option<(Seq<Seq<char>>, Seq<u8>)> {
    match codec::u32_at(rest) {
        None => None,
        Some((count, after)) => if count == NONE_LEN {
            None
        } else {
            codec::texts_at(after, count)
        },
    }
}

pub open spec fn optional_text_list_at(rest: Seq<u8>) -> Option<
    (Option<Seq<Seq<char>>>, Seq<u8>),
> {
    match codec::u32_at(rest) {
        None => None,
        Some((count, after)) => if count == NONE_LEN {
            Some((None, after))
        } else {
            match codec::texts_at(after, count) {
                None => None,
                Some((values, end)) => Some((Some(values), end)),
            }
        },
    }
}

#[verifier::opaque]
pub open spec fn mapping_at(rest: Seq<u8>) -> Option<(MappingModel, Seq<u8>)> {
    match codec::text_at(rest) {
        None => None,
        Some((key, at_values)) => match text_list_at(at_values) {
            None => None,
            Some((values, after)) => Some((MappingModel { key, values }, after)),
        },
    }
}

pub open spec fn mappings_at(rest: Seq<u8>, count: nat) -> Option<(Seq<MappingModel>, Seq<u8>)>
    decreases count,
{
    if count == 0 {
        Some((Seq::empty(), rest))
    } else {
        match mapping_at(rest) {
            None => None,
            Some((first, after)) => match mappings_at(after, (count - 1) as nat) {
                None => None,
                Some((others, end)) => Some((seq![first] + others, end)),
            },
        }
    }
}

pub open spec fn optional_mappings_at(rest: Seq<u8>) -> Option<
    (Option<Seq<MappingModel>>, Seq<u8>),
> {
    match codec::u32_at(rest) {
        None => None,
        Some((count, after)) => if count == NONE_LEN {
            Some((None, after))
        } else {
            match mappings_at(after, count) {
                None => None,
                Some((mappings, end)) => Some((Some(mappings), end)),
            }
        },
    }
}

/// A flag byte: 0 absent, 1 false, 2 true.
pub open spec fn flag_at(rest: Seq<u8>) -> Option<(Option<bool>, Seq<u8>)> {
    if rest.len() == 0 {
        None
    } else if rest[0] == 0 {
        Some((None, rest.skip(1)))
    } else if rest[0] == 1 {
        Some((Some(false), rest.skip(1)))
    } else if rest[0] == 2 {
        Some((Some(true), rest.skip(1)))
    } else {
        None
    }
}

#[verifier::opaque]
pub open spec fn field_at(rest: Seq<u8>, kind: FieldKind) -> Option<(FieldModel, Seq<u8>)> {
    match kind {
        FieldKind::Text => match codec::optional_text_at(rest) {
            None => None,
            Some((value, after)) => Some((FieldModel::Text(value), after)),
        },
        FieldKind::Mappings => match optional_mappings_at(rest) {
            None => None,
            Some((value, after)) => Some((FieldModel::Mappings(value), after)),
        },
        FieldKind::Flag => match flag_at(rest) {
            None => None,
            Some((value, after)) => Some((FieldModel::Flag(value), after)),
        },
        FieldKind::Texts => match optional_text_list_at(rest) {
            None => None,
            Some((value, after)) => Some((FieldModel::Texts(value), after)),
        },
    }
}

/// One field of each kind, in order.
#[verifier::opaque]
pub open spec fn fields_at(rest: Seq<u8>, kinds: Seq<FieldKind>) -> Option<
    (Seq<FieldModel>, Seq<u8>),
>
    decreases kinds.len(),
{
    if kinds.len() == 0 {
        Some((Seq::empty(), rest))
    } else {
        match field_at(rest, kinds[0]) {
            None => None,
            Some((first, after)) => match fields_at(after, kinds.skip(1)) {
                None => None,
                Some((others, end)) => Some((seq![first] + others, end)),
            },
        }
    }
}

pub open spec fn encoded_flag(value: Option<bool>) -> Seq<u8> {
    match value {
        None => seq![0u8],
        Some(present) => if present {
            seq![2u8]
        } else {
            seq![1u8]
        },
    }
}

pub open spec fn encoded_text_list(values: Seq<Seq<char>>) -> Seq<u8> {
    codec::le32(values.len()) + codec::encoded_texts(values)
}

pub open spec fn encoded_mapping(mapping: MappingModel) -> Seq<u8> {
    codec::encoded_text(mapping.key) + encoded_text_list(mapping.values)
}

pub open spec fn encoded_mappings(mappings: Seq<MappingModel>) -> Seq<u8>
    decreases mappings.len(),
{
    if mappings.len() == 0 {
        Seq::empty()
    } else {
        encoded_mappings(mappings.drop_last()) + encoded_mapping(mappings.last())
    }
}

pub open spec fn encoded_field(field: FieldModel) -> Seq<u8> {
    match field {
        FieldModel::Text(value) => codec::encoded_optional_text(value),
        FieldModel::Mappings(value) => match value {
            Some(mappings) => codec::le32(mappings.len()) + encoded_mappings(mappings),
            None => codec::le32(NONE_LEN as nat),
        },
        FieldModel::Flag(value) => encoded_flag(value),
        FieldModel::Texts(value) => match value {
            Some(values) => encoded_text_list(values),
            None => codec::le32(NONE_LEN as nat),
        },
    }
}

pub open spec fn encoded_fields(fields: Seq<FieldModel>) -> Seq<u8>
    decreases fields.len(),
{
    if fields.len() == 0 {
        Seq::empty()
    } else {
        encoded_fields(fields.drop_last()) + encoded_field(fields.last())
    }
}

pub open spec fn text_list_fits(values: Seq<Seq<char>>) -> bool {
    values.len() < NONE_LEN && codec::all_encodable(values)
}

pub open spec fn mapping_fits(mapping: MappingModel) -> bool {
    codec::is_encodable(mapping.key) && text_list_fits(mapping.values)
}

pub open spec fn mappings_fit(mappings: Seq<MappingModel>) -> bool {
    mappings.len() < NONE_LEN && forall|i: int|
        0 <= i < mappings.len() ==> mapping_fits(#[trigger] mappings[i])
}

/// Whether every text and count of a field is short enough for its prefix.
pub open spec fn field_fits(field: FieldModel) -> bool {
    match field {
        FieldModel::Text(value) => value matches Some(present) ==> codec::is_encodable(present),
        FieldModel::Mappings(value) => value matches Some(present) ==> mappings_fit(present),
        FieldModel::Flag(_) => true,
        FieldModel::Texts(value) => value matches Some(present) ==> text_list_fits(present),
    }
}

pub open spec fn all_fields_fit(fields: Seq<FieldModel>) -> bool {
    forall|i: int| 0 <= i < fields.len() ==> field_fits(#[trigger] fields[i])
}

/// `RDXTSC03`.
pub open spec fn tsconfig_magic() -> Seq<u8> {
    seq![0x52u8, 0x44, 0x58, 0x54, 0x53, 0x43, 0x30, 0x33]
}

/// Magic, four zero bytes, the digest of the source, the file lists, the compiler options.
pub open spec fn encoded_payload(payload: PayloadModel) -> Seq<u8> {
    tsconfig_magic() + (seq![0u8, 0u8, 0u8, 0u8] + (payload.source_blake3 + (encoded_fields(
        payload.lists,
    ) + encoded_fields(payload.options))))
}

pub open spec fn payload_fits(payload: PayloadModel) -> bool {
    all_fields_fit(payload.lists) && all_fields_fit(payload.options)
}

/// The fields of a payload, which end with it.
pub open spec fn payload_fields_at(rest: Seq<u8>) -> Option<(Seq<FieldModel>, Seq<FieldModel>)> {
    match fields_at(rest, list_kinds()) {
        None => None,
        Some((lists, at_options)) => match fields_at(at_options, option_kinds()) {
            None => None,
            Some((options, after)) => if after.len() == 0 {
                Some((lists, options))
            } else {
                None
            },
        },
    }
}

pub open spec fn decoded_payload(bytes: Seq<u8>) -> Option<PayloadModel> {
    if bytes.len() < 44 || !tsconfig_magic().is_prefix_of(bytes) || bytes.subrange(8, 12) != seq![
        0u8,
        0u8,
        0u8,
        0u8,
    ] {
        None
    } else {
        match payload_fields_at(bytes.skip(44)) {
            None => None,
            Some((lists, options)) => Some(
                PayloadModel { source_blake3: bytes.subrange(12, 44), lists, options },
            ),
        }
    }
}

// ---------------------------------------------------------------------------------------------
// Bytes: reading gives back what was written

proof fn lemma_text_list_round_trip(values: Seq<Seq<char>>, after: Seq<u8>)
    requires
        text_list_fits(values),
    ensures
        text_list_at(encoded_text_list(values) + after) == Some((values, after)),
        optional_text_list_at(encoded_text_list(values) + after) == Some((Some(values), after)),
{
    let items = codec::encoded_texts(values);
    codec::lemma_u32_round_trip(values.len(), items + after);
    assert(encoded_text_list(values) + after =~= codec::le32(values.len()) + (items + after));
    codec::lemma_texts_round_trip(values, after);
}

proof fn lemma_mapping_round_trip(mapping: MappingModel, after: Seq<u8>)
    requires
        mapping_fits(mapping),
    ensures
        mapping_at(encoded_mapping(mapping) + after) == Some((mapping, after)),
{
    reveal(mapping_at);
    let values = encoded_text_list(mapping.values);
    codec::lemma_text_round_trip(mapping.key, values + after);
    assert(encoded_mapping(mapping) + after =~= codec::encoded_text(mapping.key) + (values
        + after));
    lemma_text_list_round_trip(mapping.values, after);
}

proof fn lemma_encoded_mappings_first(mappings: Seq<MappingModel>)
    requires
        mappings.len() > 0,
    ensures
        encoded_mappings(mappings) == encoded_mapping(mappings[0]) + encoded_mappings(
            mappings.skip(1),
        ),
    decreases mappings.len(),
{
    let tail = mappings.skip(1);
    if mappings.len() == 1 {
        assert(encoded_mappings(mappings.drop_last()) =~= Seq::empty());
        assert(encoded_mappings(tail) =~= Seq::empty());
        assert(encoded_mappings(mappings) =~= encoded_mapping(mappings[0]) + encoded_mappings(
            tail,
        ));
    } else {
        lemma_encoded_mappings_first(mappings.drop_last());
        assert(mappings.drop_last().skip(1) =~= tail.drop_last());
        assert(encoded_mappings(mappings) =~= encoded_mapping(mappings[0]) + encoded_mappings(
            tail,
        ));
    }
}

proof fn lemma_mappings_round_trip(mappings: Seq<MappingModel>, after: Seq<u8>)
    requires
        mappings_fit(mappings),
    ensures
        mappings_at(encoded_mappings(mappings) + after, mappings.len()) == Some((mappings, after)),
    decreases mappings.len(),
{
    if mappings.len() == 0 {
        assert(encoded_mappings(mappings) + after =~= after);
        assert(mappings =~= Seq::empty());
    } else {
        let tail = mappings.skip(1);
        assert forall|i: int| 0 <= i < tail.len() implies mapping_fits(#[trigger] tail[i]) by {
            assert(tail[i] == mappings[i + 1]);
        }
        lemma_mappings_round_trip(tail, after);
        lemma_encoded_mappings_first(mappings);
        assert(encoded_mappings(mappings) + after =~= encoded_mapping(mappings[0]) + (
        encoded_mappings(tail) + after));
        lemma_mapping_round_trip(mappings[0], encoded_mappings(tail) + after);
        assert(seq![mappings[0]] + tail =~= mappings);
    }
}

proof fn lemma_field_round_trip(field: FieldModel, after: Seq<u8>)
    requires
        field_fits(field),
    ensures
        field_at(encoded_field(field) + after, kind_of(field)) == Some((field, after)),
{
    reveal(field_at);
    match field {
        FieldModel::Text(value) => {
            codec::lemma_optional_text_round_trip(value, after);
        },
        FieldModel::Mappings(value) => match value {
            Some(mappings) => {
                let items = encoded_mappings(mappings);
                codec::lemma_u32_round_trip(mappings.len(), items + after);
                assert(encoded_field(field) + after =~= codec::le32(mappings.len()) + (items
                    + after));
                lemma_mappings_round_trip(mappings, after);
            },
            None => {
                codec::lemma_u32_round_trip(NONE_LEN as nat, after);
            },
        },
        FieldModel::Flag(value) => {
            assert((encoded_flag(value) + after).skip(1) =~= after);
        },
        FieldModel::Texts(value) => match value {
            Some(values) => {
                lemma_text_list_round_trip(values, after);
            },
            None => {
                codec::lemma_u32_round_trip(NONE_LEN as nat, after);
            },
        },
    }
}

proof fn lemma_encoded_fields_first(fields: Seq<FieldModel>)
    requires
        fields.len() > 0,
    ensures
        encoded_fields(fields) == encoded_field(fields[0]) + encoded_fields(fields.skip(1)),
    decreases fields.len(),
{
    let tail = fields.skip(1);
    if fields.len() == 1 {
        assert(encoded_fields(fields.drop_last()) =~= Seq::empty());
        assert(encoded_fields(tail) =~= Seq::empty());
        assert(encoded_fields(fields) =~= encoded_field(fields[0]) + encoded_fields(tail));
    } else {
        lemma_encoded_fields_first(fields.drop_last());
        assert(fields.drop_last().skip(1) =~= tail.drop_last());
        assert(encoded_fields(fields) =~= encoded_field(fields[0]) + encoded_fields(tail));
    }
}

pub open spec fn kinds_of(fields: Seq<FieldModel>) -> Seq<FieldKind> {
    fields.map_values(|field: FieldModel| kind_of(field))
}

/// Reading fields gives back the fields that were written, and leaves what follows.
pub proof fn lemma_fields_round_trip(fields: Seq<FieldModel>, after: Seq<u8>)
    requires
        all_fields_fit(fields),
    ensures
        fields_at(encoded_fields(fields) + after, kinds_of(fields)) == Some((fields, after)),
    decreases fields.len(),
{
    reveal(fields_at);
    if fields.len() == 0 {
        assert(encoded_fields(fields) + after =~= after);
        assert(fields =~= Seq::empty());
    } else {
        let tail = fields.skip(1);
        assert forall|i: int| 0 <= i < tail.len() implies field_fits(#[trigger] tail[i]) by {
            assert(tail[i] == fields[i + 1]);
        }
        lemma_fields_round_trip(tail, after);
        lemma_encoded_fields_first(fields);
        assert(encoded_fields(fields) + after =~= encoded_field(fields[0]) + (encoded_fields(tail)
            + after));
        assert(field_fits(fields[0]));
        lemma_field_round_trip(fields[0], encoded_fields(tail) + after);
        assert(kinds_of(fields).skip(1) =~= kinds_of(tail));
        assert(seq![fields[0]] + tail =~= fields);
    }
}

/// Decoding gives back the payload that was encoded.
pub proof fn lemma_payload_model_round_trip(model: PayloadModel)
    requires
        model.source_blake3.len() == 32,
        kinds_of(model.lists) == list_kinds(),
        kinds_of(model.options) == option_kinds(),
        payload_fits(model),
    ensures
        decoded_payload(encoded_payload(model)) == Some(model),
{
    let bytes = encoded_payload(model);
    let options = encoded_fields(model.options);
    let fields = encoded_fields(model.lists) + options;
    assert(bytes.skip(44) =~= fields);
    assert(bytes.subrange(12, 44) =~= model.source_blake3);
    assert(bytes.subrange(8, 12) =~= seq![0u8, 0u8, 0u8, 0u8]);
    assert(bytes.subrange(0, 8) =~= tsconfig_magic());
    lemma_fields_round_trip(model.lists, options);
    assert(options + Seq::<u8>::empty() =~= options);
    lemma_fields_round_trip(model.options, Seq::empty());
}

// ---------------------------------------------------------------------------------------------
// Bytes: reading

pub fn read_string_vec(bytes: &[u8], cursor: &mut usize) -> (r: Option<Vec<String>>)
    requires
        *old(cursor) <= bytes@.len(),
    ensures
        *final(cursor) <= bytes@.len(),
        r is Some == (text_list_at(codec::unread(bytes@, *old(cursor))) is Some),
        r matches Some(values) ==> text_list_at(codec::unread(bytes@, *old(cursor))) == Some(
            (text::texts(values@), codec::unread(bytes@, *final(cursor))),
        ),
{
    let count: u32 = read_u32(bytes, cursor)?;
    if count == NONE_LEN {
        return None;
    }
    read_counted_strings(bytes, cursor, count as usize)
}

pub fn skip_string_vec(bytes: &[u8], cursor: &mut usize) -> (r: Option<()>)
    requires
        *old(cursor) <= bytes@.len(),
    ensures
        *final(cursor) <= bytes@.len(),
        r is Some == (text_list_at(codec::unread(bytes@, *old(cursor))) is Some),
        r is Some ==> (text_list_at(codec::unread(bytes@, *old(cursor)))->0).1 == codec::unread(
            bytes@,
            *final(cursor),
        ),
{
    let count: u32 = read_u32(bytes, cursor)?;
    if count == NONE_LEN {
        return None;
    }
    *cursor = validated_counted_strings_end(bytes, *cursor, count as usize)?;
    Some(())
}

pub fn read_optional_string_vec(bytes: &[u8], cursor: &mut usize) -> (r: Option<
    Option<Vec<String>>,
>)
    requires
        *old(cursor) <= bytes@.len(),
    ensures
        *final(cursor) <= bytes@.len(),
        r is Some == (optional_text_list_at(codec::unread(bytes@, *old(cursor))) is Some),
        r matches Some(values) ==> optional_text_list_at(codec::unread(bytes@, *old(cursor)))
            == Some((codec::opt_texts(values), codec::unread(bytes@, *final(cursor)))),
{
    let count: u32 = read_u32(bytes, cursor)?;
    if count == NONE_LEN {
        return Some(None);
    }
    let values: Vec<String> = read_counted_strings(bytes, cursor, count as usize)?;
    Some(Some(values))
}

pub fn skip_optional_string_vec(bytes: &[u8], cursor: &mut usize) -> (r: Option<()>)
    requires
        *old(cursor) <= bytes@.len(),
    ensures
        *final(cursor) <= bytes@.len(),
        r is Some == (optional_text_list_at(codec::unread(bytes@, *old(cursor))) is Some),
        r is Some ==> (optional_text_list_at(codec::unread(bytes@, *old(cursor)))->0).1
            == codec::unread(bytes@, *final(cursor)),
{
    let count: u32 = read_u32(bytes, cursor)?;
    if count == NONE_LEN {
        return Some(());
    }
    *cursor = validated_counted_strings_end(bytes, *cursor, count as usize)?;
    Some(())
}

/// Whether as many path mappings as declared can still follow.
pub fn declared_path_mapping_count_fits_remaining(
    bytes: &[u8],
    cursor: usize,
    count: usize,
) -> (r: bool)
    ensures
        r == (8 * count <= if cursor <= bytes@.len() {
            bytes@.len() - cursor
        } else {
            0
        }),
{
    count <= bytes.len().saturating_sub(cursor) / 8
}

proof fn lemma_mapping_takes_eight_bytes(rest: Seq<u8>)
    requires
        mapping_at(rest) is Some,
    ensures
        (mapping_at(rest)->0).1.len() + 8 <= rest.len(),
{
    reveal(mapping_at);
    let at_values = (codec::text_at(rest)->0).1;
    let (count, items) = codec::u32_at(at_values)->0;
    lemma_texts_end(items, count);
}

proof fn lemma_texts_end(rest: Seq<u8>, count: nat)
    requires
        codec::texts_at(rest, count) is Some,
    ensures
        (codec::texts_at(rest, count)->0).1.len() <= rest.len(),
    decreases count,
{
    if count > 0 {
        lemma_texts_end((codec::text_at(rest)->0).1, (count - 1) as nat);
    }
}

proof fn lemma_mappings_take_eight_bytes_each(rest: Seq<u8>, count: nat)
    requires
        mappings_at(rest, count) is Some,
    ensures
        8 * count <= rest.len(),
    decreases count,
{
    if count > 0 {
        lemma_mapping_takes_eight_bytes(rest);
        lemma_mappings_take_eight_bytes_each((mapping_at(rest)->0).1, (count - 1) as nat);
    }
}

spec fn prepended_mappings(
    front: Seq<MappingModel>,
    parsed: Option<(Seq<MappingModel>, Seq<u8>)>,
) -> Option<(Seq<MappingModel>, Seq<u8>)> {
    match parsed {
        None => None,
        Some((mappings, after)) => Some((front + mappings, after)),
    }
}

fn read_mapping(bytes: &[u8], cursor: &mut usize) -> (r: Option<DxTsconfigPathMappingPayload>)
    requires
        *old(cursor) <= bytes@.len(),
    ensures
        *final(cursor) <= bytes@.len(),
        r is Some == (mapping_at(codec::unread(bytes@, *old(cursor))) is Some),
        r matches Some(mapping) ==> mapping_at(codec::unread(bytes@, *old(cursor))) == Some(
            (mapping@, codec::unread(bytes@, *final(cursor))),
        ),
{
    proof {
        reveal(mapping_at);
    }
    let key: String = read_string(bytes, cursor)?;
    let values: Vec<String> = read_string_vec(bytes, cursor)?;
    Some(DxTsconfigPathMappingPayload { key, values })
}

fn skip_mapping(bytes: &[u8], cursor: &mut usize) -> (r: Option<()>)
    requires
        *old(cursor) <= bytes@.len(),
    ensures
        *final(cursor) <= bytes@.len(),
        r is Some == (mapping_at(codec::unread(bytes@, *old(cursor))) is Some),
        r is Some ==> (mapping_at(codec::unread(bytes@, *old(cursor)))->0).1 == codec::unread(
            bytes@,
            *final(cursor),
        ),
{
    proof {
        reveal(mapping_at);
    }
    skip_string(bytes, cursor)?;
    skip_string_vec(bytes, cursor)
}

pub fn read_optional_path_mappings(bytes: &[u8], cursor: &mut usize) -> (r: Option<
    Option<Vec<DxTsconfigPathMappingPayload>>,
>)
    requires
        *old(cursor) <= bytes@.len(),
    ensures
        *final(cursor) <= bytes@.len(),
        r is Some == (optional_mappings_at(codec::unread(bytes@, *old(cursor))) is Some),
        r matches Some(mappings) ==> optional_mappings_at(codec::unread(bytes@, *old(cursor)))
            == Some((opt_mappings(mappings), codec::unread(bytes@, *final(cursor)))),
{
    let ghost start = codec::unread(bytes@, *cursor);
    let count: u32 = read_u32(bytes, cursor)?;
    if count == NONE_LEN {
        return Some(None);
    }
    let count: usize = count as usize;
    if !declared_path_mapping_count_fits_remaining(bytes, *cursor, count) {
        proof {
            if mappings_at(codec::unread(bytes@, *cursor), count as nat) is Some {
                lemma_mappings_take_eight_bytes_each(
                    codec::unread(bytes@, *cursor),
                    count as nat,
                );
            }
        }
        return None;
    }
    let mut mappings: Vec<DxTsconfigPathMappingPayload> = Vec::with_capacity(count);
    let ghost whole = mappings_at(codec::unread(bytes@, *cursor), count as nat);
    proof {
        if whole is Some {
            assert(mapping_models(mappings@) + (whole->0).0 =~= (whole->0).0);
        }
    }
    let mut i: usize = 0;
    while i < count
        invariant
            i <= count,
            *cursor <= bytes@.len(),
            start == codec::unread(bytes@, *old(cursor)),
            optional_mappings_at(start) is Some == (whole is Some),
            whole matches Some(found) ==> optional_mappings_at(start) == Some(
                (Some(found.0), found.1),
            ),
            whole == prepended_mappings(
                mapping_models(mappings@),
                mappings_at(codec::unread(bytes@, *cursor), (count - i) as nat),
            ),
        decreases count - i,
    {
        let ghost before = mappings@;
        let mapping: DxTsconfigPathMappingPayload = read_mapping(bytes, cursor)?;
        mappings.push(mapping);
        proof {
            assert(mapping_models(mappings@) =~= mapping_models(before).push(mapping@));
            let tail = mappings_at(codec::unread(bytes@, *cursor), (count - i - 1) as nat);
            if tail is Some {
                assert(mapping_models(before) + (seq![mapping@] + (tail->0).0) =~= mapping_models(
                    mappings@,
                ) + (tail->0).0);
            }
        }
        i = i + 1;
    }
    proof {
        assert(mapping_models(mappings@) + Seq::<MappingModel>::empty() =~= mapping_models(
            mappings@,
        ));
    }
    Some(Some(mappings))
}

pub fn skip_optional_path_mappings(bytes: &[u8], cursor: &mut usize) -> (r: Option<()>)
    requires
        *old(cursor) <= bytes@.len(),
    ensures
        *final(cursor) <= bytes@.len(),
        r is Some == (optional_mappings_at(codec::unread(bytes@, *old(cursor))) is Some),
        r is Some ==> (optional_mappings_at(codec::unread(bytes@, *old(cursor)))->0).1
            == codec::unread(bytes@, *final(cursor)),
{
    let ghost start = codec::unread(bytes@, *cursor);
    let count: u32 = read_u32(bytes, cursor)?;
    if count == NONE_LEN {
        return Some(());
    }
    let count: usize = count as usize;
    let ghost items = codec::unread(bytes@, *cursor);
    if !declared_path_mapping_count_fits_remaining(bytes, *cursor, count) {
        proof {
            if mappings_at(items, count as nat) is Some {
                lemma_mappings_take_eight_bytes_each(items, count as nat);
            }
        }
        return None;
    }
    let mut i: usize = 0;
    while i < count
        invariant
            i <= count,
            *cursor <= bytes@.len(),
            start == codec::unread(bytes@, *old(cursor)),
            optional_mappings_at(start) is Some == (mappings_at(items, count as nat) is Some),
            mappings_at(items, count as nat) matches Some(found) ==> (optional_mappings_at(
                start,
            )->0).1 == found.1,
            (mappings_at(items, count as nat) is Some) == (mappings_at(
                codec::unread(bytes@, *cursor),
                (count - i) as nat,
            ) is Some),
            mappings_at(items, count as nat) is Some ==> (mappings_at(items, count as nat)->0).1
                == (mappings_at(codec::unread(bytes@, *cursor), (count - i) as nat)->0).1,
        decreases count - i,
    {
        skip_mapping(bytes, cursor)?;
        i = i + 1;
    }
    Some(())
}

pub fn read_optional_bool(bytes: &[u8], cursor: &mut usize) -> (r: Option<Option<bool>>)
    requires
        *old(cursor) <= bytes@.len(),
    ensures
        *final(cursor) <= bytes@.len(),
        r is Some == (flag_at(codec::unread(bytes@, *old(cursor))) is Some),
        r matches Some(value) ==> flag_at(codec::unread(bytes@, *old(cursor))) == Some(
            (value, codec::unread(bytes@, *final(cursor))),
        ),
{
    let at: usize = *cursor;
    if at == bytes.len() {
        return None;
    }
    assert(bytes@.skip(at as int).skip(1) =~= bytes@.skip(at + 1));
    *cursor = at + 1;
    match bytes[at] {
        0 => Some(None),
        1 => Some(Some(false)),
        2 => Some(Some(true)),
        _ => None,
    }
}

pub fn skip_optional_bool(bytes: &[u8], cursor: &mut usize) -> (r: Option<()>)
    requires
        *old(cursor) <= bytes@.len(),
    ensures
        *final(cursor) <= bytes@.len(),
        r is Some == (flag_at(codec::unread(bytes@, *old(cursor))) is Some),
        r is Some ==> (flag_at(codec::unread(bytes@, *old(cursor)))->0).1 == codec::unread(
            bytes@,
            *final(cursor),
        ),
{
    read_optional_bool(bytes, cursor)?;
    Some(())
}

fn read_text_field(bytes: &[u8], cursor: &mut usize) -> (r: Option<Option<String>>)
    requires
        *old(cursor) <= bytes@.len(),
    ensures
        *final(cursor) <= bytes@.len(),
        r is Some == (field_at(codec::unread(bytes@, *old(cursor)), FieldKind::Text) is Some),
        r matches Some(value) ==> field_at(codec::unread(bytes@, *old(cursor)), FieldKind::Text)
            == Some((FieldModel::Text(codec::opt_text(value)), codec::unread(bytes@, *final(cursor)))),
{
    proof {
        reveal(field_at);
    }
    read_optional_string(bytes, cursor)
}

fn skip_text_field(bytes: &[u8], cursor: &mut usize) -> (r: Option<()>)
    requires
        *old(cursor) <= bytes@.len(),
    ensures
        *final(cursor) <= bytes@.len(),
        r is Some == (field_at(codec::unread(bytes@, *old(cursor)), FieldKind::Text) is Some),
        r is Some ==> (field_at(codec::unread(bytes@, *old(cursor)), FieldKind::Text)->0).1
            == codec::unread(bytes@, *final(cursor)),
{
    proof {
        reveal(field_at);
    }
    skip_optional_string(bytes, cursor)
}

fn read_mappings_field(bytes: &[u8], cursor: &mut usize) -> (r: Option<
    Option<Vec<DxTsconfigPathMappingPayload>>,
>)
    requires
        *old(cursor) <= bytes@.len(),
    ensures
        *final(cursor) <= bytes@.len(),
        r is Some == (field_at(codec::unread(bytes@, *old(cursor)), FieldKind::Mappings) is Some),
        r matches Some(value) ==> field_at(codec::unread(bytes@, *old(cursor)), FieldKind::Mappings)
            == Some((FieldModel::Mappings(opt_mappings(value)), codec::unread(bytes@, *final(cursor)))),
{
    proof {
        reveal(field_at);
    }
    read_optional_path_mappings(bytes, cursor)
}

fn skip_mappings_field(bytes: &[u8], cursor: &mut usize) -> (r: Option<()>)
    requires
        *old(cursor) <= bytes@.len(),
    ensures
        *final(cursor) <= bytes@.len(),
        r is Some == (field_at(codec::unread(bytes@, *old(cursor)), FieldKind::Mappings) is Some),
        r is Some ==> (field_at(codec::unread(bytes@, *old(cursor)), FieldKind::Mappings)->0).1
            == codec::unread(bytes@, *final(cursor)),
{
    proof {
        reveal(field_at);
    }
    skip_optional_path_mappings(bytes, cursor)
}

fn read_flag_field(bytes: &[u8], cursor: &mut usize) -> (r: Option<Option<bool>>)
    requires
        *old(cursor) <= bytes@.len(),
    ensures
        *final(cursor) <= bytes@.len(),
        r is Some == (field_at(codec::unread(bytes@, *old(cursor)), FieldKind::Flag) is Some),
        r matches Some(value) ==> field_at(codec::unread(bytes@, *old(cursor)), FieldKind::Flag)
            == Some((FieldModel::Flag(value), codec::unread(bytes@, *final(cursor)))),
{
    proof {
        reveal(field_at);
    }
    read_optional_bool(bytes, cursor)
}

fn skip_flag_field(bytes: &[u8], cursor: &mut usize) -> (r: Option<()>)
    requires
        *old(cursor) <= bytes@.len(),
    ensures
        *final(cursor) <= bytes@.len(),
        r is Some == (field_at(codec::unread(bytes@, *old(cursor)), FieldKind::Flag) is Some),
        r is Some ==> (field_at(codec::unread(bytes@, *old(cursor)), FieldKind::Flag)->0).1
            == codec::unread(bytes@, *final(cursor)),
{
    proof {
        reveal(field_at);
    }
    skip_optional_bool(bytes, cursor)
}

fn read_texts_field(bytes: &[u8], cursor: &mut usize) -> (r: Option<Option<Vec<String>>>)
    requires
        *old(cursor) <= bytes@.len(),
    ensures
        *final(cursor) <= bytes@.len(),
        r is Some == (field_at(codec::unread(bytes@, *old(cursor)), FieldKind::Texts) is Some),
        r matches Some(value) ==> field_at(codec::unread(bytes@, *old(cursor)), FieldKind::Texts)
            == Some((FieldModel::Texts(codec::opt_texts(value)), codec::unread(bytes@, *final(cursor)))),
{
    proof {
        reveal(field_at);
    }
    read_optional_string_vec(bytes, cursor)
}

fn skip_texts_field(bytes: &[u8], cursor: &mut usize) -> (r: Option<()>)
    requires
        *old(cursor) <= bytes@.len(),
    ensures
        *final(cursor) <= bytes@.len(),
        r is Some == (field_at(codec::unread(bytes@, *old(cursor)), FieldKind::Texts) is Some),
        r is Some ==> (field_at(codec::unread(bytes@, *old(cursor)), FieldKind::Texts)->0).1
            == codec::unread(bytes@, *final(cursor)),
{
    proof {
        reveal(field_at);
    }
    skip_optional_string_vec(bytes, cursor)
}

pub open spec fn resumed(
    done: Seq<FieldModel>,
    parsed: Option<(Seq<FieldModel>, Seq<u8>)>,
) -> Option<(Seq<FieldModel>, Seq<u8>)> {
    match parsed {
        None => None,
        Some((fields, after)) => Some((done + fields, after)),
    }
}

/// Reading one more field.
proof fn lemma_next_field(
    whole: Option<(Seq<FieldModel>, Seq<u8>)>,
    done: Seq<FieldModel>,
    rest: Seq<u8>,
    kinds: Seq<FieldKind>,
)
    requires
        done.len() < kinds.len(),
        whole == resumed(done, fields_at(rest, kinds.skip(done.len() as int))),
    ensures
        field_at(rest, kinds[done.len() as int]) is None ==> whole is None,
        field_at(rest, kinds[done.len() as int]) matches Some((field, after)) ==> whole == resumed(
            done.push(field),
            fields_at(after, kinds.skip(done.len() as int + 1)),
        ),
{
    reveal(fields_at);
    let n = done.len() as int;
    assert(kinds.skip(n).skip(1) =~= kinds.skip(n + 1));
    if let Some((field, after)) = field_at(rest, kinds[n]) {
        if let Some((others, end)) = fields_at(after, kinds.skip(n + 1)) {
            assert(done + (seq![field] + others) =~= done.push(field) + others);
        }
    }
}

proof fn lemma_no_field_yet(parsed: Option<(Seq<FieldModel>, Seq<u8>)>)
    ensures
        resumed(Seq::empty(), parsed) == parsed,
{
    if let Some((fields, after)) = parsed {
        assert(Seq::<FieldModel>::empty() + fields =~= fields);
    }
}

proof fn lemma_all_fields_read(done: Seq<FieldModel>, rest: Seq<u8>, kinds: Seq<FieldKind>)
    requires
        done.len() == kinds.len(),
    ensures
        resumed(done, fields_at(rest, kinds.skip(done.len() as int))) == Some((done, rest)),
{
    reveal(fields_at);
    assert(kinds.skip(kinds.len() as int) =~= Seq::empty());
    assert(done + Seq::<FieldModel>::empty() =~= done);
}

/// The compiler options, field by field.
pub fn decode_dx_tsconfig_compiler_options(bytes: &[u8], cursor: &mut usize) -> (r: Option<
    DxTsconfigCompilerOptionsPayload,
>)
    requires
        *old(cursor) <= bytes@.len(),
    ensures
        *final(cursor) <= bytes@.len(),
        r is Some == (fields_at(codec::unread(bytes@, *old(cursor)), option_kinds()) is Some),
        r matches Some(options) ==> fields_at(codec::unread(bytes@, *old(cursor)), option_kinds())
            == Some((options@, codec::unread(bytes@, *final(cursor)))),
{
    let ghost kinds = option_kinds();
    let ghost whole = fields_at(codec::unread(bytes@, *cursor), kinds);
    let ghost mut done: Seq<FieldModel> = Seq::empty();
    proof {
        assert(kinds.skip(0) =~= kinds);
        lemma_no_field_yet(whole);
        lemma_next_field(whole, done, codec::unread(bytes@, *cursor), kinds);
    }
    let base_url: Option<String> = read_text_field(bytes, cursor)?;
    proof {
        done = done.push(FieldModel::Text(codec::opt_text(base_url)));
        lemma_next_field(whole, done, codec::unread(bytes@, *cursor), kinds);
    }
    let paths: Option<Vec<DxTsconfigPathMappingPayload>> = read_mappings_field(bytes, cursor)?;
    proof {
        done = done.push(FieldModel::Mappings(opt_mappings(paths)));
        lemma_next_field(whole, done, codec::unread(bytes@, *cursor), kinds);
    }
    let experimental_decorators: Option<bool> = read_flag_field(bytes, cursor)?;
    proof {
        done = done.push(FieldModel::Flag(experimental_decorators));
        lemma_next_field(whole, done, codec::unread(bytes@, *cursor), kinds);
    }
    let emit_decorator_metadata: Option<bool> = read_flag_field(bytes, cursor)?;
    proof {
        done = done.push(FieldModel::Flag(emit_decorator_metadata));
        lemma_next_field(whole, done, codec::unread(bytes@, *cursor), kinds);
    }
    let use_define_for_class_fields: Option<bool> = read_flag_field(bytes, cursor)?;
    proof {
        done = done.push(FieldModel::Flag(use_define_for_class_fields));
        lemma_next_field(whole, done, codec::unread(bytes@, *cursor), kinds);
    }
    let rewrite_relative_import_extensions: Option<bool> = read_flag_field(bytes, cursor)?;
    proof {
        done = done.push(FieldModel::Flag(rewrite_relative_import_extensions));
        lemma_next_field(whole, done, codec::unread(bytes@, *cursor), kinds);
    }
    let jsx: Option<String> = read_text_field(bytes, cursor)?;
    proof {
        done = done.push(FieldModel::Text(codec::opt_text(jsx)));
        lemma_next_field(whole, done, codec::unread(bytes@, *cursor), kinds);
    }
    let jsx_factory: Option<String> = read_text_field(bytes, cursor)?;
    proof {
        done = done.push(FieldModel::Text(codec::opt_text(jsx_factory)));
        lemma_next_field(whole, done, codec::unread(bytes@, *cursor), kinds);
    }
    let jsx_fragment_factory: Option<String> = read_text_field(bytes, cursor)?;
    proof {
        done = done.push(FieldModel::Text(codec::opt_text(jsx_fragment_factory)));
        lemma_next_field(whole, done, codec::unread(bytes@, *cursor), kinds);
    }
    let jsx_import_source: Option<String> = read_text_field(bytes, cursor)?;
    proof {
        done = done.push(FieldModel::Text(codec::opt_text(jsx_import_source)));
        lemma_next_field(whole, done, codec::unread(bytes@, *cursor), kinds);
    }
    let verbatim_module_syntax: Option<bool> = read_flag_field(bytes, cursor)?;
    proof {
        done = done.push(FieldModel::Flag(verbatim_module_syntax));
        lemma_next_field(whole, done, codec::unread(bytes@, *cursor), kinds);
    }
    let preserve_value_imports: Option<bool> = read_flag_field(bytes, cursor)?;
    proof {
        done = done.push(FieldModel::Flag(preserve_value_imports));
        lemma_next_field(whole, done, codec::unread(bytes@, *cursor), kinds);
    }
    let imports_not_used_as_values: Option<String> = read_text_field(bytes, cursor)?;
    proof {
        done = done.push(FieldModel::Text(codec::opt_text(imports_not_used_as_values)));
        lemma_next_field(whole, done, codec::unread(bytes@, *cursor), kinds);
    }
    let target: Option<String> = read_text_field(bytes, cursor)?;
    proof {
        done = done.push(FieldModel::Text(codec::opt_text(target)));
        lemma_next_field(whole, done, codec::unread(bytes@, *cursor), kinds);
    }
    let module: Option<String> = read_text_field(bytes, cursor)?;
    proof {
        done = done.push(FieldModel::Text(codec::opt_text(module)));
        lemma_next_field(whole, done, codec::unread(bytes@, *cursor), kinds);
    }
    let allow_js: Option<bool> = read_flag_field(bytes, cursor)?;
    proof {
        done = done.push(FieldModel::Flag(allow_js));
        lemma_next_field(whole, done, codec::unread(bytes@, *cursor), kinds);
    }
    let root_dirs: Option<Vec<String>> = read_texts_field(bytes, cursor)?;
    proof {
        done = done.push(FieldModel::Texts(codec::opt_texts(root_dirs)));
        lemma_all_fields_read(done, codec::unread(bytes@, *cursor), kinds);
    }
    let options = DxTsconfigCompilerOptionsPayload {
        base_url,
        paths,
        experimental_decorators,
        emit_decorator_metadata,
        use_define_for_class_fields,
        rewrite_relative_import_extensions,
        jsx,
        jsx_factory,
        jsx_fragment_factory,
        jsx_import_source,
        verbatim_module_syntax,
        preserve_value_imports,
        imports_not_used_as_values,
        target,
        module,
        allow_js,
        root_dirs,
    };
    assert(options@ =~= done);
    Some(options)
}

/// Whether the compiler options are complete and well-formed; no value is kept.
pub fn skip_dx_tsconfig_compiler_options(bytes: &[u8], cursor: &mut usize) -> (r: Option<()>)
    requires
        *old(cursor) <= bytes@.len(),
    ensures
        *final(cursor) <= bytes@.len(),
        r is Some == (fields_at(codec::unread(bytes@, *old(cursor)), option_kinds()) is Some),
        r is Some ==> (fields_at(codec::unread(bytes@, *old(cursor)), option_kinds())->0).1
            == codec::unread(bytes@, *final(cursor)),
{
    let ghost kinds = option_kinds();
    let ghost whole = fields_at(codec::unread(bytes@, *cursor), kinds);
    let ghost mut done: Seq<FieldModel> = Seq::empty();
    let ghost mut at = codec::unread(bytes@, *cursor);
    proof {
        assert(kinds.skip(0) =~= kinds);
        lemma_no_field_yet(whole);
        lemma_next_field(whole, done, at, kinds);
    }
    skip_text_field(bytes, cursor)?;
    proof {
        done = done.push((field_at(at, kinds[0])->0).0);
        at = codec::unread(bytes@, *cursor);
        lemma_next_field(whole, done, at, kinds);
    }
    skip_mappings_field(bytes, cursor)?;
    proof {
        done = done.push((field_at(at, kinds[1])->0).0);
        at = codec::unread(bytes@, *cursor);
        lemma_next_field(whole, done, at, kinds);
    }
    skip_flag_field(bytes, cursor)?;
    proof {
        done = done.push((field_at(at, kinds[2])->0).0);
        at = codec::unread(bytes@, *cursor);
        lemma_next_field(whole, done, at, kinds);
    }
    skip_flag_field(bytes, cursor)?;
    proof {
        done = done.push((field_at(at, kinds[3])->0).0);
        at = codec::unread(bytes@, *cursor);
        lemma_next_field(whole, done, at, kinds);
    }
    skip_flag_field(bytes, cursor)?;
    proof {
        done = done.push((field_at(at, kinds[4])->0).0);
        at = codec::unread(bytes@, *cursor);
        lemma_next_field(whole, done, at, kinds);
    }
    skip_flag_field(bytes, cursor)?;
    proof {
        done = done.push((field_at(at, kinds[5])->0).0);
        at = codec::unread(bytes@, *cursor);
        lemma_next_field(whole, done, at, kinds);
    }
    skip_text_field(bytes, cursor)?;
    proof {
        done = done.push((field_at(at, kinds[6])->0).0);
        at = codec::unread(bytes@, *cursor);
        lemma_next_field(whole, done, at, kinds);
    }
    skip_text_field(bytes, cursor)?;
    proof {
        done = done.push((field_at(at, kinds[7])->0).0);
        at = codec::unread(bytes@, *cursor);
        lemma_next_field(whole, done, at, kinds);
    }
    skip_text_field(bytes, cursor)?;
    proof {
        done = done.push((field_at(at, kinds[8])->0).0);
        at = codec::unread(bytes@, *cursor);
        lemma_next_field(whole, done, at, kinds);
    }
    skip_text_field(bytes, cursor)?;
    proof {
        done = done.push((field_at(at, kinds[9])->0).0);
        at = codec::unread(bytes@, *cursor);
        lemma_next_field(whole, done, at, kinds);
    }
    skip_flag_field(bytes, cursor)?;
    proof {
        done = done.push((field_at(at, kinds[10])->0).0);
        at = codec::unread(bytes@, *cursor);
        lemma_next_field(whole, done, at, kinds);
    }
    skip_flag_field(bytes, cursor)?;
    proof {
        done = done.push((field_at(at, kinds[11])->0).0);
        at = codec::unread(bytes@, *cursor);
        lemma_next_field(whole, done, at, kinds);
    }
    skip_text_field(bytes, cursor)?;
    proof {
        done = done.push((field_at(at, kinds[12])->0).0);
        at = codec::unread(bytes@, *cursor);
        lemma_next_field(whole, done, at, kinds);
    }
    skip_text_field(bytes, cursor)?;
    proof {
        done = done.push((field_at(at, kinds[13])->0).0);
        at = codec::unread(bytes@, *cursor);
        lemma_next_field(whole, done, at, kinds);
    }
    skip_text_field(bytes, cursor)?;
    proof {
        done = done.push((field_at(at, kinds[14])->0).0);
        at = codec::unread(bytes@, *cursor);
        lemma_next_field(whole, done, at, kinds);
    }
    skip_flag_field(bytes, cursor)?;
    proof {
        done = done.push((field_at(at, kinds[15])->0).0);
        at = codec::unread(bytes@, *cursor);
        lemma_next_field(whole, done, at, kinds);
    }
    skip_texts_field(bytes, cursor)?;
    proof {
        done = done.push((field_at(at, kinds[16])->0).0);
        at = codec::unread(bytes@, *cursor);
        lemma_all_fields_read(done, at, kinds);
    }
    Some(())
}

fn copy_source_hash(bytes: &[u8]) -> (hash: [u8; 32])
    requires
        bytes@.len() >= 44,
    ensures
        hash@ == bytes@.subrange(12, 44),
{
    let mut hash: [u8; 32] = [0; 32];
    let mut i: usize = 0;
    while i < 32
        invariant
            i <= 32,
            bytes@.len() >= 44,
            hash@.len() == 32,
            forall|j: int| 0 <= j < i ==> #[trigger] hash@[j] == bytes@[12 + j],
        decreases 32 - i,
    {
        hash[i] = bytes[12 + i];
        i = i + 1;
    }
    assert(hash@ =~= bytes@.subrange(12, 44));
    hash
}

pub fn same_hash(left: &[u8; 32], right: &[u8; 32]) -> (r: bool)
    ensures
        r == (left@ == right@),
{
    let mut i: usize = 0;
    while i < 32
        invariant
            i <= 32,
            left@.len() == 32,
            right@.len() == 32,
            forall|j: int| 0 <= j < i ==> #[trigger] left@[j] == right@[j],
        decreases 32 - i,
    {
        if left[i] != right[i] {
            return false;
        }
        i = i + 1;
    }
    assert(left@ =~= right@);
    true
}

pub fn dx_tsconfig_machine_magic() -> (magic: [u8; 8])
    ensures
        magic@ == tsconfig_magic(),
{
    let magic: [u8; 8] = [0x52, 0x44, 0x58, 0x54, 0x53, 0x43, 0x30, 0x33];
    assert(magic@ =~= tsconfig_magic());
    magic
}

/// Whether there is a digest behind the header, and everything behind it is complete and ends with
/// the payload.
pub open spec fn payload_layout_holds(bytes: Seq<u8>) -> bool {
    bytes.len() >= 44 && payload_fields_at(bytes.skip(44)) is Some
}

/// Behind the right header, the layout holds exactly where the payload decodes.
pub proof fn lemma_layout_holds_where_payload_decodes(bytes: Seq<u8>)
    requires
        bytes.len() >= 12,
        tsconfig_magic().is_prefix_of(bytes),
        bytes.subrange(8, 12) == seq![0u8, 0u8, 0u8, 0u8],
    ensures
        payload_layout_holds(bytes) == (decoded_payload(bytes) is Some),
{
}

pub fn dx_tsconfig_machine_payload_layout_is_valid(bytes: &[u8]) -> (r: bool)
    ensures
        r == payload_layout_holds(bytes@),
{
    if bytes.len() < DX_TSCONFIG_MACHINE_HEADER_LEN + DX_TSCONFIG_SOURCE_HASH_LEN {
        return false;
    }
    let ghost kinds = list_kinds();
    let mut cursor: usize = DX_TSCONFIG_MACHINE_HEADER_LEN + DX_TSCONFIG_SOURCE_HASH_LEN;
    let ghost whole = fields_at(codec::unread(bytes@, cursor), kinds);
    let ghost mut done: Seq<FieldModel> = Seq::empty();
    let ghost mut at = codec::unread(bytes@, cursor);
    proof {
        assert(kinds.skip(0) =~= kinds);
        lemma_no_field_yet(whole);
        lemma_next_field(whole, done, at, kinds);
    }
    if skip_texts_field(bytes, &mut cursor).is_none() {
        return false;
    }
    proof {
        done = done.push((field_at(at, kinds[0])->0).0);
        at = codec::unread(bytes@, cursor);
        lemma_next_field(whole, done, at, kinds);
    }
    if skip_texts_field(bytes, &mut cursor).is_none() {
        return false;
    }
    proof {
        done = done.push((field_at(at, kinds[1])->0).0);
        at = codec::unread(bytes@, cursor);
        lemma_next_field(whole, done, at, kinds);
    }
    if skip_texts_field(bytes, &mut cursor).is_none() {
        return false;
    }
    proof {
        done = done.push((field_at(at, kinds[2])->0).0);
        at = codec::unread(bytes@, cursor);
        lemma_all_fields_read(done, at, kinds);
    }
    skip_dx_tsconfig_compiler_options(bytes, &mut cursor).is_some() && cursor == bytes.len()
}

pub fn decode_dx_tsconfig_machine_payload(bytes: &[u8]) -> (r: Option<DxTsconfigMachinePayload>)
    ensures
        r is Some == (decoded_payload(bytes@) is Some),
        r matches Some(payload) ==> decoded_payload(bytes@) == Some(payload@) && payload.schema@
            == DX_TSCONFIG_MACHINE_SCHEMA@,
{
    decode_dx_tsconfig_machine_payload_with_expected_source_hash(bytes, None)
}

pub fn decode_dx_tsconfig_machine_payload_with_source_hash(
    bytes: &[u8],
    source_hash: &[u8; 32],
) -> (r: Option<DxTsconfigMachinePayload>)
    ensures
        r is Some == (decoded_payload(bytes@) matches Some(payload) && payload.source_blake3
            == source_hash@),
        r matches Some(payload) ==> decoded_payload(bytes@) == Some(payload@) && payload.schema@
            == DX_TSCONFIG_MACHINE_SCHEMA@,
{
    decode_dx_tsconfig_machine_payload_with_expected_source_hash(bytes, Some(source_hash))
}

pub open spec fn hash_expected(found: Seq<u8>, expected: Option<&[u8; 32]>) -> bool {
    expected matches Some(hash) ==> found == hash@
}

pub fn decode_dx_tsconfig_machine_payload_with_expected_source_hash(
    bytes: &[u8],
    expected_source_hash: Option<&[u8; 32]>,
) -> (r: Option<DxTsconfigMachinePayload>)
    ensures
        r is Some == (decoded_payload(bytes@) matches Some(payload) && hash_expected(
            payload.source_blake3,
            expected_source_hash,
        )),
        expected_source_hash is None ==> r is Some == (decoded_payload(bytes@) is Some),
        expected_source_hash matches Some(hash) ==> (r matches Some(payload)
            ==> payload.source_blake3@ == hash@),
        r matches Some(payload) ==> decoded_payload(bytes@) == Some(payload@) && payload.schema@
            == DX_TSCONFIG_MACHINE_SCHEMA@,
{
    if bytes.len() < DX_TSCONFIG_MACHINE_HEADER_LEN + DX_TSCONFIG_SOURCE_HASH_LEN {
        return None;
    }
    let magic: [u8; 8] = dx_tsconfig_machine_magic();
    if !starts_with_bytes(bytes, magic.as_slice()) {
        return None;
    }
    if bytes[8] != 0 || bytes[9] != 0 || bytes[10] != 0 || bytes[11] != 0 {
        proof {
            let zeros = bytes@.subrange(8, 12);
            assert(zeros[0] == bytes@[8] && zeros[1] == bytes@[9] && zeros[2] == bytes@[10]
                && zeros[3] == bytes@[11]);
        }
        return None;
    }
    assert(bytes@.subrange(8, 12) =~= seq![0u8, 0u8, 0u8, 0u8]);
    let source_blake3: [u8; 32] = copy_source_hash(bytes);
    match expected_source_hash {
        Some(hash) => if !same_hash(&source_blake3, hash) {
            return None;
        },
        None => {},
    }
    if !dx_tsconfig_machine_payload_layout_is_valid(bytes) {
        return None;
    }
    let ghost kinds = list_kinds();
    let mut cursor: usize = DX_TSCONFIG_MACHINE_HEADER_LEN + DX_TSCONFIG_SOURCE_HASH_LEN;
    let ghost whole = fields_at(codec::unread(bytes@, cursor), kinds);
    let ghost mut done: Seq<FieldModel> = Seq::empty();
    proof {
        assert(kinds.skip(0) =~= kinds);
        lemma_no_field_yet(whole);
        lemma_next_field(whole, done, codec::unread(bytes@, cursor), kinds);
    }
    let files: Option<Vec<String>> = read_texts_field(bytes, &mut cursor)?;
    proof {
        done = done.push(FieldModel::Texts(codec::opt_texts(files)));
        lemma_next_field(whole, done, codec::unread(bytes@, cursor), kinds);
    }
    let included: Option<Vec<String>> = read_texts_field(bytes, &mut cursor)?;
    proof {
        done = done.push(FieldModel::Texts(codec::opt_texts(included)));
        lemma_next_field(whole, done, codec::unread(bytes@, cursor), kinds);
    }
    let exclude: Option<Vec<String>> = read_texts_field(bytes, &mut cursor)?;
    proof {
        done = done.push(FieldModel::Texts(codec::opt_texts(exclude)));
        lemma_all_fields_read(done, codec::unread(bytes@, cursor), kinds);
    }
    let compiler_options: DxTsconfigCompilerOptionsPayload = decode_dx_tsconfig_compiler_options(
        bytes,
        &mut cursor,
    )?;
    if cursor != bytes.len() {
        return None;
    }
    let payload = DxTsconfigMachinePayload {
        schema: DX_TSCONFIG_MACHINE_SCHEMA,
        source_blake3,
        files,
        included,
        exclude,
        compiler_options,
    };
    assert(payload@.lists =~= done);
    Some(payload)
}

// ---------------------------------------------------------------------------------------------
// Bytes: writing

pub fn write_string_vec(output: &mut Vec<u8>, values: &Vec<String>)
    requires
        text_list_fits(text::texts(values@)),
    ensures
        final(output)@ == old(output)@ + encoded_text_list(text::texts(values@)),
{
    write_u32(output, values.len() as u32);
    write_strings(output, values);
    assert(output@ =~= old(output)@ + encoded_text_list(text::texts(values@)));
}

pub fn write_optional_string_vec(output: &mut Vec<u8>, values: &Option<Vec<String>>)
    requires
        field_fits(FieldModel::Texts(codec::opt_texts(*values))),
    ensures
        final(output)@ == old(output)@ + encoded_field(
            FieldModel::Texts(codec::opt_texts(*values)),
        ),
{
    match values {
        Some(present) => write_string_vec(output, present),
        None => write_u32(output, NONE_LEN),
    }
}

pub fn write_optional_path_mappings(
    output: &mut Vec<u8>,
    mappings: &Option<Vec<DxTsconfigPathMappingPayload>>,
)
    requires
        field_fits(FieldModel::Mappings(opt_mappings(*mappings))),
    ensures
        final(output)@ == old(output)@ + encoded_field(
            FieldModel::Mappings(opt_mappings(*mappings)),
        ),
{
    match mappings {
        None => {
            write_u32(output, NONE_LEN);
        },
        Some(present) => {
            let ghost all = mapping_models(present@);
            let ghost prefix = codec::le32(all.len());
            write_u32(output, present.len() as u32);
            let mut i: usize = 0;
            assert(output@ =~= old(output)@ + (prefix + encoded_mappings(all.take(0))));
            while i < present.len()
                invariant
                    i <= present.len(),
                    all == mapping_models(present@),
                    mappings_fit(all),
                    output@ == old(output)@ + (prefix + encoded_mappings(all.take(i as int))),
                decreases present.len() - i,
            {
                let ghost before = output@;
                proof {
                    assert(all[i as int] == present@[i as int]@);
                    assert(mapping_fits(all[i as int]));
                    assert(all.take(i + 1).drop_last() =~= all.take(i as int));
                }
                write_string(output, present[i].key.as_str());
                write_string_vec(output, &present[i].values);
                proof {
                    assert(output@ =~= before + encoded_mapping(all[i as int]));
                    assert(output@ =~= old(output)@ + (prefix + encoded_mappings(
                        all.take(i + 1),
                    )));
                }
                i = i + 1;
            }
            assert(all.take(i as int) =~= all);
        },
    }
}

pub fn write_optional_bool(output: &mut Vec<u8>, value: Option<bool>)
    ensures
        final(output)@ == old(output)@ + encoded_flag(value),
{
    output.push(
        match value {
            None => 0,
            Some(present) => if present {
                2
            } else {
                1
            },
        },
    );
    assert(output@ =~= old(output)@ + encoded_flag(value));
}

/// One more field behind those that are already there.
proof fn lemma_field_written(
    start: Seq<u8>,
    before: Seq<u8>,
    after: Seq<u8>,
    done: Seq<FieldModel>,
    field: FieldModel,
)
    requires
        before == start + encoded_fields(done),
        after == before + encoded_field(field),
    ensures
        after == start + encoded_fields(done.push(field)),
{
    assert(done.push(field).drop_last() =~= done);
    assert(after =~= start + encoded_fields(done.push(field)));
}

pub fn encode_dx_tsconfig_compiler_options(
    output: &mut Vec<u8>,
    options: &DxTsconfigCompilerOptionsPayload,
)
    requires
        all_fields_fit(options@),
    ensures
        final(output)@ == old(output)@ + encoded_fields(options@),
{
    let ghost start = output@;
    let ghost mut done: Seq<FieldModel> = Seq::empty();
    let ghost mut before = output@;
    assert(before =~= start + encoded_fields(done));
    assert(field_fits(options@[0]));
    write_optional_string(output, &options.base_url);
    proof {
        lemma_field_written(start, before, output@, done, options@[0]);
        done = done.push(options@[0]);
        before = output@;
    }
    assert(field_fits(options@[1]));
    write_optional_path_mappings(output, &options.paths);
    proof {
        lemma_field_written(start, before, output@, done, options@[1]);
        done = done.push(options@[1]);
        before = output@;
    }
    assert(field_fits(options@[2]));
    write_optional_bool(output, options.experimental_decorators);
    proof {
        lemma_field_written(start, before, output@, done, options@[2]);
        done = done.push(options@[2]);
        before = output@;
    }
    assert(field_fits(options@[3]));
    write_optional_bool(output, options.emit_decorator_metadata);
    proof {
        lemma_field_written(start, before, output@, done, options@[3]);
        done = done.push(options@[3]);
        before = output@;
    }
    assert(field_fits(options@[4]));
    write_optional_bool(output, options.use_define_for_class_fields);
    proof {
        lemma_field_written(start, before, output@, done, options@[4]);
        done = done.push(options@[4]);
        before = output@;
    }
    assert(field_fits(options@[5]));
    write_optional_bool(output, options.rewrite_relative_import_extensions);
    proof {
        lemma_field_written(start, before, output@, done, options@[5]);
        done = done.push(options@[5]);
        before = output@;
    }
    assert(field_fits(options@[6]));
    write_optional_string(output, &options.jsx);
    proof {
        lemma_field_written(start, before, output@, done, options@[6]);
        done = done.push(options@[6]);
        before = output@;
    }
    assert(field_fits(options@[7]));
    write_optional_string(output, &options.jsx_factory);
    proof {
        lemma_field_written(start, before, output@, done, options@[7]);
        done = done.push(options@[7]);
        before = output@;
    }
    assert(field_fits(options@[8]));
    write_optional_string(output, &options.jsx_fragment_factory);
    proof {
        lemma_field_written(start, before, output@, done, options@[8]);
        done = done.push(options@[8]);
        before = output@;
    }
    assert(field_fits(options@[9]));
    write_optional_string(output, &options.jsx_import_source);
    proof {
        lemma_field_written(start, before, output@, done, options@[9]);
        done = done.push(options@[9]);
        before = output@;
    }
    assert(field_fits(options@[10]));
    write_optional_bool(output, options.verbatim_module_syntax);
    proof {
        lemma_field_written(start, before, output@, done, options@[10]);
        done = done.push(options@[10]);
        before = output@;
    }
    assert(field_fits(options@[11]));
    write_optional_bool(output, options.preserve_value_imports);
    proof {
        lemma_field_written(start, before, output@, done, options@[11]);
        done = done.push(options@[11]);
        before = output@;
    }
    assert(field_fits(options@[12]));
    write_optional_string(output, &options.imports_not_used_as_values);
    proof {
        lemma_field_written(start, before, output@, done, options@[12]);
        done = done.push(options@[12]);
        before = output@;
    }
    assert(field_fits(options@[13]));
    write_optional_string(output, &options.target);
    proof {
        lemma_field_written(start, before, output@, done, options@[13]);
        done = done.push(options@[13]);
        before = output@;
    }
    assert(field_fits(options@[14]));
    write_optional_string(output, &options.module);
    proof {
        lemma_field_written(start, before, output@, done, options@[14]);
        done = done.push(options@[14]);
        before = output@;
    }
    assert(field_fits(options@[15]));
    write_optional_bool(output, options.allow_js);
    proof {
        lemma_field_written(start, before, output@, done, options@[15]);
        done = done.push(options@[15]);
        before = output@;
    }
    assert(field_fits(options@[16]));
    write_optional_string_vec(output, &options.root_dirs);
    proof {
        lemma_field_written(start, before, output@, done, options@[16]);
        done = done.push(options@[16]);
        before = output@;
    }
    assert(done =~= options@);
}

// ---------------------------------------------------------------------------------------------
// Bytes: sizes

pub fn string_vec_encoded_len(values: &Vec<String>) -> (r: Option<usize>)
    ensures
        r is Some == (text_list_fits(text::texts(values@)) && encoded_text_list(
            text::texts(values@),
        ).len() <= usize::MAX),
        r matches Some(len) ==> len == encoded_text_list(text::texts(values@)).len(),
{
    if values.len() as u64 >= NONE_LEN as u64 {
        return None;
    }
    let items: usize = encoded_strings_len(values)?;
    items.checked_add(4)
}

pub fn optional_string_vec_encoded_len(values: &Option<Vec<String>>) -> (r: Option<usize>)
    ensures
        r is Some == field_len_fits(FieldModel::Texts(codec::opt_texts(*values))),
        r matches Some(len) ==> len == encoded_field(
            FieldModel::Texts(codec::opt_texts(*values)),
        ).len(),
{
    match values {
        Some(present) => string_vec_encoded_len(present),
        None => Some(4),
    }
}

/// Whether a field can be written and its size be counted.
pub open spec fn field_len_fits(field: FieldModel) -> bool {
    field_fits(field) && encoded_field(field).len() <= usize::MAX
}

proof fn lemma_encoded_mappings_len_grows(mappings: Seq<MappingModel>, count: int)
    requires
        0 <= count <= mappings.len(),
    ensures
        encoded_mappings(mappings.take(count)).len() <= encoded_mappings(mappings).len(),
    decreases mappings.len() - count,
{
    if count == mappings.len() {
        assert(mappings.take(count) =~= mappings);
    } else {
        lemma_encoded_mappings_len_grows(mappings, count + 1);
        assert(mappings.take(count + 1).drop_last() =~= mappings.take(count));
    }
}

pub fn optional_path_mappings_encoded_len(
    mappings: &Option<Vec<DxTsconfigPathMappingPayload>>,
) -> (r: Option<usize>)
    ensures
        r is Some == field_len_fits(FieldModel::Mappings(opt_mappings(*mappings))),
        r matches Some(len) ==> len == encoded_field(
            FieldModel::Mappings(opt_mappings(*mappings)),
        ).len(),
{
    match mappings {
        None => Some(4),
        Some(present) => {
            if present.len() as u64 >= NONE_LEN as u64 {
                return None;
            }
            let ghost all = mapping_models(present@);
            let mut len: usize = 4;
            let mut i: usize = 0;
            assert(encoded_mappings(all.take(0)).len() == 0);
            while i < present.len()
                invariant
                    i <= present.len(),
                    all == mapping_models(present@),
                    opt_mappings(*mappings) == Some(all),
                    forall|j: int| 0 <= j < i ==> mapping_fits(#[trigger] all[j]),
                    len == 4 + encoded_mappings(all.take(i as int)).len(),
                decreases present.len() - i,
            {
                proof {
                    assert(all[i as int] == present@[i as int]@);
                    assert(all.take(i + 1).drop_last() =~= all.take(i as int));
                    lemma_encoded_mappings_len_grows(all, i + 1);
                }
                let key: usize = encoded_string_len(present[i].key.as_str())?;
                len = len.checked_add(key)?;
                let values: usize = string_vec_encoded_len(&present[i].values)?;
                len = len.checked_add(values)?;
                i = i + 1;
            }
            assert(all.take(i as int) =~= all);
            Some(len)
        },
    }
}

proof fn lemma_encoded_fields_len_grows(fields: Seq<FieldModel>, count: int)
    requires
        0 <= count <= fields.len(),
    ensures
        encoded_fields(fields.take(count)).len() <= encoded_fields(fields).len(),
    decreases fields.len() - count,
{
    if count == fields.len() {
        assert(fields.take(count) =~= fields);
    } else {
        lemma_encoded_fields_len_grows(fields, count + 1);
        assert(fields.take(count + 1).drop_last() =~= fields.take(count));
    }
}

/// Whether fields can be written and their size be counted.
pub open spec fn fields_len_fit(fields: Seq<FieldModel>) -> bool {
    all_fields_fit(fields) && encoded_fields(fields).len() <= usize::MAX
}

/// Adds the size of the field behind the first `count`.
fn add_field_len(
    total: usize,
    field_len: Option<usize>,
    Ghost(all): Ghost<Seq<FieldModel>>,
    Ghost(count): Ghost<int>,
) -> (r: Option<usize>)
    requires
        0 <= count < all.len(),
        total == encoded_fields(all.take(count)).len(),
        field_len is Some == field_len_fits(all[count]),
        field_len matches Some(len) ==> len == encoded_field(all[count]).len(),
    ensures
        r is None ==> !fields_len_fit(all),
        r matches Some(sum) ==> field_fits(all[count]) && sum == encoded_fields(
            all.take(count + 1),
        ).len(),
{
    proof {
        lemma_encoded_fields_len_grows(all, count + 1);
        assert(all.take(count + 1).drop_last() =~= all.take(count));
        assert(all.take(count + 1).last() == all[count]);
    }
    let len: usize = field_len?;
    total.checked_add(len)
}

/// A flag takes one byte.
fn flag_encoded_len(value: Option<bool>) -> (r: Option<usize>)
    ensures
        r is Some == field_len_fits(FieldModel::Flag(value)),
        r matches Some(len) ==> len == encoded_field(FieldModel::Flag(value)).len(),
{
    Some(1)
}

fn text_encoded_len(value: &Option<String>) -> (r: Option<usize>)
    ensures
        r is Some == field_len_fits(FieldModel::Text(codec::opt_text(*value))),
        r matches Some(len) ==> len == encoded_field(
            FieldModel::Text(codec::opt_text(*value)),
        ).len(),
{
    encoded_optional_string_len(value)
}

pub fn dx_tsconfig_compiler_options_encoded_len(
    options: &DxTsconfigCompilerOptionsPayload,
) -> (r: Option<usize>)
    ensures
        r is Some == fields_len_fit(options@),
        r matches Some(len) ==> len == encoded_fields(options@).len(),
{
    let ghost all = options@;
    assert(encoded_fields(all.take(0)).len() == 0);
    let len: usize = 0;
    let field: Option<usize> = text_encoded_len(&options.base_url);
    let len: usize = add_field_len(len, field, Ghost(all), Ghost(0))?;
    let field: Option<usize> = optional_path_mappings_encoded_len(&options.paths);
    let len: usize = add_field_len(len, field, Ghost(all), Ghost(1))?;
    let field: Option<usize> = flag_encoded_len(options.experimental_decorators);
    let len: usize = add_field_len(len, field, Ghost(all), Ghost(2))?;
    let field: Option<usize> = flag_encoded_len(options.emit_decorator_metadata);
    let len: usize = add_field_len(len, field, Ghost(all), Ghost(3))?;
    let field: Option<usize> = flag_encoded_len(options.use_define_for_class_fields);
    let len: usize = add_field_len(len, field, Ghost(all), Ghost(4))?;
    let field: Option<usize> = flag_encoded_len(options.rewrite_relative_import_extensions);
    let len: usize = add_field_len(len, field, Ghost(all), Ghost(5))?;
    let field: Option<usize> = text_encoded_len(&options.jsx);
    let len: usize = add_field_len(len, field, Ghost(all), Ghost(6))?;
    let field: Option<usize> = text_encoded_len(&options.jsx_factory);
    let len: usize = add_field_len(len, field, Ghost(all), Ghost(7))?;
    let field: Option<usize> = text_encoded_len(&options.jsx_fragment_factory);
    let len: usize = add_field_len(len, field, Ghost(all), Ghost(8))?;
    let field: Option<usize> = text_encoded_len(&options.jsx_import_source);
    let len: usize = add_field_len(len, field, Ghost(all), Ghost(9))?;
    let field: Option<usize> = flag_encoded_len(options.verbatim_module_syntax);
    let len: usize = add_field_len(len, field, Ghost(all), Ghost(10))?;
    let field: Option<usize> = flag_encoded_len(options.preserve_value_imports);
    let len: usize = add_field_len(len, field, Ghost(all), Ghost(11))?;
    let field: Option<usize> = text_encoded_len(&options.imports_not_used_as_values);
    let len: usize = add_field_len(len, field, Ghost(all), Ghost(12))?;
    let field: Option<usize> = text_encoded_len(&options.target);
    let len: usize = add_field_len(len, field, Ghost(all), Ghost(13))?;
    let field: Option<usize> = text_encoded_len(&options.module);
    let len: usize = add_field_len(len, field, Ghost(all), Ghost(14))?;
    let field: Option<usize> = flag_encoded_len(options.allow_js);
    let len: usize = add_field_len(len, field, Ghost(all), Ghost(15))?;
    let field: Option<usize> = optional_string_vec_encoded_len(&options.root_dirs);
    let len: usize = add_field_len(len, field, Ghost(all), Ghost(16))?;
    assert(all.take(17) =~= all);
    Some(len)
}

pub open spec fn payload_len_fits(payload: PayloadModel) -> bool {
    payload_fits(payload) && encoded_payload(payload).len() <= usize::MAX
}

/// The exact size of a payload, where it can be written.
pub fn dx_tsconfig_machine_payload_encoded_len(payload: &DxTsconfigMachinePayload) -> (r: Option<
    usize,
>)
    ensures
        r is Some == payload_len_fits(payload@),
        r matches Some(len) ==> len == encoded_payload(payload@).len(),
{
    let ghost all = payload@.lists;
    assert(encoded_fields(all.take(0)).len() == 0);
    let len: usize = 0;
    let field: Option<usize> = optional_string_vec_encoded_len(&payload.files);
    let len: usize = add_field_len(len, field, Ghost(all), Ghost(0))?;
    let field: Option<usize> = optional_string_vec_encoded_len(&payload.included);
    let len: usize = add_field_len(len, field, Ghost(all), Ghost(1))?;
    let field: Option<usize> = optional_string_vec_encoded_len(&payload.exclude);
    let len: usize = add_field_len(len, field, Ghost(all), Ghost(2))?;
    assert(all.take(3) =~= all);
    let options: usize = dx_tsconfig_compiler_options_encoded_len(&payload.compiler_options)?;
    len.checked_add(options)?.checked_add(DX_TSCONFIG_MACHINE_HEADER_LEN)?.checked_add(
        DX_TSCONFIG_SOURCE_HASH_LEN,
    )
}

pub fn encode_dx_tsconfig_machine_payload(payload: &DxTsconfigMachinePayload) -> (r: Option<
    Vec<u8>,
>)
    ensures
        r is Some == payload_len_fits(payload@),
        r matches Some(bytes) ==> bytes@ == encoded_payload(payload@),
{
    let encoded_len: usize = dx_tsconfig_machine_payload_encoded_len(payload)?;
    let mut output: Vec<u8> = Vec::with_capacity(encoded_len);
    let magic: [u8; 8] = dx_tsconfig_machine_magic();
    write_bytes(&mut output, magic.as_slice());
    output.push(0);
    output.push(0);
    output.push(0);
    output.push(0);
    write_bytes(&mut output, payload.source_blake3.as_slice());
    let ghost all = payload@.lists;
    let ghost start = output@;
    let ghost mut before = output@;
    proof {
        assert(start =~= tsconfig_magic() + (seq![0u8, 0u8, 0u8, 0u8] + payload@.source_blake3));
        assert(all.take(0) =~= Seq::<FieldModel>::empty());
        assert(before =~= start + encoded_fields(Seq::<FieldModel>::empty()));
    }
    assert(field_fits(all[0]));
    write_optional_string_vec(&mut output, &payload.files);
    proof {
        lemma_field_written(start, before, output@, Seq::empty(), all[0]);
        before = output@;
    }
    assert(field_fits(all[1]));
    write_optional_string_vec(&mut output, &payload.included);
    proof {
        lemma_field_written(start, before, output@, Seq::empty().push(all[0]), all[1]);
        before = output@;
    }
    assert(field_fits(all[2]));
    write_optional_string_vec(&mut output, &payload.exclude);
    proof {
        lemma_field_written(
            start,
            before,
            output@,
            Seq::empty().push(all[0]).push(all[1]),
            all[2],
        );
        assert(Seq::empty().push(all[0]).push(all[1]).push(all[2]) =~= all);
    }
    encode_dx_tsconfig_compiler_options(&mut output, &payload.compiler_options);
    assert(output@ =~= encoded_payload(payload@));
    Some(output)
}

// ---------------------------------------------------------------------------------------------
// JSON

/// Texts as JSON string literals.
pub open spec fn literals(values: Seq<Seq<char>>) -> Seq<Seq<char>> {
    values.map_values(|value: Seq<char>| json_text::string_literal(value))
}

pub open spec fn array_json(values: Seq<Seq<char>>) -> Seq<char> {
    seq!['['] + text::joined(literals(values), ',') + seq![']']
}

pub open spec fn mapping_json(mapping: MappingModel) -> Seq<char> {
    json_text::string_literal(mapping.key).push(':') + array_json(mapping.values)
}

pub open spec fn mappings_json(mappings: Seq<MappingModel>) -> Seq<char> {
    seq!['{'] + text::joined(
        mappings.map_values(|mapping: MappingModel| mapping_json(mapping)),
        ',',
    ) + seq!['}']
}

pub open spec fn flag_json(value: bool) -> Seq<char> {
    if value {
        "true"@
    } else {
        "false"@
    }
}

/// The JSON value of a field, where it is present.
pub open spec fn field_json(field: FieldModel) -> Option<Seq<char>> {
    match field {
        FieldModel::Text(Some(value)) => Some(json_text::string_literal(value)),
        FieldModel::Mappings(Some(mappings)) => Some(mappings_json(mappings)),
        FieldModel::Flag(Some(value)) => Some(flag_json(value)),
        FieldModel::Texts(Some(values)) => Some(array_json(values)),
        _ => None,
    }
}

pub open spec fn property_json(name: Seq<char>, value: Seq<char>) -> Seq<char> {
    seq!['"'] + name + "\":"@ + value
}

/// The properties of the fields that are present, in order.
pub open spec fn properties(names: Seq<Seq<char>>, fields: Seq<FieldModel>) -> Seq<Seq<char>>
    decreases fields.len(),
{
    if fields.len() == 0 {
        Seq::empty()
    } else {
        let before = properties(names, fields.drop_last());
        match field_json(fields.last()) {
            Some(value) => before.push(property_json(names[fields.len() - 1], value)),
            None => before,
        }
    }
}

pub open spec fn options_json(options: Seq<FieldModel>) -> Seq<char> {
    seq!['{'] + text::joined(properties(option_names(), options), ',') + seq!['}']
}

pub open spec fn list_names() -> Seq<Seq<char>> {
    seq!["files"@, "include"@, "exclude"@]
}

/// A tsconfig file that holds what a payload holds.
pub open spec fn tsconfig_json(payload: PayloadModel) -> Seq<char> {
    seq!['{'] + text::joined(
        properties(list_names(), payload.lists).push(
            property_json("compilerOptions"@, options_json(payload.options)),
        ),
        ',',
    ) + seq!['}']
}

pub fn push_json_string(json: &mut String, value: &str) -> (r: Option<()>)
    ensures
        r is Some,
        final(json)@ == old(json)@ + json_text::string_literal(value@),
{
    match json_string_literal(value) {
        Some(literal) => {
            json.push_str(literal.as_str());
            Some(())
        },
        None => None,
    }
}

pub fn push_json_string_array(json: &mut String, values: &Vec<String>) -> (r: Option<()>)
    ensures
        r is Some,
        final(json)@ == old(json)@ + array_json(text::texts(values@)),
{
    let ghost all = literals(text::texts(values@));
    json.push('[');
    let mut i: usize = 0;
    proof {
        assert(text::joined(all.take(0), ',') =~= Seq::empty());
        assert(json@ =~= old(json)@ + (seq!['['] + text::joined(all.take(0), ',')));
    }
    while i < values.len()
        invariant
            i <= values.len(),
            all == literals(text::texts(values@)),
            json@ == old(json)@ + (seq!['['] + text::joined(all.take(i as int), ',')),
        decreases values.len() - i,
    {
        let ghost before = json@;
        let ghost item = json_text::string_literal(values@[i as int]@);
        proof {
            assert(all[i as int] == item);
            text::lemma_joined_push(all.take(i as int), item, ',');
            assert(all.take(i + 1) =~= all.take(i as int).push(item));
        }
        if i > 0 {
            json.push(',');
        }
        push_json_string(json, values[i].as_str())?;
        proof {
            if i == 0 {
                assert(all.take(0) =~= Seq::empty());
            }
            assert(json@ =~= old(json)@ + (seq!['['] + text::joined(all.take(i + 1), ',')));
        }
        i = i + 1;
    }
    json.push(']');
    proof {
        assert(all.take(i as int) =~= all);
        assert(json@ =~= old(json)@ + array_json(text::texts(values@)));
    }
    Some(())
}

fn push_json_path_mappings(json: &mut String, mappings: &Vec<DxTsconfigPathMappingPayload>) -> (r:
    Option<()>)
    ensures
        r is Some,
        final(json)@ == old(json)@ + mappings_json(mapping_models(mappings@)),
{
    let ghost all = mapping_models(mappings@).map_values(
        |mapping: MappingModel| mapping_json(mapping),
    );
    json.push('{');
    let mut i: usize = 0;
    proof {
        assert(text::joined(all.take(0), ',') =~= Seq::empty());
        assert(json@ =~= old(json)@ + (seq!['{'] + text::joined(all.take(0), ',')));
    }
    while i < mappings.len()
        invariant
            i <= mappings.len(),
            all == mapping_models(mappings@).map_values(
                |mapping: MappingModel| mapping_json(mapping),
            ),
            json@ == old(json)@ + (seq!['{'] + text::joined(all.take(i as int), ',')),
        decreases mappings.len() - i,
    {
        let ghost item = mapping_json(mappings@[i as int]@);
        proof {
            assert(all[i as int] == item);
            text::lemma_joined_push(all.take(i as int), item, ',');
            assert(all.take(i + 1) =~= all.take(i as int).push(item));
        }
        if i > 0 {
            json.push(',');
        }
        let ghost before = json@;
        push_json_string(json, mappings[i].key.as_str())?;
        json.push(':');
        push_json_string_array(json, &mappings[i].values)?;
        proof {
            assert(json@ =~= before + item);
            if i == 0 {
                assert(all.take(0) =~= Seq::empty());
            }
            assert(json@ =~= old(json)@ + (seq!['{'] + text::joined(all.take(i + 1), ',')));
        }
        i = i + 1;
    }
    json.push('}');
    proof {
        assert(all.take(i as int) =~= all);
        assert(json@ =~= old(json)@ + mappings_json(mapping_models(mappings@)));
    }
    Some(())
}

pub open spec fn comma_if(needed: bool) -> Seq<char> {
    if needed {
        seq![',']
    } else {
        Seq::empty()
    }
}

/// What one more field adds to an object.
pub open spec fn added_property(needs_comma: bool, name: Seq<char>, field: FieldModel) -> Seq<char> {
    match field_json(field) {
        Some(value) => comma_if(needs_comma) + property_json(name, value),
        None => Seq::empty(),
    }
}

pub fn push_json_property_name(json: &mut String, needs_comma: &mut bool, key: &str)
    ensures
        *final(needs_comma),
        final(json)@ == old(json)@ + comma_if(*old(needs_comma)) + seq!['"'] + key@ + "\":"@,
        *old(needs_comma) ==> final(json)@ == old(json)@.push(',') + seq!['"'] + key@ + "\":"@,
        !*old(needs_comma) ==> final(json)@ == old(json)@ + seq!['"'] + key@ + "\":"@,
{
    if *needs_comma {
        json.push(',');
    } else {
        *needs_comma = true;
    }
    json.push('"');
    json.push_str(key);
    json.push_str("\":");
    assert(json@ =~= old(json)@ + comma_if(*old(needs_comma)) + seq!['"'] + key@ + "\":"@);
}

pub fn push_json_string_property(
    json: &mut String,
    needs_comma: &mut bool,
    key: &str,
    value: &Option<String>,
) -> (r: Option<()>)
    ensures
        r is Some,
        *final(needs_comma) == (*old(needs_comma) || *value is Some),
        final(json)@ == old(json)@ + added_property(
            *old(needs_comma),
            key@,
            FieldModel::Text(codec::opt_text(*value)),
        ),
{
    match value {
        None => {},
        Some(present) => {
            push_json_property_name(json, needs_comma, key);
            push_json_string(json, present.as_str())?;
        },
    }
    assert(json@ =~= old(json)@ + added_property(
        *old(needs_comma),
        key@,
        FieldModel::Text(codec::opt_text(*value)),
    ));
    Some(())
}

pub fn push_json_bool_property(
    json: &mut String,
    needs_comma: &mut bool,
    key: &str,
    value: Option<bool>,
)
    ensures
        *final(needs_comma) == (*old(needs_comma) || value is Some),
        final(json)@ == old(json)@ + added_property(
            *old(needs_comma),
            key@,
            FieldModel::Flag(value),
        ),
        value == Some(true) ==> final(json)@ == old(json)@ + comma_if(*old(needs_comma)) + seq!['"']
            + key@ + "\":true"@,
        value == Some(false) ==> final(json)@ == old(json)@ + comma_if(*old(needs_comma)) + seq!['"']
            + key@ + "\":false"@,
        value is None ==> final(json)@ == old(json)@,
{
    proof {
        reveal_strlit("\":");
        reveal_strlit("true");
        reveal_strlit("false");
        reveal_strlit("\":true");
        reveal_strlit("\":false");
        assert("\":true"@ =~= "\":"@ + "true"@);
        assert("\":false"@ =~= "\":"@ + "false"@);
    }
    match value {
        None => {},
        Some(present) => {
            push_json_property_name(json, needs_comma, key);
            json.push_str(
                if present {
                    "true"
                } else {
                    "false"
                },
            );
        },
    }
    assert(json@ =~= old(json)@ + added_property(
        *old(needs_comma),
        key@,
        FieldModel::Flag(value),
    ));
}

pub fn push_json_string_array_property(
    json: &mut String,
    needs_comma: &mut bool,
    key: &str,
    value: &Option<Vec<String>>,
) -> (r: Option<()>)
    ensures
        r is Some,
        *final(needs_comma) == (*old(needs_comma) || *value is Some),
        final(json)@ == old(json)@ + added_property(
            *old(needs_comma),
            key@,
            FieldModel::Texts(codec::opt_texts(*value)),
        ),
{
    match value {
        None => {},
        Some(present) => {
            push_json_property_name(json, needs_comma, key);
            push_json_string_array(json, present)?;
        },
    }
    assert(json@ =~= old(json)@ + added_property(
        *old(needs_comma),
        key@,
        FieldModel::Texts(codec::opt_texts(*value)),
    ));
    Some(())
}

pub fn push_json_paths_property(
    json: &mut String,
    needs_comma: &mut bool,
    paths: &Option<Vec<DxTsconfigPathMappingPayload>>,
) -> (r: Option<()>)
    ensures
        r is Some,
        *final(needs_comma) == (*old(needs_comma) || *paths is Some),
        final(json)@ == old(json)@ + added_property(
            *old(needs_comma),
            "paths"@,
            FieldModel::Mappings(opt_mappings(*paths)),
        ),
{
    match paths {
        None => {},
        Some(present) => {
            push_json_property_name(json, needs_comma, "paths");
            push_json_path_mappings(json, present)?;
        },
    }
    assert(json@ =~= old(json)@ + added_property(
        *old(needs_comma),
        "paths"@,
        FieldModel::Mappings(opt_mappings(*paths)),
    ));
    Some(())
}

/// One more field behind the properties that are already there.
proof fn lemma_property_pushed(
    start: Seq<char>,
    before: Seq<char>,
    after: Seq<char>,
    names: Seq<Seq<char>>,
    all: Seq<FieldModel>,
    count: int,
    needed: bool,
)
    requires
        0 <= count < all.len(),
        needed == (properties(names, all.take(count)).len() > 0),
        before == start + text::joined(properties(names, all.take(count)), ','),
        after == before + added_property(needed, names[count], all[count]),
    ensures
        after == start + text::joined(properties(names, all.take(count + 1)), ','),
        (properties(names, all.take(count + 1)).len() > 0) == (needed || field_json(
            all[count],
        ) is Some),
{
    let done = properties(names, all.take(count));
    assert(all.take(count + 1).drop_last() =~= all.take(count));
    assert(all.take(count + 1).last() == all[count]);
    match field_json(all[count]) {
        Some(value) => {
            let property = property_json(names[count], value);
            text::lemma_joined_push(done, property, ',');
            if done.len() == 0 {
                assert(text::joined(done, ',') =~= Seq::empty());
            }
            assert(after =~= start + text::joined(done.push(property), ','));
        },
        None => {
            assert(after =~= before);
        },
    }
}

impl DxTsconfigCompilerOptionsPayload {
    pub fn push_compiler_options_json(&self, json: &mut String) -> (r: Option<()>)
        ensures
            r is Some,
            final(json)@ == old(json)@ + options_json(self@),
    {
        let ghost all = self@;
        let ghost names = option_names();
        json.push('{');
        let mut needs_comma: bool = false;
        let ghost start = json@;
        let ghost mut before = json@;
        let ghost mut needed = false;
        proof {
            assert(text::joined(properties(names, all.take(0)), ',') =~= Seq::empty());
            assert(before =~= start + text::joined(properties(names, all.take(0)), ','));
        }
        push_json_string_property(json, &mut needs_comma, "baseUrl", &self.base_url)?;
        proof {
            lemma_property_pushed(start, before, json@, names, all, 0, needed);
            before = json@;
            needed = needs_comma;
        }
        push_json_paths_property(json, &mut needs_comma, &self.paths)?;
        proof {
            lemma_property_pushed(start, before, json@, names, all, 1, needed);
            before = json@;
            needed = needs_comma;
        }
        push_json_bool_property(json, &mut needs_comma, "experimentalDecorators", self.experimental_decorators);
        proof {
            lemma_property_pushed(start, before, json@, names, all, 2, needed);
            before = json@;
            needed = needs_comma;
        }
        push_json_bool_property(json, &mut needs_comma, "emitDecoratorMetadata", self.emit_decorator_metadata);
        proof {
            lemma_property_pushed(start, before, json@, names, all, 3, needed);
            before = json@;
            needed = needs_comma;
        }
        push_json_bool_property(json, &mut needs_comma, "useDefineForClassFields", self.use_define_for_class_fields);
        proof {
            lemma_property_pushed(start, before, json@, names, all, 4, needed);
            before = json@;
            needed = needs_comma;
        }
        push_json_bool_property(json, &mut needs_comma, "rewriteRelativeImportExtensions", self.rewrite_relative_import_extensions);
        proof {
            lemma_property_pushed(start, before, json@, names, all, 5, needed);
            before = json@;
            needed = needs_comma;
        }
        push_json_string_property(json, &mut needs_comma, "jsx", &self.jsx)?;
        proof {
            lemma_property_pushed(start, before, json@, names, all, 6, needed);
            before = json@;
            needed = needs_comma;
        }
        push_json_string_property(json, &mut needs_comma, "jsxFactory", &self.jsx_factory)?;
        proof {
            lemma_property_pushed(start, before, json@, names, all, 7, needed);
            before = json@;
            needed = needs_comma;
        }
        push_json_string_property(json, &mut needs_comma, "jsxFragmentFactory", &self.jsx_fragment_factory)?;
        proof {
            lemma_property_pushed(start, before, json@, names, all, 8, needed);
            before = json@;
            needed = needs_comma;
        }
        push_json_string_property(json, &mut needs_comma, "jsxImportSource", &self.jsx_import_source)?;
        proof {
            lemma_property_pushed(start, before, json@, names, all, 9, needed);
            before = json@;
            needed = needs_comma;
        }
        push_json_bool_property(json, &mut needs_comma, "verbatimModuleSyntax", self.verbatim_module_syntax);
        proof {
            lemma_property_pushed(start, before, json@, names, all, 10, needed);
            before = json@;
            needed = needs_comma;
        }
        push_json_bool_property(json, &mut needs_comma, "preserveValueImports", self.preserve_value_imports);
        proof {
            lemma_property_pushed(start, before, json@, names, all, 11, needed);
            before = json@;
            needed = needs_comma;
        }
        push_json_string_property(json, &mut needs_comma, "importsNotUsedAsValues", &self.imports_not_used_as_values)?;
        proof {
            lemma_property_pushed(start, before, json@, names, all, 12, needed);
            before = json@;
            needed = needs_comma;
        }
        push_json_string_property(json, &mut needs_comma, "target", &self.target)?;
        proof {
            lemma_property_pushed(start, before, json@, names, all, 13, needed);
            before = json@;
            needed = needs_comma;
        }
        push_json_string_property(json, &mut needs_comma, "module", &self.module)?;
        proof {
            lemma_property_pushed(start, before, json@, names, all, 14, needed);
            before = json@;
            needed = needs_comma;
        }
        push_json_bool_property(json, &mut needs_comma, "allowJs", self.allow_js);
        proof {
            lemma_property_pushed(start, before, json@, names, all, 15, needed);
            before = json@;
            needed = needs_comma;
        }
        push_json_string_array_property(json, &mut needs_comma, "rootDirs", &self.root_dirs)?;
        proof {
            lemma_property_pushed(start, before, json@, names, all, 16, needed);
            before = json@;
            needed = needs_comma;
        }
        json.push('}');
        proof {
            assert(all.take(17) =~= all);
            assert(json@ =~= old(json)@ + options_json(self@));
        }
        Some(())
    }
}

impl DxTsconfigMachinePayload {
    /// An empty text with room for the JSON.
    fn empty_json(&self) -> (json: String)
        ensures
            json@ == Seq::<char>::empty(),
    {
        text_with_room(self.tsconfig_json_string_capacity_hint())
    }

    #[verifier::spinoff_prover]
    #[verifier::rlimit(40)]
    pub fn to_tsconfig_json_string(&self) -> (r: Option<String>)
        ensures
            r is Some,
            r matches Some(json) ==> json@ == tsconfig_json(self@),
            r matches Some(json) ==> tsconfig_reading::holds_payload(json@, *self),
    {
        proof {
            tsconfig_reading::lemma_json_holds_payload(*self);
        }
        let ghost all = self@.lists;
        let ghost names = list_names();
        let mut json: String = self.empty_json();
        json.push('{');
        let mut needs_comma: bool = false;
        let ghost start = json@;
        let ghost mut before = json@;
        let ghost mut needed = false;
        proof {
            assert(text::joined(properties(names, all.take(0)), ',') =~= Seq::empty());
            assert(before =~= start + text::joined(properties(names, all.take(0)), ','));
        }
        push_json_string_array_property(&mut json, &mut needs_comma, "files", &self.files)?;
        proof {
            lemma_property_pushed(start, before, json@, names, all, 0, needed);
            before = json@;
            needed = needs_comma;
        }
        push_json_string_array_property(&mut json, &mut needs_comma, "include", &self.included)?;
        proof {
            lemma_property_pushed(start, before, json@, names, all, 1, needed);
            before = json@;
            needed = needs_comma;
        }
        push_json_string_array_property(&mut json, &mut needs_comma, "exclude", &self.exclude)?;
        proof {
            lemma_property_pushed(start, before, json@, names, all, 2, needed);
            before = json@;
            needed = needs_comma;
            assert(all.take(3) =~= all);
        }
        push_json_property_name(&mut json, &mut needs_comma, "compilerOptions");
        self.compiler_options.push_compiler_options_json(&mut json)?;
        json.push('}');
        proof {
            let done = properties(names, all);
            let last = property_json("compilerOptions"@, options_json(self@.options));
            text::lemma_joined_push(done, last, ',');
            if done.len() == 0 {
                assert(text::joined(done, ',') =~= Seq::empty());
            }
            assert(json@ =~= tsconfig_json(self@));
        }
        Some(json)
    }

    /// Room for the JSON of a payload without many escapes.
    pub fn tsconfig_json_string_capacity_hint(&self) -> (hint: usize)
        ensures
            hint == text::capped(
                22 + text_list_hint(codec::opt_texts(self.files)) + text_list_hint(
                    codec::opt_texts(self.included),
                ) + text_list_hint(codec::opt_texts(self.exclude)) + options_hint(
                    self.compiler_options,
                ),
            ),
    {
        let files: usize = optional_string_array_json_capacity_hint(&self.files);
        let included: usize = optional_string_array_json_capacity_hint(&self.included);
        let exclude: usize = optional_string_array_json_capacity_hint(&self.exclude);
        let options: usize = self.compiler_options.compiler_options_json_capacity_hint();
        let fixed: usize = 22;
        fixed.saturating_add(files).saturating_add(included).saturating_add(
            exclude,
        ).saturating_add(options)
    }
}

pub open spec fn text_hint(value: Option<Seq<char>>) -> nat {
    match value {
        Some(present) => encode_utf8(present).len() + 16,
        None => 0,
    }
}

pub open spec fn flag_hint(value: Option<bool>) -> nat {
    if value is Some {
        8
    } else {
        0
    }
}

pub open spec fn texts_hint(values: Seq<Seq<char>>) -> nat
    decreases values.len(),
{
    if values.len() == 0 {
        2
    } else {
        texts_hint(values.drop_last()) + encode_utf8(values.last()).len() + 3
    }
}

pub open spec fn text_list_hint(values: Option<Seq<Seq<char>>>) -> nat {
    match values {
        Some(present) => texts_hint(present),
        None => 0,
    }
}

pub open spec fn mappings_hint(mappings: Seq<MappingModel>) -> nat
    decreases mappings.len(),
{
    if mappings.len() == 0 {
        2
    } else {
        mappings_hint(mappings.drop_last()) + encode_utf8(mappings.last().key).len() + 3
            + texts_hint(mappings.last().values)
    }
}

pub open spec fn opt_mappings_hint(mappings: Option<Seq<MappingModel>>) -> nat {
    match mappings {
        Some(present) => mappings_hint(present),
        None => 0,
    }
}

pub open spec fn field_hint(field: FieldModel) -> nat {
    match field {
        FieldModel::Text(value) => text_hint(value),
        FieldModel::Mappings(value) => opt_mappings_hint(value),
        FieldModel::Flag(value) => flag_hint(value),
        FieldModel::Texts(value) => text_list_hint(value),
    }
}

/// Two for the braces, and the room of each field.
pub open spec fn fields_hint(fields: Seq<FieldModel>) -> nat
    decreases fields.len(),
{
    if fields.len() == 0 {
        2
    } else {
        fields_hint(fields.drop_last()) + field_hint(fields.last())
    }
}

pub open spec fn options_hint(options: DxTsconfigCompilerOptionsPayload) -> nat {
    fields_hint(options@)
}

pub fn optional_string_json_capacity_hint(value: &Option<String>) -> (hint: usize)
    ensures
        hint == text::capped(text_hint(codec::opt_text(*value))),
        *value is None ==> hint == 0,
        value matches Some(present) ==> hint == text::capped(encode_utf8(present@).len() + 16),
{
    match value {
        Some(present) => byte_len(present.as_str()).saturating_add(16),
        None => 0,
    }
}

pub fn optional_bool_json_capacity_hint(value: Option<bool>) -> (hint: usize)
    ensures
        hint == flag_hint(value),
        hint == 0 <==> value is None,
        value is Some ==> hint == 8,
{
    match value {
        Some(_) => 8,
        None => 0,
    }
}

fn string_array_json_capacity_hint(values: &Vec<String>) -> (hint: usize)
    ensures
        hint == text::capped(texts_hint(text::texts(values@))),
{
    let ghost all = text::texts(values@);
    let mut hint: usize = 2;
    let mut i: usize = 0;
    assert(all.take(0) =~= Seq::empty());
    while i < values.len()
        invariant
            i <= values.len(),
            all == text::texts(values@),
            hint == text::capped(texts_hint(all.take(i as int))),
        decreases values.len() - i,
    {
        proof {
            assert(all.take(i + 1).drop_last() =~= all.take(i as int));
            assert(all.take(i + 1).last() == values@[i as int]@);
        }
        hint = hint.saturating_add(byte_len(values[i].as_str())).saturating_add(3);
        i = i + 1;
    }
    assert(all.take(i as int) =~= all);
    hint
}

pub fn optional_string_array_json_capacity_hint(values: &Option<Vec<String>>) -> (hint: usize)
    ensures
        hint == text::capped(text_list_hint(codec::opt_texts(*values))),
{
    match values {
        Some(present) => string_array_json_capacity_hint(present),
        None => 0,
    }
}

pub fn optional_path_mappings_json_capacity_hint(
    mappings: &Option<Vec<DxTsconfigPathMappingPayload>>,
) -> (hint: usize)
    ensures
        hint == text::capped(opt_mappings_hint(opt_mappings(*mappings))),
{
    match mappings {
        None => 0,
        Some(present) => {
            let ghost all = mapping_models(present@);
            let mut hint: usize = 2;
            let mut i: usize = 0;
            assert(all.take(0) =~= Seq::empty());
            while i < present.len()
                invariant
                    i <= present.len(),
                    all == mapping_models(present@),
                    hint == text::capped(mappings_hint(all.take(i as int))),
                decreases present.len() - i,
            {
                proof {
                    assert(all.take(i + 1).drop_last() =~= all.take(i as int));
                    assert(all.take(i + 1).last() == present@[i as int]@);
                }
                hint = hint.saturating_add(byte_len(present[i].key.as_str())).saturating_add(
                    3,
                ).saturating_add(string_array_json_capacity_hint(&present[i].values));
                i = i + 1;
            }
            assert(all.take(i as int) =~= all);
            hint
        },
    }
}

/// Adds the room of the field behind the first `count`.
fn add_hint(
    total: usize,
    hint: usize,
    Ghost(all): Ghost<Seq<FieldModel>>,
    Ghost(count): Ghost<int>,
) -> (sum: usize)
    requires
        0 <= count < all.len(),
        total == text::capped(fields_hint(all.take(count))),
        hint == text::capped(field_hint(all[count])),
    ensures
        sum == text::capped(fields_hint(all.take(count + 1))),
{
    proof {
        assert(all.take(count + 1).drop_last() =~= all.take(count));
        assert(all.take(count + 1).last() == all[count]);
    }
    total.saturating_add(hint)
}

impl DxTsconfigCompilerOptionsPayload {
    pub fn compiler_options_json_capacity_hint(&self) -> (hint: usize)
        ensures
            hint == text::capped(options_hint(*self)),
    {
        let ghost all = self@;
        assert(all.take(0) =~= Seq::empty());
        let total: usize = 2;
        let hint: usize = optional_string_json_capacity_hint(&self.base_url);
        let total: usize = add_hint(total, hint, Ghost(all), Ghost(0));
        let hint: usize = optional_path_mappings_json_capacity_hint(&self.paths);
        let total: usize = add_hint(total, hint, Ghost(all), Ghost(1));
        let hint: usize = optional_bool_json_capacity_hint(self.experimental_decorators);
        let total: usize = add_hint(total, hint, Ghost(all), Ghost(2));
        let hint: usize = optional_bool_json_capacity_hint(self.emit_decorator_metadata);
        let total: usize = add_hint(total, hint, Ghost(all), Ghost(3));
        let hint: usize = optional_bool_json_capacity_hint(self.use_define_for_class_fields);
        let total: usize = add_hint(total, hint, Ghost(all), Ghost(4));
        let hint: usize = optional_bool_json_capacity_hint(self.rewrite_relative_import_extensions);
        let total: usize = add_hint(total, hint, Ghost(all), Ghost(5));
        let hint: usize = optional_string_json_capacity_hint(&self.jsx);
        let total: usize = add_hint(total, hint, Ghost(all), Ghost(6));
        let hint: usize = optional_string_json_capacity_hint(&self.jsx_factory);
        let total: usize = add_hint(total, hint, Ghost(all), Ghost(7));
        let hint: usize = optional_string_json_capacity_hint(&self.jsx_fragment_factory);
        let total: usize = add_hint(total, hint, Ghost(all), Ghost(8));
        let hint: usize = optional_string_json_capacity_hint(&self.jsx_import_source);
        let total: usize = add_hint(total, hint, Ghost(all), Ghost(9));
        let hint: usize = optional_bool_json_capacity_hint(self.verbatim_module_syntax);
        let total: usize = add_hint(total, hint, Ghost(all), Ghost(10));
        let hint: usize = optional_bool_json_capacity_hint(self.preserve_value_imports);
        let total: usize = add_hint(total, hint, Ghost(all), Ghost(11));
        let hint: usize = optional_string_json_capacity_hint(&self.imports_not_used_as_values);
        let total: usize = add_hint(total, hint, Ghost(all), Ghost(12));
        let hint: usize = optional_string_json_capacity_hint(&self.target);
        let total: usize = add_hint(total, hint, Ghost(all), Ghost(13));
        let hint: usize = optional_string_json_capacity_hint(&self.module);
        let total: usize = add_hint(total, hint, Ghost(all), Ghost(14));
        let hint: usize = optional_bool_json_capacity_hint(self.allow_js);
        let total: usize = add_hint(total, hint, Ghost(all), Ghost(15));
        let hint: usize = optional_string_array_json_capacity_hint(&self.root_dirs);
        let total: usize = add_hint(total, hint, Ghost(all), Ghost(16));
        assert(all.take(17) =~= all);
        total
    }
}

// ---------------------------------------------------------------------------------------------
// Bytes: what is read stands there as it is written

proof fn lemma_text_list_read_is_written(rest: Seq<u8>)
    requires
        text_list_at(rest) is Some,
    ensures
        rest == encoded_text_list((text_list_at(rest)->0).0) + (text_list_at(rest)->0).1,
{
    codec::lemma_u32_read_is_written(rest);
    let (count, after) = codec::u32_at(rest)->0;
    codec::lemma_texts_read_is_written(after, count);
    let (values, end) = text_list_at(rest)->0;
    assert(encoded_text_list(values) + end =~= codec::le32(count) + (codec::encoded_texts(values)
        + end));
}

proof fn lemma_mapping_read_is_written(rest: Seq<u8>)
    requires
        mapping_at(rest) is Some,
    ensures
        rest == encoded_mapping((mapping_at(rest)->0).0) + (mapping_at(rest)->0).1,
{
    reveal(mapping_at);
    codec::lemma_text_read_is_written(rest);
    let (key, at_values) = codec::text_at(rest)->0;
    lemma_text_list_read_is_written(at_values);
    let (mapping, after) = mapping_at(rest)->0;
    assert(encoded_mapping(mapping) + after =~= codec::encoded_text(key) + (encoded_text_list(
        mapping.values,
    ) + after));
}

proof fn lemma_mappings_read_is_written(rest: Seq<u8>, count: nat)
    requires
        mappings_at(rest, count) is Some,
    ensures
        ({
            let (mappings, after) = mappings_at(rest, count)->0;
            mappings.len() == count && rest == encoded_mappings(mappings) + after
        }),
    decreases count,
{
    let (mappings, after) = mappings_at(rest, count)->0;
    if count == 0 {
        assert(encoded_mappings(mappings) + after =~= rest);
    } else {
        lemma_mapping_read_is_written(rest);
        let (first, behind) = mapping_at(rest)->0;
        lemma_mappings_read_is_written(behind, (count - 1) as nat);
        let (others, end) = mappings_at(behind, (count - 1) as nat)->0;
        assert(mappings.skip(1) =~= others);
        lemma_encoded_mappings_first(mappings);
        assert(encoded_mappings(mappings) + after =~= encoded_mapping(first) + (encoded_mappings(
            others,
        ) + after));
    }
}

proof fn lemma_field_read_is_written(rest: Seq<u8>, kind: FieldKind)
    requires
        field_at(rest, kind) is Some,
    ensures
        ({
            let (field, after) = field_at(rest, kind)->0;
            kind_of(field) == kind && rest == encoded_field(field) + after
        }),
{
    reveal(field_at);
    let (field, after) = field_at(rest, kind)->0;
    match kind {
        FieldKind::Text => {
            codec::lemma_optional_text_read_is_written(rest);
        },
        FieldKind::Flag => {
            assert(rest =~= seq![rest[0]] + rest.skip(1));
        },
        FieldKind::Mappings => {
            codec::lemma_u32_read_is_written(rest);
            let (count, behind) = codec::u32_at(rest)->0;
            if count != NONE_LEN {
                lemma_mappings_read_is_written(behind, count);
            }
            assert(encoded_field(field) + after =~= rest);
        },
        FieldKind::Texts => {
            codec::lemma_u32_read_is_written(rest);
            let (count, behind) = codec::u32_at(rest)->0;
            if count != NONE_LEN {
                codec::lemma_texts_read_is_written(behind, count);
            }
            assert(encoded_field(field) + after =~= rest);
        },
    }
}

proof fn lemma_fields_read_is_written(rest: Seq<u8>, kinds: Seq<FieldKind>)
    requires
        fields_at(rest, kinds) is Some,
    ensures
        ({
            let (fields, after) = fields_at(rest, kinds)->0;
            kinds_of(fields) == kinds && rest == encoded_fields(fields) + after
        }),
    decreases kinds.len(),
{
    reveal(fields_at);
    let (fields, after) = fields_at(rest, kinds)->0;
    if kinds.len() == 0 {
        assert(encoded_fields(fields) + after =~= rest);
        assert(kinds_of(fields) =~= kinds);
    } else {
        lemma_field_read_is_written(rest, kinds[0]);
        let (first, behind) = field_at(rest, kinds[0])->0;
        lemma_fields_read_is_written(behind, kinds.skip(1));
        let (others, end) = fields_at(behind, kinds.skip(1))->0;
        assert(fields.skip(1) =~= others);
        lemma_encoded_fields_first(fields);
        assert(encoded_fields(fields) + after =~= encoded_field(first) + (encoded_fields(others)
            + after));
        assert(kinds_of(fields) =~= seq![kind_of(first)] + kinds_of(others));
        assert(seq![kinds[0]] + kinds.skip(1) =~= kinds);
    }
}

/// A payload that is read is the one that is written for it, and it has one field of each kind, in
/// order.
pub proof fn lemma_decoded_payload_encodes_back(bytes: Seq<u8>)
    ensures
        decoded_payload(bytes) matches Some(payload) ==> encoded_payload(payload) == bytes
            && kinds_of(payload.lists) == list_kinds() && kinds_of(payload.options)
            == option_kinds(),
{
    if let Some(payload) = decoded_payload(bytes) {
        let body = bytes.skip(44);
        lemma_fields_read_is_written(body, list_kinds());
        let (lists, at_options) = fields_at(body, list_kinds())->0;
        lemma_fields_read_is_written(at_options, option_kinds());
        let (options, after) = fields_at(at_options, option_kinds())->0;
        assert(encoded_fields(options) + after =~= encoded_fields(options));
        assert(tsconfig_magic() =~= bytes.subrange(0, 8));
        assert(bytes =~= bytes.subrange(0, 8) + (bytes.subrange(8, 12) + (bytes.subrange(12, 44)
            + body)));
        assert(encoded_payload(payload) =~= bytes);
    }
}

/// The room for a list of texts is that of its parts, and the brackets once.
pub proof fn lemma_texts_hint(left: Seq<Seq<char>>, right: Seq<Seq<char>>, one: Seq<char>)
    ensures
        texts_hint(left + right) + 2 == texts_hint(left) + texts_hint(right),
        texts_hint(seq![one]) == encode_utf8(one).len() + 5,
        texts_hint(Seq::empty()) == 2,
    decreases right.len(),
{
    reveal_with_fuel(texts_hint, 2);
    assert(seq![one].drop_last() =~= Seq::<Seq<char>>::empty());
    if right.len() == 0 {
        assert(left + right =~= left);
    } else {
        lemma_texts_hint(left, right.drop_last(), one);
        assert((left + right).drop_last() =~= left + right.drop_last());
    }
}

/// The room for path mappings is that of its parts, and the braces once.
pub proof fn lemma_mappings_hint(
    left: Seq<MappingModel>,
    right: Seq<MappingModel>,
    one: MappingModel,
)
    ensures
        mappings_hint(left + right) + 2 == mappings_hint(left) + mappings_hint(right),
        mappings_hint(seq![one]) == encode_utf8(one.key).len() + 5 + texts_hint(one.values),
        mappings_hint(Seq::empty()) == 2,
    decreases right.len(),
{
    reveal_with_fuel(mappings_hint, 2);
    assert(seq![one].drop_last() =~= Seq::<MappingModel>::empty());
    if right.len() == 0 {
        assert(left + right =~= left);
    } else {
        lemma_mappings_hint(left, right.drop_last(), one);
        assert((left + right).drop_last() =~= left + right.drop_last());
    }
}

/// The room for compiler options is that of its fields, and the braces once; a field that is absent
/// takes none.
pub proof fn lemma_fields_hint(left: Seq<FieldModel>, right: Seq<FieldModel>, one: FieldModel)
    ensures
        fields_hint(left + right) + 2 == fields_hint(left) + fields_hint(right),
        fields_hint(Seq::empty()) == 2,
        fields_hint(seq![one]) == 2 + match one {
            FieldModel::Text(Some(value)) => encode_utf8(value).len() + 16,
            FieldModel::Flag(Some(_)) => 8,
            FieldModel::Texts(Some(values)) => texts_hint(values),
            FieldModel::Mappings(Some(mappings)) => mappings_hint(mappings),
            _ => 0,
        },
    decreases right.len(),
{
    reveal_with_fuel(fields_hint, 2);
    assert(seq![one].drop_last() =~= Seq::<FieldModel>::empty());
    if right.len() == 0 {
        assert(left + right =~= left);
    } else {
        lemma_fields_hint(left, right.drop_last(), one);
        assert((left + right).drop_last() =~= left + right.drop_last());
    }
}

} // verus!
