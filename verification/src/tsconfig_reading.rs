//! What a reader finds in the JSON of a tsconfig payload.

use vstd::prelude::*;
use crate::codec;
use crate::core_json;
use crate::json_module;
use crate::json_read;
use crate::json_text;
use crate::text;
use crate::tsconfig;
use crate::tsconfig::DxTsconfigMachinePayload;

verus! {

// ---------------------------------------------------------------------------------------------
// Values

pub open spec fn text_value(value: Option<Seq<char>>) -> Option<core_json::JsonModel> {
    match value {
        Some(present) => Some(core_json::JsonModel::Text(present)),
        None => None,
    }
}

pub open spec fn flag_value(value: Option<bool>) -> Option<core_json::JsonModel> {
    match value {
        Some(present) => Some(core_json::JsonModel::Bool(present)),
        None => None,
    }
}

pub open spec fn array_value(values: Seq<Seq<char>>) -> core_json::JsonModel {
    core_json::JsonModel::Array(
        values.map_values(|value: Seq<char>| core_json::JsonModel::Text(value)),
    )
}

pub open spec fn list_value(values: Option<Seq<Seq<char>>>) -> Option<core_json::JsonModel> {
    match values {
        Some(present) => Some(array_value(present)),
        None => None,
    }
}

pub open spec fn paths_value(mappings: Option<Seq<tsconfig::MappingModel>>) -> Option<
    core_json::JsonModel,
> {
    match mappings {
        Some(present) => Some(
            core_json::JsonModel::Object(
                present.map_values(
                    |mapping: tsconfig::MappingModel| (mapping.key, array_value(mapping.values)),
                ),
            ),
        ),
        None => None,
    }
}

pub open spec fn field_value(field: tsconfig::FieldModel) -> Option<core_json::JsonModel> {
    match field {
        tsconfig::FieldModel::Text(value) => text_value(value),
        tsconfig::FieldModel::Mappings(value) => paths_value(value),
        tsconfig::FieldModel::Flag(value) => flag_value(value),
        tsconfig::FieldModel::Texts(value) => list_value(value),
    }
}

/// Fields of one kind with the same value are the same.
proof fn lemma_field_value_tells_apart(left: tsconfig::FieldModel, right: tsconfig::FieldModel)
    requires
        tsconfig::kind_of(left) == tsconfig::kind_of(right),
        field_value(left) == field_value(right),
    ensures
        left == right,
{
    match (left, right) {
        (tsconfig::FieldModel::Texts(Some(l)), tsconfig::FieldModel::Texts(Some(r))) => {
            lemma_array_value_tells_apart(l, r);
        },
        (tsconfig::FieldModel::Mappings(Some(l)), tsconfig::FieldModel::Mappings(Some(r))) => {
            let pair = |mapping: tsconfig::MappingModel| (mapping.key, array_value(mapping.values));
            let ls = l.map_values(pair);
            let rs = r.map_values(pair);
            assert(ls == rs);
            assert(ls.len() == l.len() && rs.len() == r.len());
            assert forall|i: int| 0 <= i < l.len() implies l[i] == r[i] by {
                assert(ls[i] == rs[i]);
                assert(ls[i].0 == l[i].key && rs[i].0 == r[i].key);
                assert(ls[i].1 == array_value(l[i].values) && rs[i].1 == array_value(r[i].values));
                lemma_array_value_tells_apart(l[i].values, r[i].values);
            }
            assert(l =~= r);
        },
        _ => {},
    }
}

proof fn lemma_array_value_tells_apart(left: Seq<Seq<char>>, right: Seq<Seq<char>>)
    requires
        array_value(left) == array_value(right),
    ensures
        left == right,
{
    let make = |value: Seq<char>| core_json::JsonModel::Text(value);
    let l = left.map_values(make);
    let r = right.map_values(make);
    assert(array_value(left) == core_json::JsonModel::Array(l));
    assert(array_value(right) == core_json::JsonModel::Array(r));
    assert(l == r);
    assert(l.len() == left.len() && r.len() == right.len());
    assert forall|i: int| 0 <= i < left.len() implies left[i] == right[i] by {
        assert(l[i] == r[i]);
        assert(l[i] == core_json::JsonModel::Text(left[i]));
        assert(r[i] == core_json::JsonModel::Text(right[i]));
    }
    assert(left =~= right);
}

// ---------------------------------------------------------------------------------------------
// The text of a value

proof fn lemma_array_text(values: Seq<Seq<char>>, count: nat)
    requires
        count <= values.len(),
    ensures
        json_module::compact_items(
            values.map_values(|value: Seq<char>| core_json::JsonModel::Text(value)),
            count,
        ) == text::joined(tsconfig::literals(values).take(count as int), ','),
    decreases count,
{
    let items = values.map_values(|value: Seq<char>| core_json::JsonModel::Text(value));
    let parts = tsconfig::literals(values);
    if count > 0 {
        lemma_array_text(values, (count - 1) as nat);
        let before = parts.take(count - 1);
        let own = json_text::string_literal(values[count - 1]);
        assert(items[count - 1] == core_json::JsonModel::Text(values[count - 1]));
        assert(parts.take(count as int) =~= before.push(own));
        text::lemma_joined_push(before, own, ',');
        assert(json_module::compact_text(items[count - 1]) == own);
    } else {
        assert(text::joined(parts.take(0), ',') =~= Seq::empty());
    }
}

proof fn lemma_array_json(values: Seq<Seq<char>>)
    ensures
        tsconfig::array_json(values) == json_module::compact_text(array_value(values)),
{
    lemma_array_text(values, values.len());
    assert(tsconfig::literals(values).take(values.len() as int) =~= tsconfig::literals(values));
}

proof fn lemma_entries_text(
    entries: Seq<(Seq<char>, core_json::JsonModel)>,
    parts: Seq<Seq<char>>,
    count: nat,
)
    requires
        entries.len() == parts.len(),
        count <= parts.len(),
        forall|i: int|
            0 <= i < parts.len() ==> #[trigger] parts[i] == json_text::string_literal(
                entries[i].0,
            ).push(':') + json_module::compact_text(entries[i].1),
    ensures
        json_module::compact_entries(entries, count) == text::joined(
            parts.take(count as int),
            ',',
        ),
    decreases count,
{
    if count > 0 {
        lemma_entries_text(entries, parts, (count - 1) as nat);
        let before = parts.take(count - 1);
        let own = parts[count - 1];
        assert(parts.take(count as int) =~= before.push(own));
        text::lemma_joined_push(before, own, ',');
    } else {
        assert(text::joined(parts.take(0), ',') =~= Seq::empty());
    }
}

proof fn lemma_field_json(field: tsconfig::FieldModel)
    ensures
        tsconfig::field_json(field) == match field_value(field) {
            Some(value) => Some(json_module::compact_text(value)),
            None => None,
        },
{
    match field {
        tsconfig::FieldModel::Texts(Some(values)) => {
            lemma_array_json(values);
        },
        tsconfig::FieldModel::Mappings(Some(mappings)) => {
            let entries = mappings.map_values(
                |mapping: tsconfig::MappingModel| (mapping.key, array_value(mapping.values)),
            );
            let parts = mappings.map_values(
                |mapping: tsconfig::MappingModel| tsconfig::mapping_json(mapping),
            );
            assert forall|i: int| 0 <= i < parts.len() implies #[trigger] parts[i]
                == json_text::string_literal(entries[i].0).push(':') + json_module::compact_text(
                entries[i].1,
            ) by {
                lemma_array_json(mappings[i].values);
            }
            lemma_entries_text(entries, parts, parts.len());
            assert(parts.take(parts.len() as int) =~= parts);
        },
        _ => {},
    }
}

/// Whether a name is written as it is.
pub open spec fn is_plain_name(name: Seq<char>) -> bool {
    forall|i: int|
        0 <= i < name.len() ==> ('a' <= #[trigger] name[i] && name[i] <= 'z') || ('A' <= name[i]
            && name[i] <= 'Z')
}

proof fn lemma_plain_literal(name: Seq<char>)
    requires
        is_plain_name(name),
    ensures
        json_text::literal_body(name) == name,
    decreases name.len(),
{
    if name.len() > 0 {
        let front = name.drop_last();
        assert forall|i: int| 0 <= i < front.len() implies ('a' <= #[trigger] front[i] && front[i]
            <= 'z') || ('A' <= front[i] && front[i] <= 'Z') by {
            assert(front[i] == name[i]);
        }
        lemma_plain_literal(front);
        assert(name[name.len() - 1] == name.last());
        assert(json_text::literal_char(name.last()) =~= seq![name.last()]);
        assert(json_text::literal_body(name) =~= name);
    } else {
        assert(json_text::literal_body(name) =~= name);
    }
}

proof fn lemma_property_json(name: Seq<char>, value: Seq<char>)
    requires
        is_plain_name(name),
    ensures
        tsconfig::property_json(name, value) == json_text::string_literal(name).push(':') + value,
{
    lemma_plain_literal(name);
    reveal_strlit("\":");
    assert(tsconfig::property_json(name, value) =~= json_text::string_literal(name).push(':')
        + value);
}

/// The fields that are present, each under its name.
spec fn entries_of(names: Seq<Seq<char>>, fields: Seq<tsconfig::FieldModel>) -> Seq<
    (Seq<char>, core_json::JsonModel),
>
    decreases fields.len(),
{
    if fields.len() == 0 {
        Seq::empty()
    } else {
        let before = entries_of(names, fields.drop_last());
        match field_value(fields.last()) {
            Some(value) => before.push((names[fields.len() - 1], value)),
            None => before,
        }
    }
}

spec fn are_plain_names(names: Seq<Seq<char>>) -> bool {
    forall|i: int| 0 <= i < names.len() ==> is_plain_name(#[trigger] names[i])
}

proof fn lemma_properties_text(names: Seq<Seq<char>>, fields: Seq<tsconfig::FieldModel>)
    requires
        fields.len() <= names.len(),
        are_plain_names(names),
    ensures
        entries_of(names, fields).len() == tsconfig::properties(names, fields).len(),
        forall|i: int|
            0 <= i < tsconfig::properties(names, fields).len() ==> #[trigger] tsconfig::properties(
                names,
                fields,
            )[i] == json_text::string_literal(entries_of(names, fields)[i].0).push(':')
                + json_module::compact_text(entries_of(names, fields)[i].1),
    decreases fields.len(),
{
    if fields.len() > 0 {
        lemma_properties_text(names, fields.drop_last());
        lemma_field_json(fields.last());
        let before = tsconfig::properties(names, fields.drop_last());
        let entries = entries_of(names, fields.drop_last());
        match field_value(fields.last()) {
            Some(value) => {
                let name = names[fields.len() - 1];
                assert(is_plain_name(names[fields.len() - 1]));
                lemma_property_json(name, json_module::compact_text(value));
                let all = tsconfig::properties(names, fields);
                assert forall|i: int| 0 <= i < all.len() implies #[trigger] all[i]
                    == json_text::string_literal(entries_of(names, fields)[i].0).push(':')
                    + json_module::compact_text(entries_of(names, fields)[i].1) by {
                    if i < before.len() {
                        assert(all[i] == before[i]);
                        assert(entries_of(names, fields)[i] == entries[i]);
                    }
                }
            },
            None => {},
        }
    }
}

proof fn lemma_entries_without_numbers(names: Seq<Seq<char>>, fields: Seq<tsconfig::FieldModel>)
    ensures
        forall|i: int|
            0 <= i < entries_of(names, fields).len() ==> json_read::has_number_texts(
                (#[trigger] entries_of(names, fields)[i]).1,
            ),
    decreases fields.len(),
{
    if fields.len() > 0 {
        lemma_entries_without_numbers(names, fields.drop_last());
        let before = entries_of(names, fields.drop_last());
        let all = entries_of(names, fields);
        match field_value(fields.last()) {
            Some(value) => {
                lemma_value_without_numbers(fields.last(), value);
                assert forall|i: int| 0 <= i < all.len() implies json_read::has_number_texts(
                    (#[trigger] all[i]).1,
                ) by {
                    if i < before.len() {
                        assert(all[i] == before[i]);
                    }
                }
            },
            None => {},
        }
    }
}

proof fn lemma_array_without_numbers(values: Seq<Seq<char>>)
    ensures
        json_read::has_number_texts(array_value(values)),
{
    let items = values.map_values(|value: Seq<char>| core_json::JsonModel::Text(value));
    assert forall|i: int| 0 <= i < items.len() implies json_read::has_number_texts(
        #[trigger] items[i],
    ) by {
        assert(items[i] == core_json::JsonModel::Text(values[i]));
    }
}

proof fn lemma_value_without_numbers(field: tsconfig::FieldModel, value: core_json::JsonModel)
    requires
        field_value(field) == Some(value),
    ensures
        json_read::has_number_texts(value),
{
    match field {
        tsconfig::FieldModel::Texts(Some(values)) => {
            lemma_array_without_numbers(values);
        },
        tsconfig::FieldModel::Mappings(Some(mappings)) => {
            let entries = mappings.map_values(
                |mapping: tsconfig::MappingModel| (mapping.key, array_value(mapping.values)),
            );
            assert(value == core_json::JsonModel::Object(entries));
            assert forall|i: int| 0 <= i < entries.len() implies json_read::has_number_texts(
                (#[trigger] entries[i]).1,
            ) by {
                assert(entries[i].1 == array_value(mappings[i].values));
                lemma_array_without_numbers(mappings[i].values);
            }
        },
        _ => {},
    }
}

/// What an object holds under a name is the field of that name.
proof fn lemma_member_is_field(
    names: Seq<Seq<char>>,
    fields: Seq<tsconfig::FieldModel>,
    at: int,
)
    requires
        fields.len() <= names.len(),
        names.no_duplicates(),
        0 <= at < names.len(),
    ensures
        json_read::member(entries_of(names, fields), names[at]) == if at < fields.len() {
            field_value(fields[at])
        } else {
            None
        },
    decreases fields.len(),
{
    if fields.len() > 0 {
        lemma_member_is_field(names, fields.drop_last(), at);
        let before = entries_of(names, fields.drop_last());
        let last = fields.len() - 1;
        if at < last {
            assert(fields.drop_last()[at] == fields[at]);
            assert(names[at] != names[last]);
        } else if at > last {
            assert(names[at] != names[last]);
        }
        match field_value(fields.last()) {
            Some(value) => {
                assert(before.push((names[last], value)).drop_last() =~= before);
            },
            None => {},
        }
    }
}

// ---------------------------------------------------------------------------------------------
// The names

#[verifier::spinoff_prover]
#[verifier::rlimit(40)]
proof fn lemma_names_are_plain()
    ensures
        are_plain_names(tsconfig::option_names()),
        are_plain_names(tsconfig::list_names()),
        is_plain_name("compilerOptions"@),
{
    reveal_strlit("baseUrl");
    reveal_strlit("paths");
    reveal_strlit("experimentalDecorators");
    reveal_strlit("emitDecoratorMetadata");
    reveal_strlit("useDefineForClassFields");
    reveal_strlit("rewriteRelativeImportExtensions");
    reveal_strlit("jsx");
    reveal_strlit("jsxFactory");
    reveal_strlit("jsxFragmentFactory");
    reveal_strlit("jsxImportSource");
    reveal_strlit("verbatimModuleSyntax");
    reveal_strlit("preserveValueImports");
    reveal_strlit("importsNotUsedAsValues");
    reveal_strlit("target");
    reveal_strlit("module");
    reveal_strlit("allowJs");
    reveal_strlit("rootDirs");
    reveal_strlit("files");
    reveal_strlit("include");
    reveal_strlit("exclude");
    reveal_strlit("compilerOptions");
}

/// The length of a name and its first letter.
spec fn mark(name: Seq<char>) -> (nat, char) {
    (name.len(), name[0])
}

#[verifier::spinoff_prover]
#[verifier::rlimit(40)]
proof fn lemma_names_differ()
    ensures
        tsconfig::option_names().no_duplicates(),
        tsconfig::list_names().push("compilerOptions"@).no_duplicates(),
{
    reveal_strlit("baseUrl");
    reveal_strlit("paths");
    reveal_strlit("experimentalDecorators");
    reveal_strlit("emitDecoratorMetadata");
    reveal_strlit("useDefineForClassFields");
    reveal_strlit("rewriteRelativeImportExtensions");
    reveal_strlit("jsx");
    reveal_strlit("jsxFactory");
    reveal_strlit("jsxFragmentFactory");
    reveal_strlit("jsxImportSource");
    reveal_strlit("verbatimModuleSyntax");
    reveal_strlit("preserveValueImports");
    reveal_strlit("importsNotUsedAsValues");
    reveal_strlit("target");
    reveal_strlit("module");
    reveal_strlit("allowJs");
    reveal_strlit("rootDirs");
    reveal_strlit("files");
    reveal_strlit("include");
    reveal_strlit("exclude");
    reveal_strlit("compilerOptions");
    let names = tsconfig::option_names();
    let marks: Seq<(nat, char)> = seq![
        (7, 'b'),
        (5, 'p'),
        (22, 'e'),
        (21, 'e'),
        (23, 'u'),
        (31, 'r'),
        (3, 'j'),
        (10, 'j'),
        (18, 'j'),
        (15, 'j'),
        (20, 'v'),
        (20, 'p'),
        (22, 'i'),
        (6, 't'),
        (6, 'm'),
        (7, 'a'),
        (8, 'r'),
    ];
    assert forall|i: int| 0 <= i < names.len() implies mark(#[trigger] names[i]) == marks[i] by {}
    assert(marks.no_duplicates());
    assert forall|i: int, j: int| 0 <= i < names.len() && 0 <= j < names.len() && i != j implies
        names[i] != names[j] by {
        assert(mark(names[i]) == marks[i]);
        assert(mark(names[j]) == marks[j]);
        assert(marks[i] != marks[j]);
    }
    let lists = tsconfig::list_names().push("compilerOptions"@);
    assert(lists[0] == "files"@ && lists[1] == "include"@ && lists[2] == "exclude"@ && lists[3]
        == "compilerOptions"@);
    assert("include"@[0] != "exclude"@[0]);
}

// ---------------------------------------------------------------------------------------------
// The payload

spec fn payload_entries(payload: tsconfig::PayloadModel) -> Seq<(Seq<char>, core_json::JsonModel)> {
    entries_of(tsconfig::list_names(), payload.lists).push(
        (
            "compilerOptions"@,
            core_json::JsonModel::Object(entries_of(tsconfig::option_names(), payload.options)),
        ),
    )
}

proof fn lemma_options_text(options: Seq<tsconfig::FieldModel>)
    requires
        options.len() <= tsconfig::option_names().len(),
    ensures
        tsconfig::options_json(options) == json_module::compact_text(
            core_json::JsonModel::Object(entries_of(tsconfig::option_names(), options)),
        ),
{
    let names = tsconfig::option_names();
    lemma_names_are_plain();
    lemma_properties_text(names, options);
    let parts = tsconfig::properties(names, options);
    lemma_entries_text(entries_of(names, options), parts, parts.len());
    assert(parts.take(parts.len() as int) =~= parts);
}

proof fn lemma_payload_read(payload: tsconfig::PayloadModel)
    requires
        payload.lists.len() == tsconfig::list_names().len(),
        payload.options.len() == tsconfig::option_names().len(),
    ensures
        json_read::read(tsconfig::tsconfig_json(payload)) == Some(
            core_json::JsonModel::Object(payload_entries(payload)),
        ),
{
    let lists = tsconfig::list_names();
    let options = core_json::JsonModel::Object(
        entries_of(tsconfig::option_names(), payload.options),
    );
    lemma_names_are_plain();
    lemma_options_text(payload.options);
    lemma_properties_text(lists, payload.lists);
    lemma_property_json("compilerOptions"@, json_module::compact_text(options));
    let entries = payload_entries(payload);
    let front = tsconfig::properties(lists, payload.lists);
    let parts = front.push(
        tsconfig::property_json("compilerOptions"@, tsconfig::options_json(payload.options)),
    );
    assert forall|i: int| 0 <= i < parts.len() implies #[trigger] parts[i]
        == json_text::string_literal(entries[i].0).push(':') + json_module::compact_text(
        entries[i].1,
    ) by {
        if i < front.len() {
            assert(parts[i] == front[i]);
            assert(entries[i] == entries_of(lists, payload.lists)[i]);
        }
    }
    lemma_entries_text(entries, parts, parts.len());
    assert(parts.take(parts.len() as int) =~= parts);
    let value = core_json::JsonModel::Object(entries);
    assert(tsconfig::tsconfig_json(payload) == json_module::compact_text(value));
    lemma_entries_without_numbers(lists, payload.lists);
    lemma_entries_without_numbers(tsconfig::option_names(), payload.options);
    assert(json_read::has_number_texts(options));
    assert forall|i: int| 0 <= i < entries.len() implies json_read::has_number_texts(
        (#[trigger] entries[i]).1,
    ) by {
        if i < entries.len() - 1 {
            assert(entries[i] == entries_of(lists, payload.lists)[i]);
        }
    }
    json_read::lemma_compact_text_reads_back(value);
}

/// The compiler options that a JSON text has.
pub open spec fn read_options(json: Seq<char>) -> Option<core_json::JsonModel> {
    json_read::field_of(json_read::read(json), "compilerOptions"@)
}

/// The JSON of a payload is read back as the payload: it holds each list under its name, and among
/// the compiler options it holds each option under its name. What is absent is not there.
pub proof fn lemma_tsconfig_json_reads_back(payload: tsconfig::PayloadModel)
    requires
        payload.lists.len() == tsconfig::list_names().len(),
        payload.options.len() == tsconfig::option_names().len(),
    ensures
        read_options(tsconfig::tsconfig_json(payload)) is Some,
        forall|i: int|
            0 <= i < payload.lists.len() ==> json_read::field_of(
                json_read::read(tsconfig::tsconfig_json(payload)),
                #[trigger] tsconfig::list_names()[i],
            ) == field_value(payload.lists[i]),
        forall|i: int|
            0 <= i < payload.options.len() ==> json_read::field_of(
                read_options(tsconfig::tsconfig_json(payload)),
                #[trigger] tsconfig::option_names()[i],
            ) == field_value(payload.options[i]),
{
    lemma_payload_read(payload);
    lemma_names_differ();
    let lists = tsconfig::list_names();
    let all = lists.push("compilerOptions"@);
    let entries = payload_entries(payload);
    assert(entries.drop_last() =~= entries_of(lists, payload.lists));
    assert(lists.no_duplicates()) by {
        assert forall|i: int, j: int| 0 <= i < lists.len() && 0 <= j < lists.len() && i
            != j implies lists[i] != lists[j] by {
            assert(all[i] == lists[i] && all[j] == lists[j]);
        }
    }
    assert forall|i: int| 0 <= i < payload.lists.len() implies json_read::member(
        entries,
        #[trigger] lists[i],
    ) == field_value(payload.lists[i]) by {
        assert(all[i] == lists[i] && all[3] == "compilerOptions"@);
        lemma_member_is_field(lists, payload.lists, i);
    }
    assert forall|i: int| 0 <= i < payload.options.len() implies json_read::member(
        entries_of(tsconfig::option_names(), payload.options),
        #[trigger] tsconfig::option_names()[i],
    ) == field_value(payload.options[i]) by {
        lemma_member_is_field(tsconfig::option_names(), payload.options, i);
    }
}

/// Two payloads that differ in a list or an option, be it only in the value of a flag, have
/// different JSON texts.
pub proof fn lemma_tsconfig_json_tells_payloads_apart(
    left: tsconfig::PayloadModel,
    right: tsconfig::PayloadModel,
)
    requires
        tsconfig::kinds_of(left.lists) == tsconfig::list_kinds(),
        tsconfig::kinds_of(right.lists) == tsconfig::list_kinds(),
        tsconfig::kinds_of(left.options) == tsconfig::option_kinds(),
        tsconfig::kinds_of(right.options) == tsconfig::option_kinds(),
        tsconfig::tsconfig_json(left) == tsconfig::tsconfig_json(right),
    ensures
        left.lists == right.lists,
        left.options == right.options,
{
    assert(left.lists.len() == tsconfig::kinds_of(left.lists).len());
    assert(right.lists.len() == tsconfig::kinds_of(right.lists).len());
    assert(left.options.len() == tsconfig::kinds_of(left.options).len());
    assert(right.options.len() == tsconfig::kinds_of(right.options).len());
    lemma_tsconfig_json_reads_back(left);
    lemma_tsconfig_json_reads_back(right);
    assert forall|i: int| 0 <= i < left.lists.len() implies left.lists[i] == right.lists[i] by {
        let name = tsconfig::list_names()[i];
        assert(tsconfig::kinds_of(left.lists)[i] == tsconfig::kinds_of(right.lists)[i]);
        lemma_field_value_tells_apart(left.lists[i], right.lists[i]);
    }
    assert forall|i: int| 0 <= i < left.options.len() implies left.options[i]
        == right.options[i] by {
        let name = tsconfig::option_names()[i];
        assert(tsconfig::kinds_of(left.options)[i] == tsconfig::kinds_of(right.options)[i]);
        lemma_field_value_tells_apart(left.options[i], right.options[i]);
    }
    assert(left.lists =~= right.lists);
    assert(left.options =~= right.options);
}

/// Whether a JSON text holds what a payload holds, each part under the name that it has in a
/// tsconfig file, a flag as `true` or `false`.
pub open spec fn holds_payload(json: Seq<char>, payload: DxTsconfigMachinePayload) -> bool {
    let root = json_read::read(json);
    let options = read_options(json);
    let own = payload.compiler_options;
    &&& json_read::field_of(root, "files"@) == list_value(codec::opt_texts(payload.files))
    &&& json_read::field_of(root, "include"@) == list_value(codec::opt_texts(payload.included))
    &&& json_read::field_of(root, "exclude"@) == list_value(codec::opt_texts(payload.exclude))
    &&& json_read::field_of(options, "baseUrl"@) == text_value(codec::opt_text(own.base_url))
    &&& json_read::field_of(options, "paths"@) == paths_value(tsconfig::opt_mappings(own.paths))
    &&& json_read::field_of(options, "experimentalDecorators"@) == flag_value(
        own.experimental_decorators,
    )
    &&& json_read::field_of(options, "emitDecoratorMetadata"@) == flag_value(
        own.emit_decorator_metadata,
    )
    &&& json_read::field_of(options, "useDefineForClassFields"@) == flag_value(
        own.use_define_for_class_fields,
    )
    &&& json_read::field_of(options, "rewriteRelativeImportExtensions"@) == flag_value(
        own.rewrite_relative_import_extensions,
    )
    &&& json_read::field_of(options, "jsx"@) == text_value(codec::opt_text(own.jsx))
    &&& json_read::field_of(options, "jsxFactory"@) == text_value(codec::opt_text(own.jsx_factory))
    &&& json_read::field_of(options, "jsxFragmentFactory"@) == text_value(
        codec::opt_text(own.jsx_fragment_factory),
    )
    &&& json_read::field_of(options, "jsxImportSource"@) == text_value(
        codec::opt_text(own.jsx_import_source),
    )
    &&& json_read::field_of(options, "verbatimModuleSyntax"@) == flag_value(
        own.verbatim_module_syntax,
    )
    &&& json_read::field_of(options, "preserveValueImports"@) == flag_value(
        own.preserve_value_imports,
    )
    &&& json_read::field_of(options, "importsNotUsedAsValues"@) == text_value(
        codec::opt_text(own.imports_not_used_as_values),
    )
    &&& json_read::field_of(options, "target"@) == text_value(codec::opt_text(own.target))
    &&& json_read::field_of(options, "module"@) == text_value(codec::opt_text(own.module))
    &&& json_read::field_of(options, "allowJs"@) == flag_value(own.allow_js)
    &&& json_read::field_of(options, "rootDirs"@) == list_value(codec::opt_texts(own.root_dirs))
}

/// The JSON of a payload holds what the payload holds.
pub proof fn lemma_json_holds_payload(payload: DxTsconfigMachinePayload)
    ensures
        holds_payload(tsconfig::tsconfig_json(payload@), payload),
{
    let model = payload@;
    lemma_tsconfig_json_reads_back(model);
    let lists = tsconfig::list_names();
    let names = tsconfig::option_names();
    assert(lists[0] == "files"@ && lists[1] == "include"@ && lists[2] == "exclude"@);
    assert(names[0] == "baseUrl"@);
    assert(names[1] == "paths"@);
    assert(names[2] == "experimentalDecorators"@);
    assert(names[3] == "emitDecoratorMetadata"@);
    assert(names[4] == "useDefineForClassFields"@);
    assert(names[5] == "rewriteRelativeImportExtensions"@);
    assert(names[6] == "jsx"@);
    assert(names[7] == "jsxFactory"@);
    assert(names[8] == "jsxFragmentFactory"@);
    assert(names[9] == "jsxImportSource"@);
    assert(names[10] == "verbatimModuleSyntax"@);
    assert(names[11] == "preserveValueImports"@);
    assert(names[12] == "importsNotUsedAsValues"@);
    assert(names[13] == "target"@);
    assert(names[14] == "module"@);
    assert(names[15] == "allowJs"@);
    assert(names[16] == "rootDirs"@);
}

} // verus!
