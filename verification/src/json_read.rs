//! What a JSON text without white space means: the value that a reader takes from it.

use vstd::prelude::*;
use crate::core_json;
use crate::digest;
use crate::json_escape;
use crate::json_module;
use crate::json_text;

verus! {

// ---------------------------------------------------------------------------------------------
// Reading

/// The number that four hexadecimal digits stand for.
pub open spec fn four_digits(digits: Seq<char>) -> nat {
    4096 * json_escape::hex_value(digits[0]) + 256 * json_escape::hex_value(digits[1]) + 16
        * json_escape::hex_value(digits[2]) + json_escape::hex_value(digits[3])
}

/// The character that an escape stands for, given what follows the backslash, and the text behind.
pub open spec fn escape_at(rest: Seq<char>) -> Option<(char, Seq<char>)> {
    if rest.len() == 0 {
        None
    } else if rest[0] == '"' || rest[0] == '\\' || rest[0] == '/' {
        Some((rest[0], rest.skip(1)))
    } else if rest[0] == 'b' {
        Some(('\u{8}', rest.skip(1)))
    } else if rest[0] == 'f' {
        Some(('\u{c}', rest.skip(1)))
    } else if rest[0] == 'n' {
        Some(('\n', rest.skip(1)))
    } else if rest[0] == 'r' {
        Some(('\r', rest.skip(1)))
    } else if rest[0] == 't' {
        Some(('\t', rest.skip(1)))
    } else if rest[0] == 'u' && rest.len() >= 5 && (forall|i: int|
        1 <= i < 5 ==> digest::is_lower_hex(#[trigger] rest[i])) && four_digits(rest.skip(1))
        < 0xd800 {
        Some(((four_digits(rest.skip(1)) as u32) as char, rest.skip(5)))
    } else {
        None
    }
}

/// The content of a string, given what follows its first quote, and the text behind its last.
pub open spec fn string_at(rest: Seq<char>) -> Option<(Seq<char>, Seq<char>)>
    decreases rest.len(),
{
    if rest.len() == 0 || (rest[0] as u32) < 32 {
        None
    } else if rest[0] == '"' {
        Some((Seq::empty(), rest.skip(1)))
    } else if rest[0] == '\\' {
        match escape_at(rest.skip(1)) {
            None => None,
            Some((c, after)) => if after.len() < rest.len() {
                json_escape::with_first(c, string_at(after))
            } else {
                None
            },
        }
    } else {
        json_escape::with_first(rest[0], string_at(rest.skip(1)))
    }
}

pub open spec fn is_number_char(c: char) -> bool {
    ('0' <= c && c <= '9') || c == '-' || c == '+' || c == '.' || c == 'e' || c == 'E'
}

/// How many characters of a number a text starts with.
pub open spec fn number_len(rest: Seq<char>) -> nat
    decreases rest.len(),
{
    if rest.len() == 0 || !is_number_char(rest[0]) {
        0
    } else {
        1 + number_len(rest.skip(1))
    }
}

/// The value at the start of a text, and the text behind it.
pub open spec fn value_at(rest: Seq<char>) -> Option<(core_json::JsonModel, Seq<char>)>
    decreases rest.len(), 0nat,
{
    if rest.len() == 0 {
        None
    } else if rest[0] == '"' {
        match string_at(rest.skip(1)) {
            Some((content, after)) => Some((core_json::JsonModel::Text(content), after)),
            None => None,
        }
    } else if rest[0] == '[' {
        if rest.len() > 1 && rest[1] == ']' {
            Some((core_json::JsonModel::Array(Seq::empty()), rest.skip(2)))
        } else {
            match items_at(rest.skip(1)) {
                Some((items, after)) => Some((core_json::JsonModel::Array(items), after)),
                None => None,
            }
        }
    } else if rest[0] == '{' {
        if rest.len() > 1 && rest[1] == '}' {
            Some((core_json::JsonModel::Object(Seq::empty()), rest.skip(2)))
        } else {
            match entries_at(rest.skip(1)) {
                Some((entries, after)) => Some((core_json::JsonModel::Object(entries), after)),
                None => None,
            }
        }
    } else if rest.len() >= 4 && rest.take(4) == seq!['n', 'u', 'l', 'l'] {
        Some((core_json::JsonModel::Null, rest.skip(4)))
    } else if rest.len() >= 4 && rest.take(4) == seq!['t', 'r', 'u', 'e'] {
        Some((core_json::JsonModel::Bool(true), rest.skip(4)))
    } else if rest.len() >= 5 && rest.take(5) == seq!['f', 'a', 'l', 's', 'e'] {
        Some((core_json::JsonModel::Bool(false), rest.skip(5)))
    } else if number_len(rest) > 0 {
        Some(
            (
                core_json::JsonModel::Number(rest.take(number_len(rest) as int)),
                rest.skip(number_len(rest) as int),
            ),
        )
    } else {
        None
    }
}

/// The items of an array up to its closing bracket, and the text behind it.
pub open spec fn items_at(rest: Seq<char>) -> Option<(Seq<core_json::JsonModel>, Seq<char>)>
    decreases rest.len(), 1nat,
{
    match value_at(rest) {
        None => None,
        Some((first, after)) => if after.len() == 0 || after.len() > rest.len() {
            None
        } else if after[0] == ']' {
            Some((seq![first], after.skip(1)))
        } else if after[0] == ',' {
            match items_at(after.skip(1)) {
                Some((others, end)) => Some((seq![first] + others, end)),
                None => None,
            }
        } else {
            None
        },
    }
}

/// The entries of an object up to its closing brace, and the text behind it.
pub open spec fn entries_at(rest: Seq<char>) -> Option<
    (Seq<(Seq<char>, core_json::JsonModel)>, Seq<char>),
>
    decreases rest.len(), 1nat,
{
    if rest.len() == 0 || rest[0] != '"' {
        None
    } else {
        match string_at(rest.skip(1)) {
            None => None,
            Some((key, colon)) => if colon.len() == 0 || colon.len() >= rest.len() || colon[0]
                != ':' {
                None
            } else {
                match value_at(colon.skip(1)) {
                    None => None,
                    Some((value, after)) => if after.len() == 0 || after.len() >= rest.len() {
                        None
                    } else if after[0] == '}' {
                        Some((seq![(key, value)], after.skip(1)))
                    } else if after[0] == ',' {
                        match entries_at(after.skip(1)) {
                            Some((others, end)) => Some((seq![(key, value)] + others, end)),
                            None => None,
                        }
                    } else {
                        None
                    },
                }
            },
        }
    }
}

/// The value of a text that holds one value and nothing else.
pub open spec fn read(json: Seq<char>) -> Option<core_json::JsonModel> {
    match value_at(json) {
        Some((value, after)) => if after.len() == 0 {
            Some(value)
        } else {
            None
        },
        None => None,
    }
}

/// What an object holds under a name; where it has the name twice, the last one.
pub open spec fn member(
    entries: Seq<(Seq<char>, core_json::JsonModel)>,
    name: Seq<char>,
) -> Option<core_json::JsonModel>
    decreases entries.len(),
{
    if entries.len() == 0 {
        None
    } else if entries.last().0 == name {
        Some(entries.last().1)
    } else {
        member(entries.drop_last(), name)
    }
}

/// What a value holds under a name.
pub open spec fn field_of(value: Option<core_json::JsonModel>, name: Seq<char>) -> Option<
    core_json::JsonModel,
> {
    match value {
        Some(core_json::JsonModel::Object(entries)) => member(entries, name),
        _ => None,
    }
}

// ---------------------------------------------------------------------------------------------
// What is written is read back

/// The literal of a text, from its first character on.
proof fn lemma_literal_body_first(value: Seq<char>)
    requires
        value.len() > 0,
    ensures
        json_text::literal_body(value) == json_text::literal_char(value[0])
            + json_text::literal_body(value.skip(1)),
    decreases value.len(),
{
    if value.len() == 1 {
        assert(value.drop_last() =~= Seq::empty());
        assert(value.skip(1) =~= Seq::empty());
        assert(json_text::literal_body(value.drop_last()) =~= Seq::empty());
        assert(json_text::literal_body(value.skip(1)) =~= Seq::empty());
        assert(json_text::literal_body(value) =~= json_text::literal_char(value[0]));
        assert(json_text::literal_char(value[0]) + json_text::literal_body(value.skip(1))
            =~= json_text::literal_char(value[0]));
    } else {
        let front = value.drop_last();
        lemma_literal_body_first(front);
        assert(value.skip(1).drop_last() =~= front.skip(1));
        assert(value.skip(1).last() == value.last());
        assert(json_text::literal_body(value) =~= json_text::literal_char(value[0])
            + json_text::literal_body(value.skip(1)));
    }
}

/// The content of a literal is the text that it was written for.
pub proof fn lemma_literal_reads_back(value: Seq<char>, after: Seq<char>)
    ensures
        string_at(json_text::literal_body(value) + seq!['"'] + after) == Some((value, after)),
    decreases value.len(),
{
    let whole = json_text::literal_body(value) + seq!['"'] + after;
    if value.len() == 0 {
        assert(whole.skip(1) =~= after);
        assert(value =~= Seq::empty());
    } else {
        let c = value[0];
        let tail = json_text::literal_body(value.skip(1)) + seq!['"'] + after;
        lemma_literal_body_first(value);
        lemma_literal_reads_back(value.skip(1), after);
        assert(whole =~= json_text::literal_char(c) + tail);
        assert(seq![c] + value.skip(1) =~= value);
        let escape = json_text::literal_char(c);
        if escape.len() == 1 {
            assert(whole.skip(1) =~= tail);
        } else if escape.len() == 2 {
            assert(whole.skip(1).skip(1) =~= tail);
            assert(whole.skip(1)[0] == escape[1]);
            if c as u32 == 8 {
                vstd::utf8::char_u32_cast(c, 8);
                vstd::utf8::char_u32_cast('\u{8}', 8);
            }
            if c as u32 == 12 {
                vstd::utf8::char_u32_cast(c, 12);
                vstd::utf8::char_u32_cast('\u{c}', 12);
            }
        } else {
            let behind = whole.skip(1);
            assert(behind.skip(5) =~= tail);
            let high = ((c as u32) / 16) as nat;
            let low = ((c as u32) % 16) as nat;
            assert(behind[1] == '0');
            assert(behind[2] == '0');
            assert(behind[3] == digest::hex_digit(high));
            assert(behind[4] == digest::hex_digit(low));
            assert(json_escape::hex_value(digest::hex_digit(high)) == high);
            assert(json_escape::hex_value(digest::hex_digit(low)) == low);
            assert(digest::is_lower_hex(behind[3]));
            assert(digest::is_lower_hex(behind[4]));
            assert(four_digits(behind.skip(1)) == 16 * high + low);
            assert(16 * high + low == c as u32);
            vstd::utf8::char_u32_cast(c, (16 * high + low) as u32);
        }
    }
}

/// Different texts have different literals.
pub proof fn lemma_literal_tells_apart(left: Seq<char>, right: Seq<char>)
    ensures
        json_text::string_literal(left) == json_text::string_literal(right) ==> left == right,
{
    let none = Seq::<char>::empty();
    lemma_literal_reads_back(left, none);
    lemma_literal_reads_back(right, none);
    let l = json_text::string_literal(left);
    let r = json_text::string_literal(right);
    assert(l.skip(1) =~= json_text::literal_body(left) + seq!['"'] + none);
    assert(r.skip(1) =~= json_text::literal_body(right) + seq!['"'] + none);
}

/// Whether the numbers of a value are made of the characters of numbers.
pub open spec fn has_number_texts(value: core_json::JsonModel) -> bool
    decreases value, 0nat,
{
    match value {
        core_json::JsonModel::Number(number) => number.len() > 0 && forall|i: int|
            0 <= i < number.len() ==> is_number_char(#[trigger] number[i]),
        core_json::JsonModel::Array(items) => forall|i: int|
            0 <= i < items.len() ==> has_number_texts(#[trigger] items[i]),
        core_json::JsonModel::Object(entries) => forall|i: int|
            0 <= i < entries.len() ==> has_number_texts((#[trigger] entries[i]).1),
        _ => true,
    }
}

/// Whether a text that follows a value cannot be taken for more of it.
pub open spec fn ends_value(after: Seq<char>) -> bool {
    after.len() > 0 ==> !is_number_char(after[0])
}

proof fn lemma_number_len(number: Seq<char>, after: Seq<char>)
    requires
        forall|i: int| 0 <= i < number.len() ==> is_number_char(#[trigger] number[i]),
        ends_value(after),
    ensures
        number_len(number + after) == number.len(),
    decreases number.len(),
{
    let whole = number + after;
    if number.len() == 0 {
        assert(whole =~= after);
    } else {
        assert(whole[0] == number[0]);
        assert(whole.skip(1) =~= number.skip(1) + after);
        assert forall|i: int| 0 <= i < number.skip(1).len() implies is_number_char(
            #[trigger] number.skip(1)[i],
        ) by {
            assert(number.skip(1)[i] == number[i + 1]);
        }
        lemma_number_len(number.skip(1), after);
    }
}

/// The items from one on, with commas between them.
spec fn items_from(items: Seq<core_json::JsonModel>, from: nat) -> Seq<char>
    decreases items.len() - from,
{
    if from >= items.len() {
        Seq::empty()
    } else if from + 1 == items.len() {
        json_module::compact_text(items[from as int])
    } else {
        json_module::compact_text(items[from as int]).push(',') + items_from(items, from + 1)
    }
}

proof fn lemma_items_from(items: Seq<core_json::JsonModel>, count: nat)
    requires
        0 < count <= items.len(),
    ensures
        count < items.len() ==> json_module::compact_items(items, count).push(',') + items_from(
            items,
            count,
        ) == items_from(items, 0),
        count == items.len() ==> json_module::compact_items(items, count) == items_from(items, 0),
    decreases count,
{
    if count > 1 {
        lemma_items_from(items, (count - 1) as nat);
        let before = json_module::compact_items(items, (count - 1) as nat);
        let own = json_module::compact_text(items[count - 1]);
        if count < items.len() {
            assert((before.push(',') + own).push(',') + items_from(items, count) =~= before.push(
                ',',
            ) + (own.push(',') + items_from(items, count)));
        }
    }
}

/// An entry: its name and its value.
spec fn entry_text(entry: (Seq<char>, core_json::JsonModel)) -> Seq<char> {
    json_text::string_literal(entry.0).push(':') + json_module::compact_text(entry.1)
}

/// The entries from one on, with commas between them.
spec fn entries_from(entries: Seq<(Seq<char>, core_json::JsonModel)>, from: nat) -> Seq<char>
    decreases entries.len() - from,
{
    if from >= entries.len() {
        Seq::empty()
    } else if from + 1 == entries.len() {
        entry_text(entries[from as int])
    } else {
        entry_text(entries[from as int]).push(',') + entries_from(entries, from + 1)
    }
}

proof fn lemma_entries_from(entries: Seq<(Seq<char>, core_json::JsonModel)>, count: nat)
    requires
        0 < count <= entries.len(),
    ensures
        count < entries.len() ==> json_module::compact_entries(entries, count).push(',')
            + entries_from(entries, count) == entries_from(entries, 0),
        count == entries.len() ==> json_module::compact_entries(entries, count) == entries_from(
            entries,
            0,
        ),
    decreases count,
{
    if count > 1 {
        lemma_entries_from(entries, (count - 1) as nat);
        let before = json_module::compact_entries(entries, (count - 1) as nat);
        let own = entry_text(entries[count - 1]);
        if count < entries.len() {
            assert((before.push(',') + own).push(',') + entries_from(entries, count)
                =~= before.push(',') + (own.push(',') + entries_from(entries, count)));
        }
    }
}

/// A value is no empty text, and does not start with a closing bracket.
proof fn lemma_value_starts(value: core_json::JsonModel)
    requires
        has_number_texts(value),
    ensures
        json_module::compact_text(value).len() > 0,
        json_module::compact_text(value)[0] != ']',
{
    reveal_strlit("null");
    reveal_strlit("true");
    reveal_strlit("false");
    match value {
        core_json::JsonModel::Number(number) => {
            assert(is_number_char(number[0]));
        },
        _ => {},
    }
}

/// A word or a number is read back.
#[verifier::spinoff_prover]
#[verifier::rlimit(40)]
proof fn lemma_plain_value_reads_back(value: core_json::JsonModel, after: Seq<char>)
    requires
        has_number_texts(value),
        value is Null || value is Bool || value is Number,
        ends_value(after),
    ensures
        value_at(json_module::compact_text(value) + after) == Some((value, after)),
{
    reveal_strlit("null");
    reveal_strlit("true");
    reveal_strlit("false");
    let whole = json_module::compact_text(value) + after;
    assert(seq!['n', 'u', 'l', 'l'][0] == 'n');
    assert(seq!['t', 'r', 'u', 'e'][0] == 't');
    assert(seq!['f', 'a', 'l', 's', 'e'][0] == 'f');
    assert(whole.len() >= 4 ==> whole.take(4)[0] == whole[0]);
    assert(whole.len() >= 5 ==> whole.take(5)[0] == whole[0]);
    match value {
        core_json::JsonModel::Null => {
            assert(whole.take(4) =~= seq!['n', 'u', 'l', 'l']);
            assert(whole.skip(4) =~= after);
        },
        core_json::JsonModel::Bool(flag) => {
            if flag {
                assert(whole.take(4) =~= seq!['t', 'r', 'u', 'e']);
                assert(whole.skip(4) =~= after);
            } else {
                assert(whole.take(5) =~= seq!['f', 'a', 'l', 's', 'e']);
                assert(whole.skip(5) =~= after);
            }
        },
        core_json::JsonModel::Number(number) => {
            lemma_number_len(number, after);
            assert(is_number_char(number[0]));
            assert(whole[0] == number[0]);
            assert(whole.take(number.len() as int) =~= number);
            assert(whole.skip(number.len() as int) =~= after);
        },
        _ => {},
    }
}

/// Reading gives back the value that was written, and stops where it ends.
#[verifier::spinoff_prover]
#[verifier::rlimit(40)]
pub proof fn lemma_value_reads_back(value: core_json::JsonModel, after: Seq<char>)
    requires
        has_number_texts(value),
        ends_value(after),
    ensures
        value_at(json_module::compact_text(value) + after) == Some((value, after)),
    decreases value, 0nat,
{
    let whole = json_module::compact_text(value) + after;
    match value {
        core_json::JsonModel::Text(content) => {
            lemma_literal_reads_back(content, after);
            assert(whole.skip(1) =~= json_text::literal_body(content) + seq!['"'] + after);
        },
        core_json::JsonModel::Array(items) => {
            if items.len() == 0 {
                assert(whole[1] == ']');
                assert(whole.skip(2) =~= after);
                assert(items =~= Seq::empty());
            } else {
                lemma_items_from(items, items.len());
                lemma_items_read_back(items, 0, after);
                assert(items.skip(0) =~= items);
                assert(whole.skip(1) =~= items_from(items, 0).push(']') + after);
                lemma_value_starts(items[0]);
                assert(items_from(items, 0)[0] == json_module::compact_text(items[0])[0]);
                assert(whole[1] == items_from(items, 0)[0]);
            }
        },
        core_json::JsonModel::Object(entries) => {
            if entries.len() == 0 {
                assert(whole[1] == '}');
                assert(whole.skip(2) =~= after);
                assert(entries =~= Seq::empty());
            } else {
                lemma_entries_from(entries, entries.len());
                lemma_entries_read_back(entries, 0, after);
                assert(entries.skip(0) =~= entries);
                assert(whole.skip(1) =~= entries_from(entries, 0).push('}') + after);
                assert(entry_text(entries[0])[0] == '"');
                assert(entries_from(entries, 0)[0] == '"');
                assert(whole[1] == '"');
            }
        },
        _ => {
            lemma_plain_value_reads_back(value, after);
        },
    }
}

proof fn lemma_items_read_back(items: Seq<core_json::JsonModel>, from: nat, after: Seq<char>)
    requires
        from < items.len(),
        forall|i: int| 0 <= i < items.len() ==> has_number_texts(#[trigger] items[i]),
    ensures
        items_at(items_from(items, from).push(']') + after) == Some((items.skip(from as int), after)),
    decreases items, items.len() - from,
{
    let whole = items_from(items, from).push(']') + after;
    let first = items[from as int];
    let own = json_module::compact_text(first);
    lemma_value_starts(first);
    if from + 1 == items.len() {
        let rest = seq![']'] + after;
        assert(whole =~= own + rest);
        lemma_value_reads_back(first, rest);
        assert(rest.skip(1) =~= after);
        assert(items.skip(from as int) =~= seq![first]);
    } else {
        let behind = items_from(items, from + 1).push(']') + after;
        let rest = seq![','] + behind;
        assert(whole =~= own + rest);
        lemma_value_reads_back(first, rest);
        lemma_items_read_back(items, from + 1, after);
        assert(rest.skip(1) =~= behind);
        assert(items.skip(from as int) =~= seq![first] + items.skip((from + 1) as int));
    }
}

proof fn lemma_entries_read_back(
    entries: Seq<(Seq<char>, core_json::JsonModel)>,
    from: nat,
    after: Seq<char>,
)
    requires
        from < entries.len(),
        forall|i: int| 0 <= i < entries.len() ==> has_number_texts((#[trigger] entries[i]).1),
    ensures
        entries_at(entries_from(entries, from).push('}') + after) == Some(
            (entries.skip(from as int), after),
        ),
    decreases entries, entries.len() - from,
{
    let whole = entries_from(entries, from).push('}') + after;
    let key = entries[from as int].0;
    let value = entries[from as int].1;
    let own = json_module::compact_text(value);
    lemma_value_starts(value);
    let last = from + 1 == entries.len();
    let behind = if last {
        after
    } else {
        entries_from(entries, from + 1).push('}') + after
    };
    let rest = if last {
        seq!['}'] + after
    } else {
        seq![','] + behind
    };
    let colon = seq![':'] + own + rest;
    assert(whole =~= json_text::string_literal(key) + colon);
    assert(whole.skip(1) =~= json_text::literal_body(key) + seq!['"'] + colon);
    lemma_literal_reads_back(key, colon);
    assert(colon.skip(1) =~= own + rest);
    lemma_value_reads_back(value, rest);
    assert(rest.skip(1) =~= behind);
    if last {
        assert(entries.skip(from as int) =~= seq![(key, value)]);
    } else {
        lemma_entries_read_back(entries, from + 1, after);
        assert(entries.skip(from as int) =~= seq![(key, value)] + entries.skip((from + 1) as int));
    }
}

/// A value that is written without white space is read back as it was.
pub proof fn lemma_compact_text_reads_back(value: core_json::JsonModel)
    requires
        has_number_texts(value),
    ensures
        read(json_module::compact_text(value)) == Some(value),
{
    let none = Seq::<char>::empty();
    lemma_value_reads_back(value, none);
    assert(json_module::compact_text(value) + none =~= json_module::compact_text(value));
}

/// A text that was escaped for metadata is read back by any reader of JSON strings.
pub proof fn lemma_escaped_text_reads_back(value: Seq<char>, after: Seq<char>)
    ensures
        string_at(json_escape::json_escaped(value) + seq!['"'] + after) == Some((value, after)),
    decreases value.len(),
{
    let whole = json_escape::json_escaped(value) + seq!['"'] + after;
    if value.len() == 0 {
        assert(whole.skip(1) =~= after);
        assert(value =~= Seq::empty());
    } else {
        let c = value[0];
        let tail = json_escape::json_escaped(value.drop_first()) + seq!['"'] + after;
        lemma_escaped_text_reads_back(value.drop_first(), after);
        let escape = json_escape::escaped_char(c);
        assert(whole =~= escape + tail);
        assert(seq![c] + value.drop_first() =~= value);
        if escape.len() == 1 {
            assert(whole.skip(1) =~= tail);
        } else if escape.len() == 2 {
            assert(whole.skip(1).skip(1) =~= tail);
            assert(whole.skip(1)[0] == escape[1]);
        } else {
            let behind = whole.skip(1);
            assert(behind.skip(5) =~= tail);
            let high = ((c as u32) / 16) as nat;
            let low = ((c as u32) % 16) as nat;
            assert(behind[1] == '0');
            assert(behind[2] == '0');
            assert(behind[3] == digest::hex_digit(high));
            assert(behind[4] == digest::hex_digit(low));
            assert(json_escape::hex_value(digest::hex_digit(high)) == high);
            assert(json_escape::hex_value(digest::hex_digit(low)) == low);
            assert(digest::is_lower_hex(behind[3]));
            assert(digest::is_lower_hex(behind[4]));
            assert(four_digits(behind.skip(1)) == 16 * high + low);
            vstd::utf8::char_u32_cast(c, (16 * high + low) as u32);
        }
    }
}

/// A string that metadata is read from means the same to any reader of JSON strings.
pub proof fn lemma_content_is_read(rest: Seq<char>)
    ensures
        json_escape::string_content(rest) matches Some((content, after)) ==> after.len() > 0
            && after[0] == '"' && string_at(rest) == Some((content, after.skip(1))),
    decreases rest.len(),
{
    if rest.len() > 0 && rest[0] != '"' {
        if rest[0] == '\\' {
            let behind = rest.skip(1);
            if let Some((c, after)) = json_escape::unescape(behind) {
                if after.len() < rest.len() {
                    lemma_content_is_read(after);
                    if behind[0] == 'u' {
                        assert(forall|i: int|
                            1 <= i < 5 ==> digest::is_lower_hex(#[trigger] behind[i]));
                        assert(four_digits(behind.skip(1)) == 16 * json_escape::hex_value(behind[3])
                            + json_escape::hex_value(behind[4]));
                    }
                    assert(escape_at(behind) == Some((c, after)));
                }
            }
        } else {
            lemma_content_is_read(rest.skip(1));
        }
    }
}

} // verus!
