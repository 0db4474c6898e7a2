//! The metadata document beside a machine artifact: what it was built from and how it is checked.

use vstd::prelude::*;
use vstd::utf8::*;
use crate::decimal;
use crate::decimal::{decimal_u128_len, decimal_usize_len, push_decimal_usize_json};
use crate::digest;
use crate::digest::{blake3_hash, lowercase_hex_nibble, push_blake3_hex};
use crate::json_escape;
use crate::json_escape::{json_escaped_len, push_json_escape};
use crate::json_read;
use crate::path_text;
use crate::path_text::PathStyle;
use crate::text;
use crate::text::{byte_len, chars_of, text_with_room, utf8_text};

verus! {

pub const DX_MACHINE_METADATA_SCHEMA: &'static str = "dx.machine.source_metadata.v1";

pub const DX_MACHINE_MAX_BYTES: u64 = 536_870_912;

pub const MACHINE_METADATA_SOURCE_PATH_PREFIX: &'static str =
    "{\n  \"schema\": \"dx.machine.source_metadata.v1\",\n  \"source\": {\n    \"path\": \"";

pub const MACHINE_METADATA_SOURCE_BYTES_PREFIX: &'static str = "\",\n    \"bytes\": ";

pub const MACHINE_METADATA_MODIFIED_PREFIX: &'static str = ",\n    \"modified_unix_ms\": ";

pub const MACHINE_METADATA_SOURCE_HASH_PREFIX: &'static str = ",\n    \"blake3\": \"";

pub const MACHINE_METADATA_MACHINE_PATH_PREFIX: &'static str =
    "\"\n  },\n  \"machine\": {\n    \"path\": \"";

pub const MACHINE_METADATA_MACHINE_BYTES_PREFIX: &'static str = "\",\n    \"bytes\": ";

pub const MACHINE_METADATA_MACHINE_HASH_PREFIX: &'static str = ",\n    \"blake3\": \"";

pub const MACHINE_METADATA_SUFFIX: &'static str =
    "\"\n  },\n  \"cache\": {\n    \"rebuildable\": true,\n    \"fallback_on_mismatch\": true\n  }\n}\n";

/// One file as the metadata records it.
#[derive(Debug, Clone, PartialEq, Eq)]
pub struct MachineMetadataEntry {
    pub path: String,
    pub bytes: u64,
    pub blake3: String,
}

#[derive(Debug, Clone, Copy, PartialEq, Eq, Structural)]
pub struct MachineCachePolicy {
    pub rebuildable: bool,
    pub fallback_on_mismatch: bool,
}

#[derive(Debug, Clone, PartialEq, Eq)]
pub struct MachineMetadataDocument {
    pub schema: String,
    pub source: MachineMetadataEntry,
    pub machine: MachineMetadataEntry,
    pub cache: MachineCachePolicy,
}

pub ghost struct EntryModel {
    pub path: Seq<char>,
    pub bytes: nat,
    pub blake3: Seq<char>,
}

pub ghost struct DocumentModel {
    pub schema: Seq<char>,
    pub source: EntryModel,
    pub machine: EntryModel,
    pub cache: MachineCachePolicy,
}

impl View for MachineMetadataEntry {
    type V = EntryModel;

    open spec fn view(&self) -> EntryModel {
        EntryModel { path: self.path@, bytes: self.bytes as nat, blake3: self.blake3@ }
    }
}

impl View for MachineMetadataDocument {
    type V = DocumentModel;

    open spec fn view(&self) -> DocumentModel {
        DocumentModel {
            schema: self.schema@,
            source: self.source@,
            machine: self.machine@,
            cache: self.cache,
        }
    }
}

/// The document that the writer stands behind.
pub open spec fn written_document(source: EntryModel, machine: EntryModel) -> DocumentModel {
    DocumentModel {
        schema: DX_MACHINE_METADATA_SCHEMA@,
        source,
        machine,
        cache: MachineCachePolicy { rebuildable: true, fallback_on_mismatch: true },
    }
}

pub open spec fn null_word() -> Seq<char> {
    seq!['n', 'u', 'l', 'l']
}

/// The canonical text of a document, with `modified` in the place of the modification time.
pub open spec fn canonical_text(
    source: EntryModel,
    modified: Seq<char>,
    machine: EntryModel,
) -> Seq<char> {
    MACHINE_METADATA_SOURCE_PATH_PREFIX@ + (json_escape::json_escaped(source.path) + (
    MACHINE_METADATA_SOURCE_BYTES_PREFIX@ + (decimal::decimal_text(source.bytes) + (
    MACHINE_METADATA_MODIFIED_PREFIX@ + (modified + (MACHINE_METADATA_SOURCE_HASH_PREFIX@ + (
    source.blake3 + (MACHINE_METADATA_MACHINE_PATH_PREFIX@ + (json_escape::json_escaped(
        machine.path,
    ) + (MACHINE_METADATA_MACHINE_BYTES_PREFIX@ + (decimal::decimal_text(machine.bytes) + (
    MACHINE_METADATA_MACHINE_HASH_PREFIX@ + (machine.blake3
        + MACHINE_METADATA_SUFFIX@)))))))))))))
}

// ---------------------------------------------------------------------------------------------
// Reading a canonical document

/// The text behind `expected`.
pub open spec fn after_literal(rest: Seq<char>, expected: Seq<char>) -> Option<Seq<char>> {
    if expected.is_prefix_of(rest) {
        Some(rest.skip(expected.len() as int))
    } else {
        None
    }
}

/// How many decimal digits `rest` starts with.
pub open spec fn leading_digits(rest: Seq<char>) -> nat
    decreases rest.len(),
{
    if rest.len() == 0 || !decimal::is_decimal_digit(rest[0]) {
        0
    } else {
        1 + leading_digits(rest.skip(1))
    }
}

/// The decimal number that `rest` starts with, where it fits 64 bits, and the text behind it.
pub open spec fn decimal_number(rest: Seq<char>) -> Option<(nat, Seq<char>)> {
    let count = leading_digits(rest);
    let value = decimal::decimal_value(rest.take(count as int));
    if count > 0 && value <= u64::MAX {
        Some((value, rest.skip(count as int)))
    } else {
        None
    }
}

/// The text behind a modification time: `null` or a number.
pub open spec fn after_modified(rest: Seq<char>) -> Option<Seq<char>> {
    match after_literal(rest, null_word()) {
        Some(after) => Some(after),
        None => match decimal_number(rest) {
            Some((value, after)) => Some(after),
            None => None,
        },
    }
}

/// The digest text that `rest` starts with, and the text behind it.
pub open spec fn hash_text(rest: Seq<char>) -> Option<(Seq<char>, Seq<char>)> {
    if rest.len() >= digest::BLAKE3_HEX_LEN && digest::is_blake3_hex_text(
        rest.take(digest::BLAKE3_HEX_LEN as int),
    ) {
        Some(
            (
                rest.take(digest::BLAKE3_HEX_LEN as int),
                rest.skip(digest::BLAKE3_HEX_LEN as int),
            ),
        )
    } else {
        None
    }
}

/// A path and a byte count, with `bytes_prefix` between them.
pub open spec fn path_and_bytes(rest: Seq<char>, bytes_prefix: Seq<char>) -> Option<
    (Seq<char>, nat, Seq<char>),
> {
    match json_escape::string_content(rest) {
        None => None,
        Some((path, after_path)) => match after_literal(after_path, bytes_prefix) {
            None => None,
            Some(at_bytes) => match decimal_number(at_bytes) {
                None => None,
                Some((bytes, after)) => Some((path, bytes, after)),
            },
        },
    }
}

/// The `source` object from its path on.
pub open spec fn source_entry(rest: Seq<char>) -> Option<(EntryModel, Seq<char>)> {
    match path_and_bytes(rest, MACHINE_METADATA_SOURCE_BYTES_PREFIX@) {
        None => None,
        Some((path, bytes, after_bytes)) => match after_literal(
            after_bytes,
            MACHINE_METADATA_MODIFIED_PREFIX@,
        ) {
            None => None,
            Some(at_modified) => match after_modified(at_modified) {
                None => None,
                Some(after_time) => match after_literal(
                    after_time,
                    MACHINE_METADATA_SOURCE_HASH_PREFIX@,
                ) {
                    None => None,
                    Some(at_hash) => match hash_text(at_hash) {
                        None => None,
                        Some((blake3, after)) => Some((EntryModel { path, bytes, blake3 }, after)),
                    },
                },
            },
        },
    }
}

/// The `machine` object from its path on.
pub open spec fn machine_entry(rest: Seq<char>) -> Option<(EntryModel, Seq<char>)> {
    match path_and_bytes(rest, MACHINE_METADATA_MACHINE_BYTES_PREFIX@) {
        None => None,
        Some((path, bytes, after_bytes)) => match after_literal(
            after_bytes,
            MACHINE_METADATA_MACHINE_HASH_PREFIX@,
        ) {
            None => None,
            Some(at_hash) => match hash_text(at_hash) {
                None => None,
                Some((blake3, after)) => Some((EntryModel { path, bytes, blake3 }, after)),
            },
        },
    }
}

/// The document that a canonical metadata text holds.
pub open spec fn canonical_document(document: Seq<char>) -> Option<DocumentModel> {
    match after_literal(document, MACHINE_METADATA_SOURCE_PATH_PREFIX@) {
        None => None,
        Some(at_source) => match source_entry(at_source) {
            None => None,
            Some((source, after_source)) => match after_literal(
                after_source,
                MACHINE_METADATA_MACHINE_PATH_PREFIX@,
            ) {
                None => None,
                Some(at_machine) => match machine_entry(at_machine) {
                    None => None,
                    Some((machine, after_machine)) => if after_machine == MACHINE_METADATA_SUFFIX@ {
                        Some(written_document(source, machine))
                    } else {
                        None
                    },
                },
            },
        },
    }
}

/// What the bytes of a metadata file hold, if they are a canonical document.
pub open spec fn canonical_document_of_bytes(bytes: Seq<u8>) -> Option<DocumentModel> {
    if valid_utf8(bytes) {
        canonical_document(decode_utf8(bytes))
    } else {
        None
    }
}

/// A cursor over the characters of a metadata document.
pub struct CanonicalMachineMetadataParser {
    chars: Vec<char>,
    cursor: usize,
}

impl CanonicalMachineMetadataParser {
    pub closed spec fn well_formed(&self) -> bool {
        self.cursor <= self.chars.len()
    }

    /// The text that is still to be read.
    pub closed spec fn rest(&self) -> Seq<char> {
        self.chars@.skip(self.cursor as int)
    }

    pub fn new(document: &str) -> (parser: Self)
        ensures
            parser.well_formed(),
            parser.rest() == document@,
    {
        let parser = CanonicalMachineMetadataParser { chars: chars_of(document), cursor: 0 };
        assert(parser.chars@.skip(0) =~= document@);
        parser
    }

    pub fn consume(&mut self, expected: &str) -> (r: Option<()>)
        requires
            old(self).well_formed(),
        ensures
            final(self).well_formed(),
            r is Some == (after_literal(old(self).rest(), expected@) is Some),
            r is Some ==> after_literal(old(self).rest(), expected@) == Some(final(self).rest()),
            r is None ==> final(self).rest() == old(self).rest(),
            r is Some == expected@.is_prefix_of(old(self).rest()),
            r is Some ==> old(self).rest() == expected@ + final(self).rest(),
    {
        let wanted: Vec<char> = chars_of(expected);
        if wanted.len() > self.chars.len() - self.cursor {
            return None;
        }
        let mut i: usize = 0;
        while i < wanted.len()
            invariant
                *self == *old(self),
                self.well_formed(),
                wanted@ == expected@,
                i <= wanted.len() <= self.chars.len() - self.cursor,
                forall|j: int| 0 <= j < i ==> #[trigger] wanted@[j] == self.chars@[self.cursor + j],
            decreases wanted.len() - i,
        {
            if wanted[i] != self.chars[self.cursor + i] {
                proof {
                    assert(self.rest()[i as int] == self.chars@[self.cursor + i]);
                    assert(!expected@.is_prefix_of(self.rest()));
                }
                return None;
            }
            i = i + 1;
        }
        proof {
            let rest = self.rest();
            assert forall|j: int| 0 <= j < expected@.len() implies expected@[j] == rest.subrange(
                0,
                expected@.len() as int,
            )[j] by {
                assert(wanted@[j] == self.chars@[self.cursor + j]);
            }
            assert(expected@ =~= rest.subrange(0, expected@.len() as int));
            assert(self.chars@.skip(self.cursor + wanted.len()) =~= rest.skip(
                expected@.len() as int,
            ));
        }
        self.cursor = self.cursor + wanted.len();
        Some(())
    }

    /// Reads one escape behind its backslash.
    fn read_escaped_json_char(&mut self) -> (r: Option<char>)
        requires
            old(self).well_formed(),
        ensures
            final(self).well_formed(),
            r is Some == (json_escape::unescape(old(self).rest()) is Some),
            r matches Some(c) ==> json_escape::unescape(old(self).rest()) == Some(
                (c, final(self).rest()),
            ) && final(self).rest().len() < old(self).rest().len(),
    {
        if self.cursor >= self.chars.len() {
            return None;
        }
        let c: char = self.chars[self.cursor];
        let ghost rest = self.rest();
        assert(rest[0] == c);
        if c == 'u' {
            if self.chars.len() - self.cursor < 5 {
                return None;
            }
            proof {
                assert(rest[1] == self.chars@[self.cursor + 1]);
                assert(rest[2] == self.chars@[self.cursor + 2]);
                assert(rest[3] == self.chars@[self.cursor + 3]);
                assert(rest[4] == self.chars@[self.cursor + 4]);
            }
            if self.chars[self.cursor + 1] != '0' || self.chars[self.cursor + 2] != '0' {
                return None;
            }
            let high: u8 = lowercase_hex_nibble(self.chars[self.cursor + 3])?;
            let low: u8 = lowercase_hex_nibble(self.chars[self.cursor + 4])?;
            proof {
                assert(json_escape::hex_value(rest[3]) == high);
                assert(json_escape::hex_value(rest[4]) == low);
                assert(self.chars@.skip(self.cursor + 5) =~= rest.skip(5));
            }
            self.cursor = self.cursor + 5;
            return Some((16 * high + low) as char);
        }
        let denoted: char = match c {
            '"' => '"',
            '\\' => '\\',
            'n' => '\n',
            'r' => '\r',
            't' => '\t',
            _ => {
                return None;
            },
        };
        assert(self.chars@.skip(self.cursor + 1) =~= rest.skip(1));
        self.cursor = self.cursor + 1;
        Some(denoted)
    }

    pub fn read_json_string_content(&mut self) -> (r: Option<String>)
        requires
            old(self).well_formed(),
        ensures
            final(self).well_formed(),
            r is Some == (json_escape::string_content(old(self).rest()) is Some),
            r matches Some(content) ==> json_escape::string_content(old(self).rest()) == Some(
                (content@, final(self).rest()),
            ),
            r matches Some(content) ==> final(self).rest().len() > 0 && final(self).rest()[0] == '"'
                && json_read::string_at(old(self).rest()) == Some(
                (content@, final(self).rest().skip(1)),
            ),
    {
        proof {
            json_read::lemma_content_is_read(self.rest());
        }
        let mut output: String = String::new();
        let ghost whole = json_escape::string_content(self.rest());
        proof {
            assert(prepended(output@, whole) == whole) by {
                if whole is Some {
                    assert(output@ + (whole->0).0 =~= (whole->0).0);
                }
            }
        }
        while self.cursor < self.chars.len()
            invariant
                self.well_formed(),
                whole == json_escape::string_content(old(self).rest()),
                whole == prepended(output@, json_escape::string_content(self.rest())),
            decreases self.rest().len(),
        {
            let c: char = self.chars[self.cursor];
            let ghost rest = self.rest();
            let ghost so_far = output@;
            assert(rest[0] == c);
            assert(rest.len() == self.chars.len() - self.cursor);
            if c == '"' {
                proof {
                    assert(so_far + Seq::<char>::empty() =~= so_far);
                    json_read::lemma_content_is_read(old(self).rest());
                }
                return Some(output);
            }
            if c == '\\' {
                assert(self.chars@.skip(self.cursor + 1) =~= rest.skip(1));
                self.cursor = self.cursor + 1;
                let denoted: char = self.read_escaped_json_char()?;
                output.push(denoted);
                proof {
                    lemma_prepended_push(
                        so_far,
                        denoted,
                        json_escape::string_content(self.rest()),
                    );
                }
            } else if (c as u32) < 32 {
                return None;
            } else {
                assert(self.chars@.skip(self.cursor + 1) =~= rest.skip(1));
                self.cursor = self.cursor + 1;
                output.push(c);
                proof {
                    lemma_prepended_push(so_far, c, json_escape::string_content(self.rest()));
                }
            }
        }
        None
    }

    pub fn read_decimal_u64(&mut self) -> (r: Option<u64>)
        requires
            old(self).well_formed(),
        ensures
            final(self).well_formed(),
            r is Some == (decimal_number(old(self).rest()) is Some),
            r matches Some(value) ==> decimal_number(old(self).rest()) == Some(
                (value as nat, final(self).rest()),
            ),
    {
        let start: usize = self.cursor;
        let mut value: u64 = 0;
        let ghost whole = self.rest();
        let ghost count = leading_digits(whole);
        proof {
            lemma_leading_digits(whole);
            assert(whole.skip(0) =~= whole);
            assert(whole.take(0) =~= Seq::empty());
        }
        while self.cursor < self.chars.len()
            invariant_except_break
                self.well_formed(),
                self.chars == old(self).chars,
                start <= self.cursor,
                whole == old(self).rest(),
                whole == self.chars@.skip(start as int),
                count == leading_digits(whole),
                count <= whole.len(),
                forall|i: int|
                    0 <= i < count ==> decimal::is_decimal_digit(#[trigger] whole[i]),
                count < whole.len() ==> !decimal::is_decimal_digit(whole[count as int]),
                self.cursor - start <= count,
                value == decimal::decimal_value(whole.take(self.cursor - start)),
            ensures
                self.well_formed(),
                self.chars == old(self).chars,
                start <= self.cursor,
                self.cursor - start == count,
                value == decimal::decimal_value(whole.take(self.cursor - start)),
            decreases self.chars.len() - self.cursor,
        {
            let c: char = self.chars[self.cursor];
            let ghost seen = self.cursor - start;
            assert(whole[seen] == c);
            if c < '0' || c > '9' {
                break;
            }
            let digit: u64 = c as u64 - 48;
            proof {
                let longer = whole.take(seen + 1);
                assert(longer.drop_last() =~= whole.take(seen));
                let digits = whole.take(count as int);
                assert(digits.take(seen + 1) =~= longer);
                decimal::lemma_decimal_value_grows(digits, seen + 1);
            }
            value = value.checked_mul(10)?.checked_add(digit)?;
            self.cursor = self.cursor + 1;
        }
        assert(self.chars@.skip(self.cursor as int) =~= whole.skip(count as int));
        if self.cursor > start {
            Some(value)
        } else {
            None
        }
    }

    pub fn skip_modified_unix_ms(&mut self) -> (r: Option<()>)
        requires
            old(self).well_formed(),
        ensures
            final(self).well_formed(),
            r is Some == (after_modified(old(self).rest()) is Some),
            r is Some ==> after_modified(old(self).rest()) == Some(final(self).rest()),
            r is Some ==> follows_modified(old(self).rest(), final(self).rest()),
    {
        proof {
            lemma_modified_is_followed(self.rest());
            reveal_strlit("null");
            assert("null"@ =~= null_word());
        }
        if self.consume("null").is_some() {
            return Some(());
        }
        let time: u64 = self.read_decimal_u64()?;
        Some(())
    }

    pub fn read_blake3_hex(&mut self) -> (r: Option<String>)
        requires
            old(self).well_formed(),
        ensures
            final(self).well_formed(),
            r is Some == (hash_text(old(self).rest()) is Some),
            r matches Some(hash) ==> hash_text(old(self).rest()) == Some(
                (hash@, final(self).rest()),
            ),
            r is Some == (old(self).rest().len() >= 64 && forall|i: int|
                0 <= i < 64 ==> digest::is_lower_hex(#[trigger] old(self).rest()[i])),
            r matches Some(hash) ==> hash@ == old(self).rest().take(64) && final(self).rest()
                == old(self).rest().skip(64),
    {
        proof {
            lemma_hash_is_read(self.rest());
        }
        let ghost whole = self.rest();
        if self.chars.len() - self.cursor < digest::BLAKE3_HEX_LEN {
            return None;
        }
        let ghost wanted = whole.take(digest::BLAKE3_HEX_LEN as int);
        let mut hash: String = text_with_room(digest::BLAKE3_HEX_LEN);
        let mut i: usize = 0;
        while i < digest::BLAKE3_HEX_LEN
            invariant
                *self == *old(self),
                self.well_formed(),
                i <= digest::BLAKE3_HEX_LEN <= self.chars.len() - self.cursor,
                wanted == self.chars@.skip(self.cursor as int).take(digest::BLAKE3_HEX_LEN as int),
                hash@ == wanted.take(i as int),
                forall|j: int| 0 <= j < i ==> digest::is_lower_hex(#[trigger] wanted[j]),
            decreases digest::BLAKE3_HEX_LEN - i,
        {
            let c: char = self.chars[self.cursor + i];
            assert(wanted[i as int] == c);
            if lowercase_hex_nibble(c).is_none() {
                proof {
                    lemma_hash_is_read(old(self).rest());
                }
                return None;
            }
            hash.push(c);
            assert(wanted.take(i + 1) =~= wanted.take(i as int).push(c));
            i = i + 1;
        }
        proof {
            assert(wanted.take(i as int) =~= wanted);
            assert(self.chars@.skip(self.cursor + digest::BLAKE3_HEX_LEN) =~= whole.skip(
                digest::BLAKE3_HEX_LEN as int,
            ));
        }
        self.cursor = self.cursor + digest::BLAKE3_HEX_LEN;
        Some(hash)
    }

    pub fn is_done(&self) -> (r: bool)
        requires
            self.well_formed(),
        ensures
            r == (self.rest().len() == 0),
    {
        self.cursor == self.chars.len()
    }
}

spec fn prepended(front: Seq<char>, parsed: Option<(Seq<char>, Seq<char>)>) -> Option<
    (Seq<char>, Seq<char>),
> {
    match parsed {
        None => None,
        Some((content, after)) => Some((front + content, after)),
    }
}

proof fn lemma_prepended_push(front: Seq<char>, c: char, parsed: Option<(Seq<char>, Seq<char>)>)
    ensures
        prepended(front, json_escape::with_first(c, parsed)) == prepended(front.push(c), parsed),
{
    if parsed is Some {
        assert(front + (seq![c] + (parsed->0).0) =~= front.push(c) + (parsed->0).0);
    }
}

proof fn lemma_leading_digits(rest: Seq<char>)
    ensures
        leading_digits(rest) <= rest.len(),
        forall|i: int|
            0 <= i < leading_digits(rest) ==> decimal::is_decimal_digit(#[trigger] rest[i]),
        leading_digits(rest) < rest.len() ==> !decimal::is_decimal_digit(
            rest[leading_digits(rest) as int],
        ),
    decreases rest.len(),
{
    if rest.len() > 0 && decimal::is_decimal_digit(rest[0]) {
        let tail = rest.skip(1);
        lemma_leading_digits(tail);
        assert forall|i: int| 0 <= i < leading_digits(rest) implies decimal::is_decimal_digit(
            #[trigger] rest[i],
        ) by {
            if i > 0 {
                assert(rest[i] == tail[i - 1]);
            }
        }
        if leading_digits(rest) < rest.len() {
            assert(rest[leading_digits(rest) as int] == tail[leading_digits(tail) as int]);
        }
    }
}

/// Reads a canonical document; `None` where the text has any other form.
pub fn parse_canonical_machine_metadata_document(metadata_json: &[u8]) -> (r: Option<
    MachineMetadataDocument,
>)
    ensures
        r is Some == (canonical_document_of_bytes(metadata_json@) is Some),
        r matches Some(document) ==> canonical_document_of_bytes(metadata_json@) == Some(document@),
        r matches Some(document) ==> {
            &&& document.schema@ == "dx.machine.source_metadata.v1"@
            &&& digest::is_blake3_hex_text(document.source.blake3@)
            &&& digest::is_blake3_hex_text(document.machine.blake3@)
            &&& document.cache.rebuildable
            &&& document.cache.fallback_on_mismatch
        },
{
    let document: String = utf8_text(metadata_json)?;
    let mut parser = CanonicalMachineMetadataParser::new(document.as_str());
    parser.consume(MACHINE_METADATA_SOURCE_PATH_PREFIX)?;
    let source_path: String = parser.read_json_string_content()?;
    parser.consume(MACHINE_METADATA_SOURCE_BYTES_PREFIX)?;
    let source_bytes: u64 = parser.read_decimal_u64()?;
    parser.consume(MACHINE_METADATA_MODIFIED_PREFIX)?;
    parser.skip_modified_unix_ms()?;
    parser.consume(MACHINE_METADATA_SOURCE_HASH_PREFIX)?;
    let source_hash: String = parser.read_blake3_hex()?;
    parser.consume(MACHINE_METADATA_MACHINE_PATH_PREFIX)?;
    let machine_path: String = parser.read_json_string_content()?;
    parser.consume(MACHINE_METADATA_MACHINE_BYTES_PREFIX)?;
    let machine_bytes: u64 = parser.read_decimal_u64()?;
    parser.consume(MACHINE_METADATA_MACHINE_HASH_PREFIX)?;
    let machine_hash: String = parser.read_blake3_hex()?;
    let ghost after_machine = parser.rest();
    proof {
        let suffix = MACHINE_METADATA_SUFFIX@;
        assert(suffix.subrange(0, suffix.len() as int) =~= suffix);
        assert(suffix.skip(suffix.len() as int) =~= Seq::empty());
        if suffix.is_prefix_of(after_machine) && after_machine.skip(suffix.len() as int).len()
            == 0 {
            assert(after_machine =~= suffix);
        }
    }
    parser.consume(MACHINE_METADATA_SUFFIX)?;
    if !parser.is_done() {
        return None;
    }
    Some(
        MachineMetadataDocument {
            schema: DX_MACHINE_METADATA_SCHEMA.to_owned(),
            source: MachineMetadataEntry {
                path: source_path,
                bytes: source_bytes,
                blake3: source_hash,
            },
            machine: MachineMetadataEntry {
                path: machine_path,
                bytes: machine_bytes,
                blake3: machine_hash,
            },
            cache: MachineCachePolicy { rebuildable: true, fallback_on_mismatch: true },
        },
    )
}

// ---------------------------------------------------------------------------------------------
// Writing a canonical document

/// A path as the metadata records it: Windows paths with forward slashes.
pub open spec fn recorded_path(path: Seq<char>, style: PathStyle) -> Seq<char> {
    match style {
        PathStyle::Unix => path,
        PathStyle::Windows => path.map_values(
            |c: char|
                if c == '\\' {
                    '/'
                } else {
                    c
                },
        ),
    }
}

pub fn recorded_metadata_path(path: &str, style: PathStyle) -> (recorded: String)
    ensures
        recorded@ == recorded_path(path@, style),
        recorded@.len() == path@.len(),
        style is Unix ==> recorded@ == path@,
        style is Windows ==> forall|i: int|
            0 <= i < path@.len() ==> #[trigger] recorded@[i] == if path@[i] == '\\' {
                '/'
            } else {
                path@[i]
            },
{
    match style {
        PathStyle::Unix => path.to_owned(),
        PathStyle::Windows => {
            let chars: Vec<char> = chars_of(path);
            let mut recorded: String = text_with_room(byte_len(path));
            let mut i: usize = 0;
            let ghost wanted = recorded_path(path@, PathStyle::Windows);
            while i < chars.len()
                invariant
                    chars@ == path@,
                    i <= chars.len(),
                    wanted == recorded_path(path@, PathStyle::Windows),
                    recorded@ == wanted.take(i as int),
                decreases chars.len() - i,
            {
                if chars[i] == '\\' {
                    recorded.push('/');
                } else {
                    recorded.push(chars[i]);
                }
                assert(wanted.take(i + 1) =~= wanted.take(i as int).push(wanted[i as int]));
                i = i + 1;
            }
            assert(wanted.take(i as int) =~= wanted);
            recorded
        },
    }
}

/// A recorded path still names the path it was recorded for.
pub proof fn lemma_recorded_path_matches(path: Seq<char>, style: PathStyle)
    ensures
        path_text::paths_match(recorded_path(path, style), path, style),
{
    match style {
        PathStyle::Unix => {
            path_text::lemma_paths_match_equivalence(path, path, path, style);
        },
        PathStyle::Windows => {
            path_text::lemma_windows_texts_match_components(recorded_path(path, style), path);
        },
    }
}

pub fn push_json_escape_path(output: &mut String, path: &str, style: PathStyle)
    ensures
        final(output)@ == old(output)@ + json_escape::json_escaped(recorded_path(path@, style)),
{
    let recorded: String = recorded_metadata_path(path, style);
    push_json_escape(output, recorded.as_str());
}

/// The number of bytes that `push_json_escape_path` appends.
pub fn json_escaped_path_len(path: &str, style: PathStyle) -> (len: usize)
    ensures
        len == text::capped(
            encode_utf8(json_escape::json_escaped(recorded_path(path@, style))).len(),
        ),
{
    json_escaped_len(recorded_metadata_path(path, style).as_str())
}

pub fn json_escape_path(path: &str, style: PathStyle) -> (escaped: String)
    ensures
        escaped@ == json_escape::json_escaped(recorded_path(path@, style)),
{
    let mut output: String = text_with_room(json_escaped_path_len(path, style));
    push_json_escape_path(&mut output, path, style);
    assert(output@ =~= json_escape::json_escaped(recorded_path(path@, style)));
    output
}

/// A modification time in milliseconds, where one is known.
#[derive(Debug, Clone, Copy)]
pub struct ModifiedUnixMsJson(pub Option<u128>);

pub open spec fn modified_text(modified: Option<u128>) -> Seq<char> {
    match modified {
        Some(value) => decimal::decimal_text(value as nat),
        None => null_word(),
    }
}

impl ModifiedUnixMsJson {
    pub fn json_len(&self) -> (len: usize)
        ensures
            len == modified_text(self.0).len(),
            self.0 is None ==> len == 4,
            self.0 matches Some(value) ==> len == decimal::decimal_text(value as nat).len(),
    {
        match self.0 {
            Some(value) => decimal_u128_len(value),
            None => 4,
        }
    }

    pub fn json_text(&self) -> (output: String)
        ensures
            output@ == modified_text(self.0),
            self.0 is None ==> output@ == "null"@,
            self.0 matches Some(value) ==> output@ == decimal::decimal_text(value as nat),
    {
        match self.0 {
            Some(value) => decimal::itoa_numeral(value),
            None => {
                proof {
                    reveal_strlit("null");
                    assert("null"@ =~= null_word());
                }
                "null".to_owned()
            },
        }
    }
}

pub fn push_modified_unix_ms_json(output: &mut String, modified_unix_ms: &ModifiedUnixMsJson)
    ensures
        final(output)@ == old(output)@ + modified_text(modified_unix_ms.0),
        modified_unix_ms.0 is None ==> final(output)@ == old(output)@ + "null"@,
        modified_unix_ms.0 matches Some(value) ==> final(output)@ == old(output)@
            + decimal::decimal_text(value as nat),
{
    output.push_str(modified_unix_ms.json_text().as_str());
}

/// A file as a freshly written document records it.
pub open spec fn fresh_entry(
    path: Seq<char>,
    len: nat,
    hash: Seq<u8>,
    style: PathStyle,
) -> EntryModel {
    EntryModel { path: recorded_path(path, style), bytes: len, blake3: digest::hex_text(hash) }
}

/// The number of bytes in the encoding of a canonical text.
#[verifier::opaque]
pub open spec fn canonical_len(source: EntryModel, modified: Seq<char>, machine: EntryModel) -> nat {
    encode_utf8(canonical_text(source, modified, machine)).len()
}

proof fn lemma_canonical_len(source: EntryModel, modified: Seq<char>, machine: EntryModel)
    ensures
        canonical_len(source, modified, machine) == encode_utf8(
            MACHINE_METADATA_SOURCE_PATH_PREFIX@,
        ).len() + encode_utf8(json_escape::json_escaped(source.path)).len() + encode_utf8(
            MACHINE_METADATA_SOURCE_BYTES_PREFIX@,
        ).len() + encode_utf8(decimal::decimal_text(source.bytes)).len() + encode_utf8(
            MACHINE_METADATA_MODIFIED_PREFIX@,
        ).len() + encode_utf8(modified).len() + encode_utf8(
            MACHINE_METADATA_SOURCE_HASH_PREFIX@,
        ).len() + encode_utf8(source.blake3).len() + encode_utf8(
            MACHINE_METADATA_MACHINE_PATH_PREFIX@,
        ).len() + encode_utf8(json_escape::json_escaped(machine.path)).len() + encode_utf8(
            MACHINE_METADATA_MACHINE_BYTES_PREFIX@,
        ).len() + encode_utf8(decimal::decimal_text(machine.bytes)).len() + encode_utf8(
            MACHINE_METADATA_MACHINE_HASH_PREFIX@,
        ).len() + encode_utf8(machine.blake3).len() + encode_utf8(MACHINE_METADATA_SUFFIX@).len(),
{
    reveal(canonical_len);
    let t14 = machine.blake3 + MACHINE_METADATA_SUFFIX@;
    let t13 = MACHINE_METADATA_MACHINE_HASH_PREFIX@ + t14;
    let t12 = decimal::decimal_text(machine.bytes) + t13;
    let t11 = MACHINE_METADATA_MACHINE_BYTES_PREFIX@ + t12;
    let t10 = json_escape::json_escaped(machine.path) + t11;
    let t9 = MACHINE_METADATA_MACHINE_PATH_PREFIX@ + t10;
    let t8 = source.blake3 + t9;
    let t7 = MACHINE_METADATA_SOURCE_HASH_PREFIX@ + t8;
    let t6 = modified + t7;
    let t5 = MACHINE_METADATA_MODIFIED_PREFIX@ + t6;
    let t4 = decimal::decimal_text(source.bytes) + t5;
    let t3 = MACHINE_METADATA_SOURCE_BYTES_PREFIX@ + t4;
    let t2 = json_escape::json_escaped(source.path) + t3;
    text::lemma_encode_concat(machine.blake3, MACHINE_METADATA_SUFFIX@);
    text::lemma_encode_concat(MACHINE_METADATA_MACHINE_HASH_PREFIX@, t14);
    text::lemma_encode_concat(decimal::decimal_text(machine.bytes), t13);
    text::lemma_encode_concat(MACHINE_METADATA_MACHINE_BYTES_PREFIX@, t12);
    text::lemma_encode_concat(json_escape::json_escaped(machine.path), t11);
    text::lemma_encode_concat(MACHINE_METADATA_MACHINE_PATH_PREFIX@, t10);
    text::lemma_encode_concat(source.blake3, t9);
    text::lemma_encode_concat(MACHINE_METADATA_SOURCE_HASH_PREFIX@, t8);
    text::lemma_encode_concat(modified, t7);
    text::lemma_encode_concat(MACHINE_METADATA_MODIFIED_PREFIX@, t6);
    text::lemma_encode_concat(decimal::decimal_text(source.bytes), t5);
    text::lemma_encode_concat(MACHINE_METADATA_SOURCE_BYTES_PREFIX@, t4);
    text::lemma_encode_concat(json_escape::json_escaped(source.path), t3);
    text::lemma_encode_concat(MACHINE_METADATA_SOURCE_PATH_PREFIX@, t2);
}

proof fn lemma_decimal_text_bytes(value: nat)
    ensures
        encode_utf8(decimal::decimal_text(value)).len() == decimal::decimal_text(value).len(),
{
    let numeral = decimal::decimal_text(value);
    decimal::lemma_decimal_text(value);
    assert forall|i: int| 0 <= i < numeral.len() implies '\0' <= #[trigger] numeral[i] <= '\u{7f}' by {
        assert(decimal::is_decimal_digit(numeral[i]));
    }
    assert(is_ascii_chars(numeral));
    text::lemma_encode_ascii_len(numeral);
}

proof fn lemma_hex_text_bytes(hash: Seq<u8>)
    ensures
        encode_utf8(digest::hex_text(hash)).len() == 2 * hash.len(),
{
    let hex = digest::hex_text(hash);
    assert forall|i: int| 0 <= i < hex.len() implies '\0' <= #[trigger] hex[i] <= '\u{7f}' by {
    }
    assert(is_ascii_chars(hex));
    text::lemma_encode_ascii_len(hex);
}

proof fn lemma_fresh_len(
    source_path: Seq<char>,
    source_len: nat,
    source_hash: Seq<u8>,
    modified: Option<u128>,
    machine_path: Seq<char>,
    machine_len: nat,
    machine_hash: Seq<u8>,
    style: PathStyle,
)
    requires
        source_hash.len() == 32,
        machine_hash.len() == 32,
    ensures
        canonical_len(
            fresh_entry(source_path, source_len, source_hash, style),
            modified_text(modified),
            fresh_entry(machine_path, machine_len, machine_hash, style),
        ) == encode_utf8(MACHINE_METADATA_SOURCE_PATH_PREFIX@).len() + encode_utf8(
            json_escape::json_escaped(recorded_path(source_path, style)),
        ).len() + encode_utf8(MACHINE_METADATA_SOURCE_BYTES_PREFIX@).len() + decimal::decimal_text(
            source_len,
        ).len() + encode_utf8(MACHINE_METADATA_MODIFIED_PREFIX@).len() + modified_text(
            modified,
        ).len() + encode_utf8(MACHINE_METADATA_SOURCE_HASH_PREFIX@).len() + 64 + encode_utf8(
            MACHINE_METADATA_MACHINE_PATH_PREFIX@,
        ).len() + encode_utf8(
            json_escape::json_escaped(recorded_path(machine_path, style)),
        ).len() + encode_utf8(MACHINE_METADATA_MACHINE_BYTES_PREFIX@).len()
            + decimal::decimal_text(machine_len).len() + encode_utf8(
            MACHINE_METADATA_MACHINE_HASH_PREFIX@,
        ).len() + 64 + encode_utf8(MACHINE_METADATA_SUFFIX@).len(),
{
    lemma_decimal_text_bytes(source_len);
    lemma_decimal_text_bytes(machine_len);
    assert(encode_utf8(modified_text(modified)).len() == modified_text(modified).len()) by {
        match modified {
            Some(value) => {
                lemma_decimal_text_bytes(value as nat);
            },
            None => {
                assert(is_ascii_chars(null_word()));
                text::lemma_encode_ascii_len(null_word());
            },
        }
    }
    lemma_hex_text_bytes(source_hash);
    lemma_hex_text_bytes(machine_hash);
    lemma_canonical_len(
        fresh_entry(source_path, source_len, source_hash, style),
        modified_text(modified),
        fresh_entry(machine_path, machine_len, machine_hash, style),
    );
}

/// The size of the document that `machine_metadata_json_with_source_hash` writes.
pub fn machine_metadata_json_len(
    source_path: &str,
    source_len: usize,
    modified_unix_ms: &ModifiedUnixMsJson,
    machine_path: &str,
    machine_len: usize,
    style: PathStyle,
) -> (len: usize)
    ensures
        forall|source_hash: Seq<u8>, machine_hash: Seq<u8>|
            source_hash.len() == 32 && machine_hash.len() == 32 ==> len == text::capped(
                #[trigger] canonical_len(
                    fresh_entry(source_path@, source_len as nat, source_hash, style),
                    modified_text(modified_unix_ms.0),
                    fresh_entry(machine_path@, machine_len as nat, machine_hash, style),
                ),
            ),
{
    let total: u128 = byte_len(MACHINE_METADATA_SOURCE_PATH_PREFIX) as u128
        + json_escaped_path_len(source_path, style) as u128 + byte_len(
        MACHINE_METADATA_SOURCE_BYTES_PREFIX,
    ) as u128 + decimal_usize_len(source_len) as u128 + byte_len(
        MACHINE_METADATA_MODIFIED_PREFIX,
    ) as u128 + modified_unix_ms.json_len() as u128 + byte_len(
        MACHINE_METADATA_SOURCE_HASH_PREFIX,
    ) as u128 + digest::BLAKE3_HEX_LEN as u128 + byte_len(
        MACHINE_METADATA_MACHINE_PATH_PREFIX,
    ) as u128 + json_escaped_path_len(machine_path, style) as u128 + byte_len(
        MACHINE_METADATA_MACHINE_BYTES_PREFIX,
    ) as u128 + decimal_usize_len(machine_len) as u128 + byte_len(
        MACHINE_METADATA_MACHINE_HASH_PREFIX,
    ) as u128 + digest::BLAKE3_HEX_LEN as u128 + byte_len(MACHINE_METADATA_SUFFIX) as u128;
    let len: usize = if total <= usize::MAX as u128 {
        total as usize
    } else {
        usize::MAX
    };
    proof {
        assert forall|source_hash: Seq<u8>, machine_hash: Seq<u8>|
            source_hash.len() == 32 && machine_hash.len() == 32 implies len == text::capped(
            #[trigger] canonical_len(
                fresh_entry(source_path@, source_len as nat, source_hash, style),
                modified_text(modified_unix_ms.0),
                fresh_entry(machine_path@, machine_len as nat, machine_hash, style),
            ),
        ) by {
            lemma_fresh_len(
                source_path@,
                source_len as nat,
                source_hash,
                modified_unix_ms.0,
                machine_path@,
                machine_len as nat,
                machine_hash,
                style,
            );
        }
    }
    len
}

/// The metadata text for a source of which only length and digest are at hand.
pub open spec fn written_metadata(
    source_path: Seq<char>,
    source_len: nat,
    source_hash: Seq<u8>,
    machine_path: Seq<char>,
    machine_bytes: Seq<u8>,
    style: PathStyle,
) -> Seq<char> {
    canonical_text(
        fresh_entry(source_path, source_len, source_hash, style),
        null_word(),
        fresh_entry(
            machine_path,
            machine_bytes.len(),
            digest::blake3_digest(machine_bytes),
            style,
        ),
    )
}

proof fn lemma_append_behind(front: Seq<char>, piece: Seq<char>, after: Seq<char>)
    ensures
        front + (piece + after) == (front + piece) + after,
{
    assert(front + (piece + after) =~= (front + piece) + after);
}

/// Appending the pieces one after the other gives the canonical text.
proof fn lemma_canonical_text_left_to_right(
    source: EntryModel,
    modified: Seq<char>,
    machine: EntryModel,
)
    ensures
        canonical_text(source, modified, machine) == MACHINE_METADATA_SOURCE_PATH_PREFIX@
            + json_escape::json_escaped(source.path) + MACHINE_METADATA_SOURCE_BYTES_PREFIX@
            + decimal::decimal_text(source.bytes) + MACHINE_METADATA_MODIFIED_PREFIX@ + modified
            + MACHINE_METADATA_SOURCE_HASH_PREFIX@ + source.blake3
            + MACHINE_METADATA_MACHINE_PATH_PREFIX@ + json_escape::json_escaped(machine.path)
            + MACHINE_METADATA_MACHINE_BYTES_PREFIX@ + decimal::decimal_text(machine.bytes)
            + MACHINE_METADATA_MACHINE_HASH_PREFIX@ + machine.blake3 + MACHINE_METADATA_SUFFIX@,
{
    let x2 = json_escape::json_escaped(source.path);
    let x4 = decimal::decimal_text(source.bytes);
    let x10 = json_escape::json_escaped(machine.path);
    let x12 = decimal::decimal_text(machine.bytes);
    let t14 = machine.blake3 + MACHINE_METADATA_SUFFIX@;
    let t13 = MACHINE_METADATA_MACHINE_HASH_PREFIX@ + t14;
    let t12 = x12 + t13;
    let t11 = MACHINE_METADATA_MACHINE_BYTES_PREFIX@ + t12;
    let t10 = x10 + t11;
    let t9 = MACHINE_METADATA_MACHINE_PATH_PREFIX@ + t10;
    let t8 = source.blake3 + t9;
    let t7 = MACHINE_METADATA_SOURCE_HASH_PREFIX@ + t8;
    let t6 = modified + t7;
    let t5 = MACHINE_METADATA_MODIFIED_PREFIX@ + t6;
    let t4 = x4 + t5;
    let t3 = MACHINE_METADATA_SOURCE_BYTES_PREFIX@ + t4;
    let s1 = MACHINE_METADATA_SOURCE_PATH_PREFIX@;
    let s2 = s1 + x2;
    let s3 = s2 + MACHINE_METADATA_SOURCE_BYTES_PREFIX@;
    let s4 = s3 + x4;
    let s5 = s4 + MACHINE_METADATA_MODIFIED_PREFIX@;
    let s6 = s5 + modified;
    let s7 = s6 + MACHINE_METADATA_SOURCE_HASH_PREFIX@;
    let s8 = s7 + source.blake3;
    let s9 = s8 + MACHINE_METADATA_MACHINE_PATH_PREFIX@;
    let s10 = s9 + x10;
    let s11 = s10 + MACHINE_METADATA_MACHINE_BYTES_PREFIX@;
    let s12 = s11 + x12;
    let s13 = s12 + MACHINE_METADATA_MACHINE_HASH_PREFIX@;
    lemma_append_behind(s1, x2, t3);
    lemma_append_behind(s2, MACHINE_METADATA_SOURCE_BYTES_PREFIX@, t4);
    lemma_append_behind(s3, x4, t5);
    lemma_append_behind(s4, MACHINE_METADATA_MODIFIED_PREFIX@, t6);
    lemma_append_behind(s5, modified, t7);
    lemma_append_behind(s6, MACHINE_METADATA_SOURCE_HASH_PREFIX@, t8);
    lemma_append_behind(s7, source.blake3, t9);
    lemma_append_behind(s8, MACHINE_METADATA_MACHINE_PATH_PREFIX@, t10);
    lemma_append_behind(s9, x10, t11);
    lemma_append_behind(s10, MACHINE_METADATA_MACHINE_BYTES_PREFIX@, t12);
    lemma_append_behind(s11, x12, t13);
    lemma_append_behind(s12, MACHINE_METADATA_MACHINE_HASH_PREFIX@, t14);
    lemma_append_behind(s13, machine.blake3, MACHINE_METADATA_SUFFIX@);
}

pub fn machine_metadata_json_with_source_hash(
    source_path: &str,
    source_len: usize,
    source_hash: &[u8; 32],
    machine_path: &str,
    machine_bytes: &[u8],
    style: PathStyle,
) -> (metadata: String)
    ensures
        metadata@ == written_metadata(
            source_path@,
            source_len as nat,
            source_hash@,
            machine_path@,
            machine_bytes@,
            style,
        ),
{
    let modified_unix_ms = ModifiedUnixMsJson(None);
    let machine_hash: [u8; 32] = blake3_hash(machine_bytes);
    let mut metadata: String = text_with_room(
        machine_metadata_json_len(
            source_path,
            source_len,
            &modified_unix_ms,
            machine_path,
            machine_bytes.len(),
            style,
        ),
    );
    metadata.push_str(MACHINE_METADATA_SOURCE_PATH_PREFIX);
    push_json_escape_path(&mut metadata, source_path, style);
    metadata.push_str(MACHINE_METADATA_SOURCE_BYTES_PREFIX);
    push_decimal_usize_json(&mut metadata, source_len);
    metadata.push_str(MACHINE_METADATA_MODIFIED_PREFIX);
    push_modified_unix_ms_json(&mut metadata, &modified_unix_ms);
    metadata.push_str(MACHINE_METADATA_SOURCE_HASH_PREFIX);
    push_blake3_hex(&mut metadata, source_hash);
    metadata.push_str(MACHINE_METADATA_MACHINE_PATH_PREFIX);
    push_json_escape_path(&mut metadata, machine_path, style);
    metadata.push_str(MACHINE_METADATA_MACHINE_BYTES_PREFIX);
    push_decimal_usize_json(&mut metadata, machine_bytes.len());
    metadata.push_str(MACHINE_METADATA_MACHINE_HASH_PREFIX);
    push_blake3_hex(&mut metadata, &machine_hash);
    metadata.push_str(MACHINE_METADATA_SUFFIX);
    proof {
        assert(Seq::<char>::empty() + MACHINE_METADATA_SOURCE_PATH_PREFIX@
            =~= MACHINE_METADATA_SOURCE_PATH_PREFIX@);
        lemma_canonical_text_left_to_right(
            fresh_entry(source_path@, source_len as nat, source_hash@, style),
            null_word(),
            fresh_entry(machine_path@, machine_bytes@.len(), machine_hash@, style),
        );
    }
    metadata
}

pub fn machine_metadata_json(
    source_path: &str,
    source_bytes: &[u8],
    machine_path: &str,
    machine_bytes: &[u8],
    style: PathStyle,
) -> (metadata: String)
    ensures
        metadata@ == written_metadata(
            source_path@,
            source_bytes@.len(),
            digest::blake3_digest(source_bytes@),
            machine_path@,
            machine_bytes@,
            style,
        ),
{
    let source_hash: [u8; 32] = blake3_hash(source_bytes);
    machine_metadata_json_with_source_hash(
        source_path,
        source_bytes.len(),
        &source_hash,
        machine_path,
        machine_bytes,
        style,
    )
}

proof fn lemma_after_literal(expected: Seq<char>, after: Seq<char>)
    ensures
        after_literal(expected + after, expected) == Some(after),
{
    let whole = expected + after;
    assert(whole.subrange(0, expected.len() as int) =~= expected);
    assert(whole.skip(expected.len() as int) =~= after);
}

proof fn lemma_leading_digits_of_run(digits: Seq<char>, after: Seq<char>)
    requires
        forall|i: int| 0 <= i < digits.len() ==> decimal::is_decimal_digit(#[trigger] digits[i]),
        after.len() > 0,
        !decimal::is_decimal_digit(after[0]),
    ensures
        leading_digits(digits + after) == digits.len(),
    decreases digits.len(),
{
    let whole = digits + after;
    if digits.len() == 0 {
        assert(whole =~= after);
    } else {
        assert(decimal::is_decimal_digit(digits[0]));
        let tail = digits.skip(1);
        assert forall|i: int| 0 <= i < tail.len() implies decimal::is_decimal_digit(
            #[trigger] tail[i],
        ) by {
            assert(tail[i] == digits[i + 1]);
        }
        lemma_leading_digits_of_run(tail, after);
        assert(whole.skip(1) =~= tail + after);
    }
}

proof fn lemma_decimal_number(value: nat, after: Seq<char>)
    requires
        value <= u64::MAX,
        after.len() > 0,
        !decimal::is_decimal_digit(after[0]),
    ensures
        decimal_number(decimal::decimal_text(value) + after) == Some((value, after)),
{
    let digits = decimal::decimal_text(value);
    decimal::lemma_decimal_text(value);
    lemma_leading_digits_of_run(digits, after);
    assert((digits + after).take(digits.len() as int) =~= digits);
    assert((digits + after).skip(digits.len() as int) =~= after);
}

proof fn lemma_hash_text(hash: Seq<char>, after: Seq<char>)
    requires
        digest::is_blake3_hex_text(hash),
    ensures
        hash_text(hash + after) == Some((hash, after)),
{
    assert((hash + after).take(digest::BLAKE3_HEX_LEN as int) =~= hash);
    assert((hash + after).skip(digest::BLAKE3_HEX_LEN as int) =~= after);
}

/// A modification time as it may stand in a canonical document.
pub open spec fn is_modified_text(modified: Seq<char>) -> bool {
    modified == null_word() || exists|value: nat|
        value <= u64::MAX && modified == #[trigger] decimal::decimal_text(value)
}

proof fn lemma_appended(front: Seq<char>, middle: Seq<char>, tail: Seq<char>)
    ensures
        (front + middle) + tail == front + (middle + tail),
{
    assert((front + middle) + tail =~= front + (middle + tail));
}

/// What follows a canonical text stands behind its last piece.
proof fn lemma_text_behind_canonical(
    source: EntryModel,
    modified: Seq<char>,
    machine: EntryModel,
    tail: Seq<char>,
)
    ensures
        canonical_text(source, modified, machine) + tail ==
            MACHINE_METADATA_SOURCE_PATH_PREFIX@ + (json_escape::json_escaped(source.path) + (
            MACHINE_METADATA_SOURCE_BYTES_PREFIX@ + (decimal::decimal_text(source.bytes) + (
            MACHINE_METADATA_MODIFIED_PREFIX@ + (modified + (MACHINE_METADATA_SOURCE_HASH_PREFIX@ + (
            source.blake3 + (MACHINE_METADATA_MACHINE_PATH_PREFIX@ + (
            json_escape::json_escaped(machine.path) + (MACHINE_METADATA_MACHINE_BYTES_PREFIX@ + (
            decimal::decimal_text(machine.bytes) + (MACHINE_METADATA_MACHINE_HASH_PREFIX@ + (
            machine.blake3 + (MACHINE_METADATA_SUFFIX@ + tail)))))))))))))),
{
    let u15 = MACHINE_METADATA_SUFFIX@;
    let u14 = machine.blake3 + u15;
    let u13 = MACHINE_METADATA_MACHINE_HASH_PREFIX@ + u14;
    let u12 = decimal::decimal_text(machine.bytes) + u13;
    let u11 = MACHINE_METADATA_MACHINE_BYTES_PREFIX@ + u12;
    let u10 = json_escape::json_escaped(machine.path) + u11;
    let u9 = MACHINE_METADATA_MACHINE_PATH_PREFIX@ + u10;
    let u8 = source.blake3 + u9;
    let u7 = MACHINE_METADATA_SOURCE_HASH_PREFIX@ + u8;
    let u6 = modified + u7;
    let u5 = MACHINE_METADATA_MODIFIED_PREFIX@ + u6;
    let u4 = decimal::decimal_text(source.bytes) + u5;
    let u3 = MACHINE_METADATA_SOURCE_BYTES_PREFIX@ + u4;
    let u2 = json_escape::json_escaped(source.path) + u3;
    let u1 = MACHINE_METADATA_SOURCE_PATH_PREFIX@ + u2;
    lemma_appended(machine.blake3, u15, tail);
    lemma_appended(MACHINE_METADATA_MACHINE_HASH_PREFIX@, u14, tail);
    lemma_appended(decimal::decimal_text(machine.bytes), u13, tail);
    lemma_appended(MACHINE_METADATA_MACHINE_BYTES_PREFIX@, u12, tail);
    lemma_appended(json_escape::json_escaped(machine.path), u11, tail);
    lemma_appended(MACHINE_METADATA_MACHINE_PATH_PREFIX@, u10, tail);
    lemma_appended(source.blake3, u9, tail);
    lemma_appended(MACHINE_METADATA_SOURCE_HASH_PREFIX@, u8, tail);
    lemma_appended(modified, u7, tail);
    lemma_appended(MACHINE_METADATA_MODIFIED_PREFIX@, u6, tail);
    lemma_appended(decimal::decimal_text(source.bytes), u5, tail);
    lemma_appended(MACHINE_METADATA_SOURCE_BYTES_PREFIX@, u4, tail);
    lemma_appended(json_escape::json_escaped(source.path), u3, tail);
    lemma_appended(MACHINE_METADATA_SOURCE_PATH_PREFIX@, u2, tail);
}

/// A canonical text is read to its end: it gives back the document that it was written for, and
/// nothing where anything follows.
#[verifier::spinoff_prover]
#[verifier::rlimit(40)]
proof fn lemma_canonical_text_is_read_to_its_end(
    source: EntryModel,
    modified: Seq<char>,
    machine: EntryModel,
    tail: Seq<char>,
)
    requires
        source.bytes <= u64::MAX,
        machine.bytes <= u64::MAX,
        digest::is_blake3_hex_text(source.blake3),
        digest::is_blake3_hex_text(machine.blake3),
        is_modified_text(modified),
    ensures
        canonical_document(canonical_text(source, modified, machine) + tail) == if tail.len() == 0 {
            Some(written_document(source, machine))
        } else {
            None
        },
{
    reveal_strlit("\",\n    \"bytes\": ");
    reveal_strlit(",\n    \"modified_unix_ms\": ");
    reveal_strlit(",\n    \"blake3\": \"");
    let end = MACHINE_METADATA_SUFFIX@ + tail;
    let t14 = machine.blake3 + end;
    let t13 = MACHINE_METADATA_MACHINE_HASH_PREFIX@ + t14;
    let t12 = decimal::decimal_text(machine.bytes) + t13;
    let t11 = MACHINE_METADATA_MACHINE_BYTES_PREFIX@ + t12;
    let t10 = json_escape::json_escaped(machine.path) + t11;
    let t9 = MACHINE_METADATA_MACHINE_PATH_PREFIX@ + t10;
    let t8 = source.blake3 + t9;
    let t7 = MACHINE_METADATA_SOURCE_HASH_PREFIX@ + t8;
    let t6 = modified + t7;
    let t5 = MACHINE_METADATA_MODIFIED_PREFIX@ + t6;
    let t4 = decimal::decimal_text(source.bytes) + t5;
    let t3 = MACHINE_METADATA_SOURCE_BYTES_PREFIX@ + t4;
    let t2 = json_escape::json_escaped(source.path) + t3;
    lemma_after_literal(MACHINE_METADATA_SOURCE_PATH_PREFIX@, t2);
    json_escape::lemma_escape_round_trip(source.path, t3);
    lemma_after_literal(MACHINE_METADATA_SOURCE_BYTES_PREFIX@, t4);
    lemma_decimal_number(source.bytes, t5);
    lemma_after_literal(MACHINE_METADATA_MODIFIED_PREFIX@, t6);
    assert(after_modified(t6) == Some(t7)) by {
        if modified == null_word() {
            lemma_after_literal(null_word(), t7);
        } else {
            let value = choose|value: nat|
                value <= u64::MAX && modified == #[trigger] decimal::decimal_text(value);
            decimal::lemma_decimal_text(value);
            assert(decimal::is_decimal_digit(modified[0]));
            assert(t6[0] == modified[0]);
            if null_word().is_prefix_of(t6) {
                assert(null_word()[0] == t6.subrange(0, 4)[0]);
            }
            lemma_decimal_number(value, t7);
        }
    }
    lemma_after_literal(MACHINE_METADATA_SOURCE_HASH_PREFIX@, t8);
    lemma_hash_text(source.blake3, t9);
    lemma_after_literal(MACHINE_METADATA_MACHINE_PATH_PREFIX@, t10);
    json_escape::lemma_escape_round_trip(machine.path, t11);
    lemma_after_literal(MACHINE_METADATA_MACHINE_BYTES_PREFIX@, t12);
    lemma_decimal_number(machine.bytes, t13);
    lemma_after_literal(MACHINE_METADATA_MACHINE_HASH_PREFIX@, t14);
    lemma_hash_text(machine.blake3, end);
    lemma_text_behind_canonical(source, modified, machine, tail);
    if tail.len() == 0 {
        assert(end =~= MACHINE_METADATA_SUFFIX@);
    } else {
        assert(end.len() != MACHINE_METADATA_SUFFIX@.len());
    }
}

/// Reading a canonical text gives back the document that it was written for, whatever
/// modification time it holds.
pub proof fn lemma_canonical_round_trip(
    source: EntryModel,
    modified: Seq<char>,
    machine: EntryModel,
)
    requires
        source.bytes <= u64::MAX,
        machine.bytes <= u64::MAX,
        digest::is_blake3_hex_text(source.blake3),
        digest::is_blake3_hex_text(machine.blake3),
        is_modified_text(modified),
    ensures
        canonical_document(canonical_text(source, modified, machine)) == Some(
            written_document(source, machine),
        ),
{
    let whole = canonical_text(source, modified, machine);
    assert(whole + Seq::<char>::empty() =~= whole);
    lemma_canonical_text_is_read_to_its_end(source, modified, machine, Seq::empty());
}

/// A canonical document with even one more byte behind it is refused.
pub proof fn lemma_nothing_follows_a_canonical_document(
    source: EntryModel,
    modified: Seq<char>,
    machine: EntryModel,
    tail: Seq<u8>,
)
    requires
        source.bytes <= u64::MAX,
        machine.bytes <= u64::MAX,
        digest::is_blake3_hex_text(source.blake3),
        digest::is_blake3_hex_text(machine.blake3),
        is_modified_text(modified),
        tail.len() > 0,
    ensures
        canonical_document_of_bytes(
            encode_utf8(canonical_text(source, modified, machine)) + tail,
        ) is None,
{
    let front = canonical_text(source, modified, machine);
    let bytes = encode_utf8(front);
    let whole = bytes + tail;
    if valid_utf8(whole) {
        encode_utf8_valid_utf8(front);
        encode_utf8_decode_utf8(front);
        text::lemma_text_ends_between_chars(bytes, tail);
        decode_utf8_split(whole, bytes.len() as int);
        valid_utf8_split(whole, bytes.len() as int);
        assert(whole.subrange(0, bytes.len() as int) =~= bytes);
        assert(whole.subrange(bytes.len() as int, whole.len() as int) =~= tail);
        assert(decode_utf8(tail).len() > 0);
        lemma_canonical_text_is_read_to_its_end(source, modified, machine, decode_utf8(tail));
    }
}

/// Whether one text is the other behind a time or the word for none, all of it.
pub open spec fn follows_modified(rest: Seq<char>, after: Seq<char>) -> bool {
    ||| rest == "null"@ + after
    ||| exists|digits: Seq<char>|
        {
            &&& rest == #[trigger] (digits + after)
            &&& digits.len() > 0
            &&& forall|i: int|
                0 <= i < digits.len() ==> decimal::is_decimal_digit(#[trigger] digits[i])
            &&& after.len() > 0 ==> !decimal::is_decimal_digit(after[0])
        }
}

proof fn lemma_all_leading_digits(rest: Seq<char>)
    ensures
        leading_digits(rest) <= rest.len(),
        forall|i: int|
            0 <= i < leading_digits(rest) ==> decimal::is_decimal_digit(#[trigger] rest[i]),
        leading_digits(rest) < rest.len() ==> !decimal::is_decimal_digit(
            rest[leading_digits(rest) as int],
        ),
    decreases rest.len(),
{
    if rest.len() > 0 && decimal::is_decimal_digit(rest[0]) {
        lemma_all_leading_digits(rest.skip(1));
        assert forall|i: int| 0 <= i < leading_digits(rest) implies decimal::is_decimal_digit(
            #[trigger] rest[i],
        ) by {
            if i > 0 {
                assert(rest[i] == rest.skip(1)[i - 1]);
            }
        }
    }
}

/// A number is read to its last digit.
pub proof fn lemma_decimal_number_is_whole(rest: Seq<char>)
    ensures
        decimal_number(rest) matches Some((value, after)) ==> exists|digits: Seq<char>|
            {
                &&& rest == #[trigger] (digits + after)
                &&& digits.len() > 0
                &&& forall|i: int|
                    0 <= i < digits.len() ==> decimal::is_decimal_digit(#[trigger] digits[i])
                &&& after.len() > 0 ==> !decimal::is_decimal_digit(after[0])
                &&& decimal::decimal_value(digits) == value
            },
{
    lemma_all_leading_digits(rest);
    if let Some((value, after)) = decimal_number(rest) {
        let digits = rest.take(leading_digits(rest) as int);
        assert(rest =~= digits + after);
    }
}

/// What is read as a time is a number or the word for none.
pub proof fn lemma_modified_is_followed(rest: Seq<char>)
    ensures
        after_modified(rest) matches Some(after) ==> follows_modified(rest, after),
{
    reveal_strlit("null");
    assert("null"@ =~= null_word());
    lemma_decimal_number_is_whole(rest);
    if let Some(after) = after_modified(rest) {
        if null_word().is_prefix_of(rest) {
            assert(rest =~= null_word() + after);
        } else {
            assert(decimal_number(rest) is Some);
        }
    }
}

proof fn lemma_hash_is_read(rest: Seq<char>)
    ensures
        hash_text(rest) is Some == (rest.len() >= 64 && forall|i: int|
            0 <= i < 64 ==> digest::is_lower_hex(#[trigger] rest[i])),
        hash_text(rest) matches Some((hash, after)) ==> hash == rest.take(64) && after
            == rest.skip(64),
{
    if rest.len() >= 64 {
        let hash = rest.take(64);
        assert(forall|i: int| 0 <= i < 64 ==> #[trigger] hash[i] == rest[i]);
        if digest::is_blake3_hex_text(hash) {
            assert forall|i: int| 0 <= i < 64 implies digest::is_lower_hex(#[trigger] rest[i]) by {
                assert(hash[i] == rest[i]);
            }
        }
    }
}

} // verus!
