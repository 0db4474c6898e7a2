//! The removal of chunks that hold nothing but CSS.

use vstd::prelude::*;
use vstd::utf8::*;
use crate::codec;
use crate::css_bundle;
use crate::css_bundle::add_names;
use crate::css_chunk::OutputFormat;
use crate::css_path;
use crate::css_path::file_name;
use crate::name_set::contains_name;
use crate::path_text::PathStyle;
use crate::pattern;
use crate::pattern::{escape_pattern, find_captures, CapturedRange};
use crate::text;
use crate::text::{same_text, utf8_text};
use crate::text_edit;
use crate::text_edit::{apply_edits, TextEdit};

verus! {

// ---------------------------------------------------------------------------------------------
// The code of a chunk that imports such chunks

pub open spec fn spaces(count: nat) -> Seq<char> {
    Seq::new(count, |i: int| ' ')
}

/// The comment that stands in the place of a removed import. It makes up for the length of the
/// import, as far as `taken` more characters leave room.
pub open spec fn empty_css_comment(len: nat, taken: nat) -> Seq<char> {
    "/* empty css "@ + spaces(
        if len > 15 + taken {
            (len - 15 - taken) as nat
        } else {
            0
        },
    ) + "*/"@
}

/// What a removed import is replaced by. A `require` that ends a statement leaves its semicolon;
/// one in a list leaves what stood before it.
pub open spec fn replacement(
    format: OutputFormat,
    code: Seq<u8>,
    found: CapturedRange,
) -> Seq<char> {
    let len = (found.end - found.start) as nat;
    if format is Esm {
        empty_css_comment(len, 0)
    } else if found.second matches Some((start, end)) && code.subrange(start as int, end as int)
        == encode_utf8(";"@) {
        ";"@ + empty_css_comment(len, 1)
    } else {
        match found.first {
            None => empty_css_comment(len, 0),
            Some((start, end)) => decode_utf8(code.subrange(start as int, end as int))
                + empty_css_comment(len, (end - start) as nat),
        }
    }
}

fn push_comment(output: &mut String, len: usize, taken: usize)
    ensures
        final(output)@ == old(output)@ + empty_css_comment(len as nat, taken as nat),
{
    output.push_str("/* empty css ");
    let width: usize = len.saturating_sub(taken.saturating_add(15));
    let ghost before = output@;
    let mut i: usize = 0;
    assert(before + spaces(0) =~= before);
    while i < width
        invariant
            i <= width,
            output@ == before + spaces(i as nat),
        decreases width - i,
    {
        output.push(' ');
        assert((before + spaces(i as nat)).push(' ') =~= before + spaces((i + 1) as nat));
        i = i + 1;
    }
    output.push_str("*/");
    assert(output@ =~= old(output)@ + empty_css_comment(len as nat, taken as nat));
}

fn replacement_text(format: OutputFormat, code: &str, found: CapturedRange) -> (output: String)
    requires
        found.start <= found.end,
        pattern::range_lies_within(found.first, encode_utf8(code@).len()),
        pattern::range_lies_within(found.second, encode_utf8(code@).len()),
        pattern::range_between_chars(found.first, encode_utf8(code@)),
    ensures
        output@ == replacement(format, encode_utf8(code@), found),
{
    let bytes: &[u8] = code.as_bytes();
    let len: usize = found.end - found.start;
    let mut output: String = String::new();
    if format.is_esm() {
        push_comment(&mut output, len, 0);
        assert(output@ =~= empty_css_comment(len as nat, 0));
        return output;
    }
    if let Some((start, end)) = found.second {
        let group: &[u8] = &bytes[start..end];
        assert(group@ =~= bytes@.subrange(start as int, end as int));
        if same_bytes(group, ";".as_bytes()) {
            output.push_str(";");
            let ghost before = output@;
            push_comment(&mut output, len, 1);
            assert(before =~= ";"@);
            return output;
        }
    }
    match found.first {
        None => {
            push_comment(&mut output, len, 0);
            assert(output@ =~= empty_css_comment(len as nat, 0));
        },
        Some((start, end)) => {
            let group: &[u8] = &bytes[start..end];
            proof {
                assert(group@ =~= bytes@.subrange(start as int, end as int));
                encode_utf8_valid_utf8(code@);
                text_edit::lemma_middle_is_text(bytes@, start as int, end as int);
            }
            if let Some(before) = utf8_text(group) {
                output = before;
            }
            push_comment(&mut output, len, end - start);
        },
    }
    output
}

fn same_bytes(left: &[u8], right: &[u8]) -> (r: bool)
    ensures
        r == (left@ == right@),
{
    if left.len() != right.len() {
        return false;
    }
    let r: bool = codec::starts_with_bytes(left, right);
    assert(left@.subrange(0, right@.len() as int) =~= left@);
    r
}

/// The edits that replace every removed import.
pub open spec fn replacements(
    format: OutputFormat,
    code: Seq<u8>,
    found: Seq<CapturedRange>,
) -> Seq<(usize, usize, Seq<char>)> {
    found.map_values(
        |one: CapturedRange| (one.start, one.end, replacement(format, code, one)),
    )
}

pub open spec fn edit_models(edits: Seq<TextEdit>) -> Seq<(usize, usize, Seq<char>)> {
    edits.map_values(|edit: TextEdit| (edit.start, edit.end, edit.text@))
}

/// The bytes with every replacement made.
pub open spec fn replaced(code: Seq<u8>, edits: Seq<(usize, usize, Seq<char>)>) -> Seq<u8>
    decreases edits.len(),
{
    if edits.len() == 0 {
        code
    } else {
        let (start, end, text) = edits.last();
        replaced(code.take(start as int), edits.drop_last()) + encode_utf8(text) + code.skip(
            end as int,
        )
    }
}

proof fn lemma_replaced_is_edited(code: Seq<u8>, edits: Seq<TextEdit>)
    ensures
        replaced(code, edit_models(edits)) == text_edit::edited(code, edits),
    decreases edits.len(),
{
    if edits.len() > 0 {
        assert(edit_models(edits).drop_last() =~= edit_models(edits.drop_last()));
        lemma_replaced_is_edited(code.take(edits.last().start as int), edits.drop_last());
    }
}

/// The code without the imports that were found.
pub open spec fn emptied_code(
    format: OutputFormat,
    code: Seq<char>,
    found: Seq<CapturedRange>,
) -> Seq<char> {
    decode_utf8(replaced(encode_utf8(code), replacements(format, encode_utf8(code), found)))
}

/// Whether `result` is the code with a text in place of every import that was found, and otherwise as
/// it was.
pub open spec fn is_emptied(
    format: OutputFormat,
    code: Seq<u8>,
    found: Seq<CapturedRange>,
    result: Seq<u8>,
) -> bool {
    exists|edits: Seq<TextEdit>| #[trigger]
        text_edit::is_edited(code, edits, result) && edits.len() == found.len() && forall|k: int|
            0 <= k < found.len() ==> (#[trigger] edits[k]).start == found[k].start && edits[k].end
                == found[k].end && stands_for_import(format, code, found[k], edits[k].text@)
}

/// Replaces the imports that were found in the code.
pub fn empty_css_imports(format: OutputFormat, code: &str, found: &Vec<CapturedRange>) -> (output:
    String)
    requires
        pattern::captures_in_order(found@, encode_utf8(code@).len()),
        pattern::captures_between_chars(found@, encode_utf8(code@)),
    ensures
        output@ == emptied_code(format, code@, found@),
        is_emptied(format, encode_utf8(code@), found@, encode_utf8(output@)),
{
    let ghost bytes = encode_utf8(code@);
    let mut edits: Vec<TextEdit> = Vec::new();
    let mut i: usize = 0;
    while i < found.len()
        invariant
            i <= found@.len(),
            bytes == encode_utf8(code@),
            pattern::captures_in_order(found@, bytes.len()),
            pattern::captures_between_chars(found@, bytes),
            edits@.len() == i,
            forall|j: int|
                0 <= j < i ==> (#[trigger] edits@[j]).start == found@[j].start && edits@[j].end
                    == found@[j].end && edits@[j].text@ == replacement(format, bytes, found@[j]),
        decreases found@.len() - i,
    {
        let text: String = replacement_text(format, code, found[i]);
        edits.push(TextEdit { start: found[i].start, end: found[i].end, text });
        i = i + 1;
    }
    proof {
        assert(text_edit::edits_fit(edits@, bytes.len())) by {
            assert forall|a: int| 0 <= a < edits@.len() implies (#[trigger] edits@[a]).start
                <= edits@[a].end <= bytes.len() by {
                assert(found@[a].start <= found@[a].end <= bytes.len());
            }
            assert forall|a: int, b: int| 0 <= a < b < edits@.len() implies (
            #[trigger] edits@[a]).end <= (#[trigger] edits@[b]).start by {
                assert(found@[a].end <= found@[b].start);
            }
        }
        assert forall|a: int| 0 <= a < edits@.len() implies is_char_boundary(
            bytes,
            (#[trigger] edits@[a]).start as int,
        ) && is_char_boundary(bytes, edits@[a].end as int) by {
            assert(is_char_boundary(bytes, found@[a].start as int));
        }
        assert(edit_models(edits@) =~= replacements(format, bytes, found@));
        lemma_replaced_is_edited(bytes, edits@);
        encode_utf8_valid_utf8(code@);
        text_edit::lemma_edited_is_text(bytes, edits@);
        assert forall|k: int| 0 <= k < found@.len() implies stands_for_import(
            format,
            bytes,
            found@[k],
            (#[trigger] edits@[k]).text@,
        ) by {
            assert(found@[k].start <= found@[k].end);
            assert(is_char_boundary(bytes, found@[k].start as int));
            lemma_replacement(format, bytes, found@[k]);
        }
    }
    match apply_edits(code, &edits) {
        Some(output) => {
            proof {
                encode_utf8_decode_utf8(output@);
                assert(text_edit::is_edited(bytes, edits@, encode_utf8(output@)));
            }
            output
        },
        None => String::new(),
    }
}

// ---------------------------------------------------------------------------------------------
// The pattern for the imports

/// The escaped file names, each but the first behind a bar.
pub open spec fn alternatives(names: Seq<Seq<char>>, style: PathStyle) -> Seq<Seq<char>>
    decreases names.len(),
{
    if names.len() == 0 {
        Seq::empty()
    } else {
        let before = alternatives(names.drop_last(), style);
        if css_path::has_file_name(names.last(), style) {
            before.push(pattern::escaped_pattern(css_path::last_name(names.last(), style)))
        } else {
            before
        }
    }
}

pub open spec fn import_pattern(
    names: Seq<Seq<char>>,
    format: OutputFormat,
    style: PathStyle,
) -> Seq<char> {
    let files = text::joined(alternatives(names, style), '|');
    if format is Esm {
        ESM_PATTERN_HEAD@ + files + ESM_PATTERN_TAIL@
    } else {
        CJS_PATTERN_HEAD@ + files + CJS_PATTERN_TAIL@
    }
}

pub const ESM_PATTERN_HEAD: &'static str = r#"\bimport\s*["'][^"']*(?:"#;

pub const ESM_PATTERN_TAIL: &'static str = r#")["'];"#;

pub const CJS_PATTERN_HEAD: &'static str = r#"(\b|,\s*)require\(\s*["'\`][^"'\`]*(?:"#;

pub const CJS_PATTERN_TAIL: &'static str = r#")["'\`]\)(;|,)"#;

pub fn empty_chunk_pattern(names: &Vec<String>, format: OutputFormat, style: PathStyle) -> (r: String)
    ensures
        r@ == import_pattern(text::texts(names@), format, style),
        is_pattern_for(r@, text::texts(names@), format, style),
{
    let ghost all = text::texts(names@);
    let mut files: Vec<String> = Vec::new();
    let mut i: usize = 0;
    proof {
        assert(all.take(0) =~= Seq::empty());
        assert(text::texts(files@) =~= Seq::empty());
    }
    while i < names.len()
        invariant
            i <= names@.len(),
            all == text::texts(names@),
            text::texts(files@) == alternatives(all.take(i as int), style),
        decreases names@.len() - i,
    {
        proof {
            assert(all.take(i + 1).drop_last() =~= all.take(i as int));
            assert(all.take(i + 1).last() == names@[i as int]@);
        }
        if let Some(name) = file_name(names[i].as_str(), style) {
            let ghost before = files@;
            let escaped: String = escape_pattern(name.as_str());
            let ghost added = escaped@;
            files.push(escaped);
            assert(text::texts(files@) =~= text::texts(before).push(added));
        }
        i = i + 1;
    }
    assert(all.take(i as int) =~= all);
    let joined: String = text::join_parts(&files, '|');
    let mut r: String = String::new();
    if format.is_esm() {
        r.push_str(ESM_PATTERN_HEAD);
        r.push_str(joined.as_str());
        r.push_str(ESM_PATTERN_TAIL);
    } else {
        r.push_str(CJS_PATTERN_HEAD);
        r.push_str(joined.as_str());
        r.push_str(CJS_PATTERN_TAIL);
    }
    assert(r@ =~= import_pattern(text::texts(names@), format, style));
    proof {
        lemma_import_pattern(all, format, style);
    }
    r
}

/// A comment with room for it has the length that it makes up for.
pub proof fn lemma_comment_fills_the_gap(len: nat, taken: nat)
    requires
        len >= 15 + taken,
    ensures
        encode_utf8(empty_css_comment(len, taken)).len() == len - taken,
{
    lemma_comment_len((len - 15 - taken) as nat);
}

proof fn lemma_comment_len(width: nat)
    ensures
        encode_utf8("/* empty css "@ + spaces(width) + "*/"@).len() == 15 + width,
{
    let comment = "/* empty css "@ + spaces(width) + "*/"@;
    reveal_strlit("/* empty css ");
    reveal_strlit("*/");
    assert(is_ascii_chars(comment)) by {
        assert forall|i: int| 0 <= i < comment.len() implies '\0' <= #[trigger] comment[i]
            <= '\u{7f}' by {
            let head = "/* empty css "@;
            let middle = spaces(width);
            if i < head.len() {
                assert(comment[i] == head[i]);
            } else if i < head.len() + middle.len() {
                assert(comment[i] == middle[i - head.len()]);
            } else {
                assert(comment[i] == "*/"@[i - head.len() - middle.len()]);
            }
        }
    }
    text::lemma_encode_ascii_len(comment);
}

/// What stays of an import in front of the comment, as bytes: nothing of an `import`; of a `require`
/// the semicolon behind it, or else what stood before it.
pub open spec fn kept_of_import(format: OutputFormat, code: Seq<u8>, found: CapturedRange) -> Seq<u8> {
    let ends_statement = found.second matches Some((start, end)) && code.subrange(
        start as int,
        end as int,
    ) == seq![0x3bu8];
    if format is Esm {
        Seq::empty()
    } else if ends_statement {
        seq![0x3bu8]
    } else {
        match found.first {
            None => Seq::empty(),
            Some((start, end)) => code.subrange(start as int, end as int),
        }
    }
}

/// Whether a text stands for an import that was removed: it is what stays of the import and a comment,
/// and it has as many bytes as the import, or as the shortest comment needs.
pub open spec fn stands_for_import(
    format: OutputFormat,
    code: Seq<u8>,
    found: CapturedRange,
    text: Seq<char>,
) -> bool {
    let kept = kept_of_import(format, code, found);
    let len = (found.end - found.start) as nat;
    &&& exists|width: nat|
        encode_utf8(text) == kept + encode_utf8(
            "/* empty css "@ + #[trigger] spaces(width) + "*/"@,
        )
    &&& encode_utf8(text).len() == if len > 15 + kept.len() {
        len
    } else {
        15 + kept.len()
    }
}

proof fn lemma_semicolon_byte()
    ensures
        encode_utf8(seq![';']) == seq![0x3bu8],
{
    assert(is_ascii_chars(seq![';']));
    text::lemma_encode_ascii_len(seq![';']);
    assert(seq![';'].drop_first() =~= Seq::<char>::empty());
    assert(0x3bu32 & 0x7f == 0x3b) by (bit_vector);
    assert(encode_utf8(Seq::<char>::empty()) =~= Seq::<u8>::empty());
    assert(encode_utf8(seq![';']) =~= seq![0x3bu8]);
}

/// A removed import leaves a text that stands for it.
pub proof fn lemma_replacement(format: OutputFormat, code: Seq<u8>, found: CapturedRange)
    requires
        valid_utf8(code),
        found.start <= found.end,
        pattern::range_lies_within(found.first, code.len()),
        pattern::range_between_chars(found.first, code),
    ensures
        stands_for_import(format, code, found, replacement(format, code, found)),
{
    let text = replacement(format, code, found);
    let kept = kept_of_import(format, code, found);
    let len = (found.end - found.start) as nat;
    let width = if len > 15 + kept.len() {
        (len - 15 - kept.len()) as nat
    } else {
        0
    };
    let comment = "/* empty css "@ + spaces(width) + "*/"@;
    lemma_comment_len(width);
    reveal_strlit(";");
    assert(";"@ =~= seq![';']);
    lemma_semicolon_byte();
    if format is Esm {
        assert(text =~= comment);
        assert(encode_utf8(text) =~= kept + encode_utf8(comment));
    } else if found.second matches Some((start, end)) && code.subrange(start as int, end as int)
        == encode_utf8(";"@) {
        assert(text =~= ";"@ + comment);
        text::lemma_encode_concat(";"@, comment);
    } else {
        match found.first {
            None => {
                assert(text =~= comment);
                assert(encode_utf8(text) =~= kept + encode_utf8(comment));
            },
            Some((start, end)) => {
                let group = code.subrange(start as int, end as int);
                text_edit::lemma_middle_is_text(code, start as int, end as int);
                decode_utf8_encode_utf8(group);
                assert(text =~= decode_utf8(group) + comment);
                text::lemma_encode_concat(decode_utf8(group), comment);
            },
        }
    }
    assert(encode_utf8(text) == kept + encode_utf8("/* empty css "@ + spaces(width) + "*/"@));
}

// ---------------------------------------------------------------------------------------------
// The bundle

#[derive(Debug, Clone, PartialEq, Eq)]
pub struct BundleChunk {
    pub filename: String,
    pub preliminary_filename: String,
    pub imports: Vec<String>,
    pub code: String,
}

/// A chunk, or an asset by its file name.
#[derive(Debug, Clone, PartialEq, Eq)]
pub enum BundleOutput {
    Chunk(BundleChunk),
    Asset(String),
}

#[verifier::ext_equal]
pub ghost struct ChunkModel {
    pub filename: Seq<char>,
    pub preliminary_filename: Seq<char>,
    pub imports: Seq<Seq<char>>,
    pub code: Seq<char>,
}

pub ghost enum OutputModel {
    Chunk(ChunkModel),
    Asset(Seq<char>),
}

impl View for BundleChunk {
    type V = ChunkModel;

    open spec fn view(&self) -> ChunkModel {
        ChunkModel {
            filename: self.filename@,
            preliminary_filename: self.preliminary_filename@,
            imports: text::texts(self.imports@),
            code: self.code@,
        }
    }
}

impl View for BundleOutput {
    type V = OutputModel;

    open spec fn view(&self) -> OutputModel {
        match *self {
            BundleOutput::Chunk(chunk) => OutputModel::Chunk(chunk@),
            BundleOutput::Asset(name) => OutputModel::Asset(name@),
        }
    }
}

pub open spec fn output_models(outputs: Seq<BundleOutput>) -> Seq<OutputModel> {
    outputs.map_values(|output: BundleOutput| output@)
}

pub open spec fn chunk_models(chunks: Seq<BundleChunk>) -> Seq<ChunkModel> {
    chunks.map_values(|chunk: BundleChunk| chunk@)
}

/// The files that are recorded with a chunk.
#[derive(Debug, Clone, PartialEq, Eq)]
pub struct ChunkMetadata {
    pub id: String,
    pub imported_css: Vec<String>,
    pub imported_assets: Vec<String>,
}

#[verifier::ext_equal]
pub ghost struct MetadataModel {
    pub id: Seq<char>,
    pub css: Seq<Seq<char>>,
    pub assets: Seq<Seq<char>>,
}

impl View for ChunkMetadata {
    type V = MetadataModel;

    open spec fn view(&self) -> MetadataModel {
        MetadataModel {
            id: self.id@,
            css: text::texts(self.imported_css@),
            assets: text::texts(self.imported_assets@),
        }
    }
}

pub open spec fn metadata_models(list: Seq<ChunkMetadata>) -> Seq<MetadataModel> {
    list.map_values(|entry: ChunkMetadata| entry@)
}

/// The file names of the chunks that hold nothing but CSS, `pure` being their preliminary names.
pub open spec fn pure_names(outputs: Seq<OutputModel>, pure: Seq<Seq<char>>) -> Seq<Seq<char>>
    decreases outputs.len(),
{
    if outputs.len() == 0 {
        Seq::empty()
    } else {
        let before = pure_names(outputs.drop_last(), pure);
        match outputs.last() {
            OutputModel::Chunk(chunk) => if pure.contains(chunk.preliminary_filename) {
                before.push(chunk.filename)
            } else {
                before
            },
            OutputModel::Asset(_) => before,
        }
    }
}

pub fn pure_css_chunk_names(outputs: &Vec<BundleOutput>, pure: &Vec<String>) -> (names: Vec<String>)
    ensures
        text::texts(names@) == pure_names(output_models(outputs@), text::texts(pure@)),
{
    let ghost models = output_models(outputs@);
    let mut names: Vec<String> = Vec::new();
    let mut i: usize = 0;
    proof {
        assert(models.take(0) =~= Seq::empty());
        assert(text::texts(names@) =~= Seq::empty());
    }
    while i < outputs.len()
        invariant
            i <= outputs@.len(),
            models == output_models(outputs@),
            text::texts(names@) == pure_names(models.take(i as int), text::texts(pure@)),
        decreases outputs@.len() - i,
    {
        proof {
            assert(models.take(i + 1).drop_last() =~= models.take(i as int));
            assert(models.take(i + 1).last() == outputs@[i as int]@);
        }
        match &outputs[i] {
            BundleOutput::Chunk(chunk) => {
                if contains_name(pure, chunk.preliminary_filename.as_str()) {
                    let ghost before = names@;
                    names.push(chunk.filename.clone());
                    assert(text::texts(names@) =~= text::texts(before).push(chunk.filename@));
                }
            },
            BundleOutput::Asset(_) => {},
        }
        i = i + 1;
    }
    assert(models.take(i as int) =~= models);
    names
}

/// The preliminary name of the chunk with a file name; where several have it, of the last one.
pub open spec fn preliminary_of(outputs: Seq<OutputModel>, name: Seq<char>) -> Option<Seq<char>>
    decreases outputs.len(),
{
    if outputs.len() == 0 {
        None
    } else {
        match outputs.last() {
            OutputModel::Chunk(chunk) => if chunk.filename == name {
                Some(chunk.preliminary_filename)
            } else {
                preliminary_of(outputs.drop_last(), name)
            },
            OutputModel::Asset(_) => preliminary_of(outputs.drop_last(), name),
        }
    }
}

fn find_preliminary(outputs: &Vec<BundleOutput>, name: &str) -> (r: Option<String>)
    ensures
        codec::opt_text(r) == preliminary_of(output_models(outputs@), name@),
{
    let ghost models = output_models(outputs@);
    let mut left: usize = outputs.len();
    assert(models.take(models.len() as int) =~= models);
    while left > 0
        invariant
            left <= outputs@.len(),
            models == output_models(outputs@),
            preliminary_of(models, name@) == preliminary_of(models.take(left as int), name@),
        decreases left,
    {
        proof {
            assert(models.take(left as int).last() == outputs@[left - 1]@);
            assert(models.take(left as int).drop_last() =~= models.take(left - 1));
        }
        match &outputs[left - 1] {
            BundleOutput::Chunk(chunk) => {
                if same_text(chunk.filename.as_str(), name) {
                    return Some(chunk.preliminary_filename.clone());
                }
            },
            BundleOutput::Asset(_) => {},
        }
        left = left - 1;
    }
    None
}

/// The place of the entry with an id.
pub open spec fn entry_of(list: Seq<MetadataModel>, id: Seq<char>) -> Option<int>
    decreases list.len(),
{
    if list.len() == 0 {
        None
    } else {
        match entry_of(list.drop_last(), id) {
            Some(at) => Some(at),
            None => if list.last().id == id {
                Some(list.len() - 1)
            } else {
                None
            },
        }
    }
}

/// The list with an entry for the id.
pub open spec fn with_entry(list: Seq<MetadataModel>, id: Seq<char>) -> Seq<MetadataModel> {
    if entry_of(list, id) is Some {
        list
    } else {
        list.push(MetadataModel { id, css: Seq::empty(), assets: Seq::empty() })
    }
}

proof fn lemma_entry_of(list: Seq<MetadataModel>, id: Seq<char>)
    ensures
        entry_of(list, id) matches Some(at) ==> 0 <= at < list.len() && list[at].id == id,
    decreases list.len(),
{
    if list.len() > 0 {
        lemma_entry_of(list.drop_last(), id);
    }
}

/// Finds the entry of an id, and makes one where there is none.
fn entry_for(list: &mut Vec<ChunkMetadata>, id: &str) -> (at: usize)
    ensures
        metadata_models(final(list)@) == with_entry(metadata_models(old(list)@), id@),
        entry_of(metadata_models(final(list)@), id@) == Some(at as int),
        at < final(list)@.len(),
{
    let ghost models = metadata_models(list@);
    let mut i: usize = 0;
    assert(models.take(0) =~= Seq::empty());
    while i < list.len()
        invariant
            list@ == old(list)@,
            i <= list@.len(),
            models == metadata_models(list@),
            entry_of(models.take(i as int), id@) is None,
        decreases list@.len() - i,
    {
        proof {
            assert(models.take(i + 1).drop_last() =~= models.take(i as int));
            assert(models.take(i + 1).last() == list@[i as int]@);
        }
        if same_text(list[i].id.as_str(), id) {
            proof {
                lemma_entry_stays(models, i as int, id@);
            }
            return i;
        }
        i = i + 1;
    }
    assert(models.take(i as int) =~= models);
    let at: usize = list.len();
    let entry: ChunkMetadata = ChunkMetadata {
        id: id.to_string(),
        imported_css: Vec::new(),
        imported_assets: Vec::new(),
    };
    proof {
        assert(entry@ =~= (MetadataModel { id: id@, css: Seq::empty(), assets: Seq::empty() }));
    }
    list.push(entry);
    proof {
        assert(metadata_models(list@) =~= models.push(entry@));
        assert(models.push(entry@).drop_last() =~= models);
    }
    at
}

/// An entry that ends a front of the list is found in the whole list.
proof fn lemma_entry_stays(list: Seq<MetadataModel>, at: int, id: Seq<char>)
    requires
        0 <= at < list.len(),
        entry_of(list.take(at + 1), id) == Some(at),
    ensures
        entry_of(list, id) == Some(at),
    decreases list.len(),
{
    if at + 1 < list.len() {
        assert(list.drop_last().take(at + 1) =~= list.take(at + 1));
        lemma_entry_stays(list.drop_last(), at, id);
    } else {
        assert(list.take(at + 1) =~= list);
    }
}

/// The files of one chunk recorded with another too.
pub open spec fn absorbed(
    list: Seq<MetadataModel>,
    importer: Seq<char>,
    file: Seq<char>,
) -> Seq<MetadataModel> {
    let all = with_entry(list, file);
    match (entry_of(all, importer), entry_of(all, file)) {
        (Some(to), Some(from)) => all.update(
            to,
            MetadataModel {
                id: all[to].id,
                css: css_bundle::with_names(all[to].css, all[from].css),
                assets: css_bundle::with_names(all[to].assets, all[from].assets),
            },
        ),
        _ => all,
    }
}

fn copy_names(names: &Vec<String>) -> (copy: Vec<String>)
    ensures
        text::texts(copy@) == text::texts(names@),
{
    let mut copy: Vec<String> = Vec::new();
    let mut i: usize = 0;
    let ghost all = text::texts(names@);
    assert(text::texts(copy@) =~= all.take(0));
    while i < names.len()
        invariant
            i <= names@.len(),
            all == text::texts(names@),
            text::texts(copy@) == all.take(i as int),
        decreases names@.len() - i,
    {
        let ghost before = copy@;
        copy.push(names[i].clone());
        proof {
            assert(text::texts(copy@) =~= text::texts(before).push(names@[i as int]@));
            assert(all.take(i + 1) =~= all.take(i as int).push(all[i as int]));
        }
        i = i + 1;
    }
    assert(all.take(i as int) =~= all);
    copy
}

/// Makes an entry for `file` and records its files with `importer`, whose entry is there.
fn absorb(list: &mut Vec<ChunkMetadata>, importer: &str, file: &str)
    requires
        entry_of(metadata_models(old(list)@), importer@) is Some,
    ensures
        metadata_models(final(list)@) == absorbed(
            metadata_models(old(list)@),
            importer@,
            file@,
        ),
        entry_of(metadata_models(final(list)@), importer@) is Some,
{
    let ghost start = metadata_models(list@);
    let from: usize = entry_for(list, file);
    let ghost all = metadata_models(list@);
    proof {
        lemma_entry_of(start, importer@);
        lemma_with_entry_keeps(start, file@, importer@);
    }
    let to: usize = entry_for(list, importer);
    assert(metadata_models(list@) == all);
    let css: Vec<String> = copy_names(&list[from].imported_css);
    let assets: Vec<String> = copy_names(&list[from].imported_assets);
    let mut own_css: Vec<String> = copy_names(&list[to].imported_css);
    let mut own_assets: Vec<String> = copy_names(&list[to].imported_assets);
    add_names(&mut own_css, &css);
    add_names(&mut own_assets, &assets);
    let entry: ChunkMetadata = ChunkMetadata {
        id: list[to].id.clone(),
        imported_css: own_css,
        imported_assets: own_assets,
    };
    let ghost before = list@;
    list.set(to, entry);
    proof {
        assert(all[to as int] == before[to as int]@);
        assert(all[from as int] == before[from as int]@);
        assert(metadata_models(list@) =~= all.update(to as int, entry@));
        assert(metadata_models(list@) =~= absorbed(start, importer@, file@));
        lemma_entry_of(all, importer@);
        lemma_same_ids(all, metadata_models(list@), importer@);
    }
}

proof fn lemma_with_entry_keeps(list: Seq<MetadataModel>, added: Seq<char>, id: Seq<char>)
    requires
        entry_of(list, id) is Some,
    ensures
        entry_of(with_entry(list, added), id) == entry_of(list, id),
{
    if entry_of(list, added) is None {
        assert(with_entry(list, added).drop_last() =~= list);
    }
}

/// Where an entry stands depends on the ids alone.
proof fn lemma_same_ids(left: Seq<MetadataModel>, right: Seq<MetadataModel>, id: Seq<char>)
    requires
        left.len() == right.len(),
        forall|i: int| 0 <= i < left.len() ==> (#[trigger] left[i]).id == right[i].id,
    ensures
        entry_of(left, id) == entry_of(right, id),
    decreases left.len(),
{
    if left.len() > 0 {
        assert(left[left.len() - 1].id == right[right.len() - 1].id);
        assert forall|i: int| 0 <= i < left.drop_last().len() implies (
        #[trigger] left.drop_last()[i]).id == right.drop_last()[i].id by {
            assert(left[i].id == right[i].id);
        }
        lemma_same_ids(left.drop_last(), right.drop_last(), id);
    }
}

/// The imports that stay.
pub open spec fn kept_imports(imports: Seq<Seq<char>>, names: Seq<Seq<char>>) -> Seq<Seq<char>>
    decreases imports.len(),
{
    if imports.len() == 0 {
        Seq::empty()
    } else {
        let before = kept_imports(imports.drop_last(), names);
        if names.contains(imports.last()) {
            before
        } else {
            before.push(imports.last())
        }
    }
}

/// Whether an import goes.
pub open spec fn imports_any(imports: Seq<Seq<char>>, names: Seq<Seq<char>>) -> bool {
    exists|i: int| 0 <= i < imports.len() && names.contains(#[trigger] imports[i])
}

/// The records after the files of every import that goes were recorded with the importer.
pub open spec fn absorbed_imports(
    outputs: Seq<OutputModel>,
    names: Seq<Seq<char>>,
    importer: Seq<char>,
    imports: Seq<Seq<char>>,
    list: Seq<MetadataModel>,
) -> Seq<MetadataModel>
    decreases imports.len(),
{
    if imports.len() == 0 {
        list
    } else {
        let before = absorbed_imports(outputs, names, importer, imports.drop_last(), list);
        if names.contains(imports.last()) {
            match preliminary_of(outputs, imports.last()) {
                Some(file) => absorbed(before, importer, file),
                None => before,
            }
        } else {
            before
        }
    }
}

/// Drops imports and records what they brought in.
fn drop_imports(
    outputs: &Vec<BundleOutput>,
    names: &Vec<String>,
    importer: &str,
    imports: &Vec<String>,
    list: &mut Vec<ChunkMetadata>,
) -> (r: (Vec<String>, bool))
    requires
        entry_of(metadata_models(old(list)@), importer@) is Some,
    ensures
        text::texts((r.0)@) == kept_imports(text::texts(imports@), text::texts(names@)),
        r.1 == imports_any(text::texts(imports@), text::texts(names@)),
        metadata_models(final(list)@) == absorbed_imports(
            output_models(outputs@),
            text::texts(names@),
            importer@,
            text::texts(imports@),
            metadata_models(old(list)@),
        ),
{
    let ghost all = text::texts(imports@);
    let ghost pure = text::texts(names@);
    let mut kept: Vec<String> = Vec::new();
    let mut any: bool = false;
    let mut i: usize = 0;
    proof {
        assert(all.take(0) =~= Seq::empty());
        assert(text::texts(kept@) =~= Seq::empty());
    }
    while i < imports.len()
        invariant
            i <= imports@.len(),
            all == text::texts(imports@),
            pure == text::texts(names@),
            text::texts(kept@) == kept_imports(all.take(i as int), pure),
            any == imports_any(all.take(i as int), pure),
            metadata_models(list@) == absorbed_imports(
                output_models(outputs@),
                pure,
                importer@,
                all.take(i as int),
                metadata_models(old(list)@),
            ),
            entry_of(metadata_models(list@), importer@) is Some,
        decreases imports@.len() - i,
    {
        let ghost then = all.take(i as int);
        let ghost now = all.take(i + 1);
        proof {
            assert(now.drop_last() =~= then);
            assert(now.last() == imports@[i as int]@);
            assert forall|j: int| 0 <= j < then.len() implies #[trigger] then[j] == now[j] by {}
        }
        if contains_name(names, imports[i].as_str()) {
            match find_preliminary(outputs, imports[i].as_str()) {
                Some(file) => {
                    absorb(list, importer, file.as_str());
                },
                None => {},
            }
            any = true;
            assert(pure.contains(now[i as int]));
        } else {
            let ghost before = kept@;
            kept.push(imports[i].clone());
            proof {
                assert(text::texts(kept@) =~= text::texts(before).push(imports@[i as int]@));
                if imports_any(now, pure) {
                    let j = choose|j: int| 0 <= j < now.len() && pure.contains(#[trigger] now[j]);
                    assert(then[j] == now[j]);
                }
                if any {
                    let j = choose|j: int| 0 <= j < then.len() && pure.contains(#[trigger] then[j]);
                    assert(now[j] == then[j]);
                }
            }
        }
        i = i + 1;
    }
    assert(all.take(i as int) =~= all);
    (kept, any)
}

pub open spec fn captured_ranges(
    found: Seq<(usize, usize, Option<(usize, usize)>, Option<(usize, usize)>)>,
) -> Seq<CapturedRange> {
    found.map_values(
        |one: (usize, usize, Option<(usize, usize)>, Option<(usize, usize)>)|
            CapturedRange { start: one.0, end: one.1, first: one.2, second: one.3 },
    )
}

/// The code of a chunk without its imports of the chunks with these names.
pub open spec fn code_without_imports(
    names: Seq<Seq<char>>,
    format: OutputFormat,
    style: PathStyle,
    code: Seq<char>,
) -> Seq<char> {
    emptied_code(
        format,
        code,
        captured_ranges(pattern::pattern_captures(import_pattern(names, format, style), code)),
    )
}

/// Whether `result` is the code with a text in place of every match of the pattern for the imports of
/// these chunks, and otherwise as it was.
pub open spec fn lacks_imports(
    names: Seq<Seq<char>>,
    format: OutputFormat,
    style: PathStyle,
    code: Seq<char>,
    result: Seq<char>,
) -> bool {
    exists|pattern: Seq<char>| #[trigger]
        is_pattern_for(pattern, names, format, style) && is_emptied(
            format,
            encode_utf8(code),
            captured_ranges(pattern::pattern_captures(pattern, code)),
            encode_utf8(result),
        )
}

/// Replaces the imports of the chunks with these names; `None` where the engine refuses the
/// pattern.
pub fn empty_css_chunk_imports(
    names: &Vec<String>,
    format: OutputFormat,
    style: PathStyle,
    code: &str,
) -> (r: Option<String>)
    ensures
        r matches Some(output) ==> output@ == code_without_imports(
            text::texts(names@),
            format,
            style,
            code@,
        ),
        r matches Some(output) ==> lacks_imports(
            text::texts(names@),
            format,
            style,
            code@,
            output@,
        ),
{
    let pattern: String = empty_chunk_pattern(names, format, style);
    let found: Vec<CapturedRange> = find_captures(pattern.as_str(), code)?;
    assert(captured_ranges(pattern::captures_model(found@)) =~= found@);
    Some(empty_css_imports(format, code, &found))
}

/// A chunk with the imports that stay, and with this code.
pub open spec fn chunk_without_imports(
    chunk: ChunkModel,
    names: Seq<Seq<char>>,
    code: Seq<char>,
) -> ChunkModel {
    ChunkModel { imports: kept_imports(chunk.imports, names), code, ..chunk }
}

/// The first `count` outputs without imports of the chunks with these names, and the records;
/// `codes` holds, for each chunk with such imports, its code without them.
pub open spec fn rewritten(
    outputs: Seq<OutputModel>,
    names: Seq<Seq<char>>,
    list: Seq<MetadataModel>,
    codes: Seq<Seq<char>>,
    count: nat,
) -> (Seq<OutputModel>, Seq<MetadataModel>)
    decreases count,
{
    if count == 0 {
        (Seq::empty(), list)
    } else {
        let (done, records) = rewritten(outputs, names, list, codes, (count - 1) as nat);
        match outputs[count - 1] {
            OutputModel::Asset(name) => (done.push(OutputModel::Asset(name)), records),
            OutputModel::Chunk(chunk) => {
                let own = with_entry(records, chunk.preliminary_filename);
                let after = absorbed_imports(
                    outputs,
                    names,
                    chunk.preliminary_filename,
                    chunk.imports,
                    own,
                );
                let code = if imports_any(chunk.imports, names) {
                    codes[count - 1]
                } else {
                    chunk.code
                };
                (done.push(OutputModel::Chunk(chunk_without_imports(chunk, names, code))), after)
            },
        }
    }
}

/// Whether an output goes: a chunk with one of these names, or an asset whose map would have one.
pub open spec fn goes(output: OutputModel, names: Seq<Seq<char>>) -> bool {
    match output {
        OutputModel::Chunk(chunk) => names.contains(chunk.filename),
        OutputModel::Asset(name) => names.contains(name + ".map"@),
    }
}

/// The outputs that stay.
pub open spec fn remaining(outputs: Seq<OutputModel>, names: Seq<Seq<char>>) -> Seq<OutputModel>
    decreases outputs.len(),
{
    if outputs.len() == 0 {
        Seq::empty()
    } else if goes(outputs.last(), names) {
        remaining(outputs.drop_last(), names)
    } else {
        remaining(outputs.drop_last(), names).push(outputs.last())
    }
}

/// The chunks that go.
pub open spec fn removed_chunks(outputs: Seq<OutputModel>, names: Seq<Seq<char>>) -> Seq<ChunkModel>
    decreases outputs.len(),
{
    if outputs.len() == 0 {
        Seq::empty()
    } else {
        let before = removed_chunks(outputs.drop_last(), names);
        match outputs.last() {
            OutputModel::Chunk(chunk) => if names.contains(chunk.filename) {
                before.push(chunk)
            } else {
                before
            },
            OutputModel::Asset(_) => before,
        }
    }
}

/// A bundle without the chunks that hold nothing but CSS.
#[derive(Debug, Clone, PartialEq, Eq)]
pub struct PrunedBundle {
    pub outputs: Vec<BundleOutput>,
    pub removed: Vec<BundleChunk>,
    pub metadata: Vec<ChunkMetadata>,
}

/// What pruning comes to; `codes` holds, for each chunk that imports one that goes, its code without
/// such imports.
pub open spec fn pruned(
    outputs: Seq<OutputModel>,
    pure: Seq<Seq<char>>,
    list: Seq<MetadataModel>,
    codes: Seq<Seq<char>>,
) -> (Seq<OutputModel>, Seq<ChunkModel>, Seq<MetadataModel>) {
    if pure.len() == 0 {
        (outputs, Seq::empty(), list)
    } else {
        let names = pure_names(outputs, pure);
        let (done, records) = rewritten(outputs, names, list, codes, outputs.len());
        (remaining(done, names), removed_chunks(done, names), records)
    }
}

/// Whether any chunk imports one that goes.
pub open spec fn any_import_goes(outputs: Seq<OutputModel>, names: Seq<Seq<char>>) -> bool {
    exists|i: int|
        0 <= i < outputs.len() && (#[trigger] outputs[i] matches OutputModel::Chunk(chunk)
            && imports_any(chunk.imports, names))
}

/// Removes the outputs that go, and hands out the chunks among them.
fn retain_outputs(outputs: Vec<BundleOutput>, names: &Vec<String>) -> (r: (
    Vec<BundleOutput>,
    Vec<BundleChunk>,
))
    ensures
        output_models((r.0)@) == remaining(output_models(outputs@), text::texts(names@)),
        chunk_models((r.1)@) == removed_chunks(output_models(outputs@), text::texts(names@)),
{
    let ghost models = output_models(outputs@);
    let mut kept: Vec<BundleOutput> = Vec::new();
    let mut removed: Vec<BundleChunk> = Vec::new();
    let mut i: usize = 0;
    proof {
        assert(models.take(0) =~= Seq::empty());
        assert(output_models(kept@) =~= Seq::empty());
        assert(chunk_models(removed@) =~= Seq::empty());
    }
    while i < outputs.len()
        invariant
            i <= outputs@.len(),
            models == output_models(outputs@),
            output_models(kept@) == remaining(models.take(i as int), text::texts(names@)),
            chunk_models(removed@) == removed_chunks(models.take(i as int), text::texts(names@)),
        decreases outputs@.len() - i,
    {
        let ghost before_kept = kept@;
        let ghost before_removed = removed@;
        proof {
            assert(models.take(i + 1).drop_last() =~= models.take(i as int));
            assert(models.take(i + 1).last() == outputs@[i as int]@);
        }
        match &outputs[i] {
            BundleOutput::Chunk(chunk) => {
                let copy: BundleChunk = BundleChunk {
                    filename: chunk.filename.clone(),
                    preliminary_filename: chunk.preliminary_filename.clone(),
                    imports: copy_names(&chunk.imports),
                    code: chunk.code.clone(),
                };
                assert(copy@ =~= chunk@);
                if contains_name(names, chunk.filename.as_str()) {
                    removed.push(copy);
                    assert(chunk_models(removed@) =~= chunk_models(before_removed).push(copy@));
                } else {
                    let output: BundleOutput = BundleOutput::Chunk(copy);
                    kept.push(output);
                    assert(output_models(kept@) =~= output_models(before_kept).push(output@));
                }
            },
            BundleOutput::Asset(name) => {
                let mut map: String = name.clone();
                map.push_str(".map");
                if !contains_name(names, map.as_str()) {
                    let output: BundleOutput = BundleOutput::Asset(name.clone());
                    kept.push(output);
                    assert(output_models(kept@) =~= output_models(before_kept).push(output@));
                }
            },
        }
        i = i + 1;
    }
    assert(models.take(i as int) =~= models);
    (kept, removed)
}

/// The codes of the chunks that import one with these names, without those imports, and nothing in
/// the places of the other outputs.
pub open spec fn emptied_codes(
    outputs: Seq<OutputModel>,
    names: Seq<Seq<char>>,
    format: OutputFormat,
    style: PathStyle,
) -> Seq<Seq<char>> {
    outputs.map_values(
        |output: OutputModel|
            match output {
                OutputModel::Chunk(chunk) => if imports_any(chunk.imports, names) {
                    code_without_imports(names, format, style, chunk.code)
                } else {
                    Seq::empty()
                },
                OutputModel::Asset(_) => Seq::empty(),
            },
    )
}

fn imports_one_of(imports: &Vec<String>, names: &Vec<String>) -> (r: bool)
    ensures
        r == imports_any(text::texts(imports@), text::texts(names@)),
{
    let ghost all = text::texts(imports@);
    let mut i: usize = 0;
    while i < imports.len()
        invariant
            i <= imports@.len(),
            all == text::texts(imports@),
            forall|j: int| 0 <= j < i ==> !text::texts(names@).contains(#[trigger] all[j]),
        decreases imports@.len() - i,
    {
        if contains_name(names, imports[i].as_str()) {
            assert(text::texts(names@).contains(all[i as int]));
            return true;
        }
        i = i + 1;
    }
    false
}

/// The emptied codes of a bundle; `None` where the regex engine refuses the pattern.
fn empty_chunk_codes(
    outputs: &Vec<BundleOutput>,
    names: &Vec<String>,
    format: OutputFormat,
    style: PathStyle,
) -> (r: Option<Vec<String>>)
    ensures
        r matches Some(codes) ==> text::texts(codes@) == emptied_codes(
            output_models(outputs@),
            text::texts(names@),
            format,
            style,
        ),
        r matches Some(codes) ==> codes@.len() == outputs@.len() && forall|i: int|
            0 <= i < outputs@.len() ==> (#[trigger] outputs@[i]@ matches OutputModel::Chunk(chunk)
                ==> imports_any(chunk.imports, text::texts(names@)) ==> lacks_imports(
                text::texts(names@),
                format,
                style,
                chunk.code,
                codes@[i]@,
            )),
        !any_import_goes(output_models(outputs@), text::texts(names@)) ==> r is Some,
{
    let ghost models = output_models(outputs@);
    let ghost all = emptied_codes(models, text::texts(names@), format, style);
    let mut codes: Vec<String> = Vec::new();
    let mut i: usize = 0;
    while i < outputs.len()
        invariant
            i <= outputs@.len(),
            models == output_models(outputs@),
            all == emptied_codes(models, text::texts(names@), format, style),
            codes@.len() == i,
            forall|j: int| 0 <= j < i ==> (#[trigger] codes@[j])@ == all[j],
            forall|j: int|
                0 <= j < i ==> (#[trigger] outputs@[j]@ matches OutputModel::Chunk(chunk)
                    ==> imports_any(chunk.imports, text::texts(names@)) ==> lacks_imports(
                    text::texts(names@),
                    format,
                    style,
                    chunk.code,
                    codes@[j]@,
                )),
        decreases outputs@.len() - i,
    {
        assert(models[i as int] == outputs@[i as int]@);
        let mut code: String = String::new();
        if let BundleOutput::Chunk(chunk) = &outputs[i] {
            if imports_one_of(&chunk.imports, names) {
                code = match empty_css_chunk_imports(names, format, style, chunk.code.as_str()) {
                    Some(emptied) => emptied,
                    None => {
                        proof {
                            assert(models[i as int] == OutputModel::Chunk(chunk@));
                        }
                        return None;
                    },
                };
            }
        }
        assert(code@ =~= all[i as int]);
        codes.push(code);
        i = i + 1;
    }
    assert(text::texts(codes@) =~= all);
    Some(codes)
}

/// Removes the chunks that hold nothing but CSS, `pure` being their preliminary names. Chunks that
/// imported them lose the import, have the code that `codes` holds in their place, and are recorded
/// with the files of the removed chunks.
pub fn prune_chunks_with_codes(
    outputs: Vec<BundleOutput>,
    pure: &Vec<String>,
    codes: &Vec<String>,
    metadata: Vec<ChunkMetadata>,
) -> (bundle: PrunedBundle)
    requires
        codes@.len() == outputs@.len(),
    ensures
        pruned(
            output_models(outputs@),
            text::texts(pure@),
            metadata_models(metadata@),
            text::texts(codes@),
        ) == (
            output_models(bundle.outputs@),
            chunk_models(bundle.removed@),
            metadata_models(bundle.metadata@),
        ),
        pure@.len() > 0 ==> is_pruned(
            output_models(outputs@),
            text::texts(pure@),
            text::texts(codes@),
            output_models(bundle.outputs@),
            chunk_models(bundle.removed@),
        ),
        pure@.len() > 0 ==> importers_record_files(
            output_models(outputs@),
            pure_names(output_models(outputs@), text::texts(pure@)),
            metadata_models(metadata@),
            metadata_models(bundle.metadata@),
            outputs@.len() as int,
        ),
        records_grew(metadata_models(metadata@), metadata_models(bundle.metadata@)),
        files_come_from(metadata_models(bundle.metadata@), metadata_models(metadata@)),
{
    proof {
        lemma_pruned(
            output_models(outputs@),
            text::texts(pure@),
            metadata_models(metadata@),
            text::texts(codes@),
        );
        lemma_pruned_records(
            output_models(outputs@),
            text::texts(pure@),
            metadata_models(metadata@),
            text::texts(codes@),
        );
    }
    let ghost models = output_models(outputs@);
    let ghost records = metadata_models(metadata@);
    let ghost texts = text::texts(codes@);
    assert(text::texts(pure@).len() == pure@.len());
    if pure.len() == 0 {
        let removed: Vec<BundleChunk> = Vec::new();
        assert(chunk_models(removed@) =~= Seq::empty());
        return PrunedBundle { outputs, removed, metadata };
    }
    let names: Vec<String> = pure_css_chunk_names(&outputs, pure);
    let ghost all = text::texts(names@);
    let mut metadata: Vec<ChunkMetadata> = metadata;
    let mut done: Vec<BundleOutput> = Vec::new();
    let mut i: usize = 0;
    assert(output_models(done@) =~= Seq::empty());
    while i < outputs.len()
        invariant
            i <= outputs@.len(),
            codes@.len() == outputs@.len(),
            models == output_models(outputs@),
            texts == text::texts(codes@),
            all == text::texts(names@),
            rewritten(models, all, records, texts, i as nat) == (
                output_models(done@),
                metadata_models(metadata@),
            ),
        decreases outputs@.len() - i,
    {
        let ghost before = done@;
        assert(models[i as int] == outputs@[i as int]@);
        match &outputs[i] {
            BundleOutput::Asset(name) => {
                let output: BundleOutput = BundleOutput::Asset(name.clone());
                done.push(output);
                assert(output_models(done@) =~= output_models(before).push(output@));
            },
            BundleOutput::Chunk(chunk) => {
                let at: usize = entry_for(&mut metadata, chunk.preliminary_filename.as_str());
                let (imports, any): (Vec<String>, bool) = drop_imports(
                    &outputs,
                    &names,
                    chunk.preliminary_filename.as_str(),
                    &chunk.imports,
                    &mut metadata,
                );
                let code: String = if any {
                    codes[i].clone()
                } else {
                    chunk.code.clone()
                };
                let copy: BundleChunk = BundleChunk {
                    filename: chunk.filename.clone(),
                    preliminary_filename: chunk.preliminary_filename.clone(),
                    imports,
                    code,
                };
                proof {
                    assert(copy@ =~= chunk_without_imports(chunk@, all, copy.code@));
                    if any {
                        assert(texts[i as int] == copy.code@);
                    }
                }
                let output: BundleOutput = BundleOutput::Chunk(copy);
                done.push(output);
                assert(output_models(done@) =~= output_models(before).push(output@));
            },
        }
        i = i + 1;
    }
    assert(models.len() == outputs@.len());
    let (kept, removed): (Vec<BundleOutput>, Vec<BundleChunk>) = retain_outputs(done, &names);
    PrunedBundle { outputs: kept, removed, metadata }
}

/// Whether `codes` holds, for each chunk that imports pure ones, its code without those imports.
pub open spec fn codes_lack_imports(
    outputs: Seq<OutputModel>,
    pure: Seq<Seq<char>>,
    format: OutputFormat,
    style: PathStyle,
    codes: Seq<Seq<char>>,
) -> bool {
    &&& codes.len() == outputs.len()
    &&& forall|i: int|
        0 <= i < outputs.len() ==> (#[trigger] outputs[i] matches OutputModel::Chunk(chunk)
            ==> imports_pure(outputs, pure, chunk) ==> lacks_imports(
            pure_names(outputs, pure),
            format,
            style,
            chunk.code,
            codes[i],
        ))
}

/// What pruning makes of a bundle: without pure chunks nothing changes. Otherwise they are gone, no
/// import of them is left in a list or in the code, and their files are recorded with the importers.
pub open spec fn is_prune(
    outputs: Seq<OutputModel>,
    pure: Seq<Seq<char>>,
    format: OutputFormat,
    style: PathStyle,
    list: Seq<MetadataModel>,
    kept: Seq<OutputModel>,
    removed: Seq<ChunkModel>,
    after: Seq<MetadataModel>,
) -> bool {
    if pure.len() == 0 {
        kept == outputs && removed.len() == 0 && after == list
    } else {
        &&& exists|codes: Seq<Seq<char>>| #[trigger]
            codes_lack_imports(outputs, pure, format, style, codes) && is_pruned(
                outputs,
                pure,
                codes,
                kept,
                removed,
            )
        &&& importers_record_files(
            outputs,
            pure_names(outputs, pure),
            list,
            after,
            outputs.len() as int,
        )
        &&& records_grew(list, after)
        &&& files_come_from(after, list)
    }
}

/// Removes the chunks that hold nothing but CSS, `pure` being their preliminary names. Chunks that
/// imported them lose the import, in their code too, and are recorded with the files of the
/// removed chunks. `None` where the regex engine refuses the pattern for those imports.
pub fn prune_pure_css_chunks(
    outputs: Vec<BundleOutput>,
    pure: &Vec<String>,
    format: OutputFormat,
    metadata: Vec<ChunkMetadata>,
    style: PathStyle,
) -> (r: Option<PrunedBundle>)
    ensures
        r matches Some(bundle) ==> {
            let names = pure_names(output_models(outputs@), text::texts(pure@));
            pruned(
                output_models(outputs@),
                text::texts(pure@),
                metadata_models(metadata@),
                emptied_codes(output_models(outputs@), names, format, style),
            ) == (
                output_models(bundle.outputs@),
                chunk_models(bundle.removed@),
                metadata_models(bundle.metadata@),
            )
        },
        r matches Some(bundle) ==> is_prune(
            output_models(outputs@),
            text::texts(pure@),
            format,
            style,
            metadata_models(metadata@),
            output_models(bundle.outputs@),
            chunk_models(bundle.removed@),
            metadata_models(bundle.metadata@),
        ),
        pure@.len() == 0 || !any_import_goes(
            output_models(outputs@),
            pure_names(output_models(outputs@), text::texts(pure@)),
        ) ==> r is Some,
{
    assert(text::texts(pure@).len() == pure@.len());
    if pure.len() == 0 {
        let removed: Vec<BundleChunk> = Vec::new();
        assert(chunk_models(removed@) =~= Seq::empty());
        return Some(PrunedBundle { outputs, removed, metadata });
    }
    let names: Vec<String> = pure_css_chunk_names(&outputs, pure);
    let codes: Vec<String> = empty_chunk_codes(&outputs, &names, format, style)?;
    assert(text::texts(codes@).len() == codes@.len());
    assert(output_models(outputs@).len() == outputs@.len());
    proof {
        let models = output_models(outputs@);
        let all = text::texts(names@);
        lemma_pure_names(models, text::texts(pure@));
        assert forall|i: int| 0 <= i < models.len() implies (
        #[trigger] models[i] matches OutputModel::Chunk(chunk) ==> imports_pure(
            models,
            text::texts(pure@),
            chunk,
        ) ==> lacks_imports(all, format, style, chunk.code, text::texts(codes@)[i])) by {
            assert(models[i] == outputs@[i]@);
            if let OutputModel::Chunk(chunk) = models[i] {
                if imports_pure(models, text::texts(pure@), chunk) {
                    let k = choose|k: int|
                        0 <= k < chunk.imports.len() && is_pure_name(
                            models,
                            text::texts(pure@),
                            #[trigger] chunk.imports[k],
                        );
                    assert(all.contains(chunk.imports[k]));
                    assert(imports_any(chunk.imports, all));
                }
            }
        }
        assert(codes_lack_imports(
            models,
            text::texts(pure@),
            format,
            style,
            text::texts(codes@),
        ));
    }
    Some(prune_chunks_with_codes(outputs, pure, &codes, metadata))
}

/// What stays of a bundle holds no chunk with one of the names.
pub proof fn lemma_no_pure_chunk_remains(outputs: Seq<OutputModel>, names: Seq<Seq<char>>)
    ensures
        forall|i: int|
            0 <= i < remaining(outputs, names).len() ==> !goes(
                #[trigger] remaining(outputs, names)[i],
                names,
            ),
    decreases outputs.len(),
{
    if outputs.len() > 0 {
        lemma_no_pure_chunk_remains(outputs.drop_last(), names);
        let before = remaining(outputs.drop_last(), names);
        let after = remaining(outputs, names);
        assert forall|i: int| 0 <= i < after.len() implies !goes(#[trigger] after[i], names) by {
            if i < before.len() {
                assert(after[i] == before[i]);
                assert(!goes(before[i], names));
            }
        }
    }
}

/// What stays of the imports of a chunk names no chunk that goes.
pub proof fn lemma_no_pure_import_remains(imports: Seq<Seq<char>>, names: Seq<Seq<char>>)
    ensures
        !imports_any(kept_imports(imports, names), names),
    decreases imports.len(),
{
    if imports.len() > 0 {
        lemma_no_pure_import_remains(imports.drop_last(), names);
        let before = kept_imports(imports.drop_last(), names);
        let after = kept_imports(imports, names);
        assert forall|i: int| 0 <= i < after.len() implies !names.contains(#[trigger] after[i]) by {
            if i < before.len() {
                assert(after[i] == before[i]);
                assert(!names.contains(before[i]));
            }
        }
    }
}

// ---------------------------------------------------------------------------------------------
// What pruning comes to

/// Whether a chunk that holds nothing but CSS has this file name.
pub open spec fn is_pure_name(
    outputs: Seq<OutputModel>,
    pure: Seq<Seq<char>>,
    name: Seq<char>,
) -> bool {
    exists|i: int|
        0 <= i < outputs.len() && (#[trigger] outputs[i] matches OutputModel::Chunk(chunk)
            && chunk.filename == name && pure.contains(chunk.preliminary_filename))
}

/// The names of the pure chunks are the file names of the chunks with such preliminary names, and no
/// others.
pub proof fn lemma_pure_names(outputs: Seq<OutputModel>, pure: Seq<Seq<char>>)
    ensures
        forall|name: Seq<char>| #[trigger]
            pure_names(outputs, pure).contains(name) <==> is_pure_name(outputs, pure, name),
    decreases outputs.len(),
{
    if outputs.len() > 0 {
        let front = outputs.drop_last();
        lemma_pure_names(front, pure);
        let before = pure_names(front, pure);
        let all = pure_names(outputs, pure);
        assert(outputs[outputs.len() - 1] == outputs.last());
        assert forall|name: Seq<char>| #[trigger] all.contains(name) <==> is_pure_name(
            outputs,
            pure,
            name,
        ) by {
            if before.contains(name) {
                let i = choose|i: int| 0 <= i < before.len() && before[i] == name;
                assert(all[i] == name);
            }
            if is_pure_name(front, pure, name) {
                let i = choose|i: int|
                    0 <= i < front.len() && (#[trigger] front[i] matches OutputModel::Chunk(chunk)
                        && chunk.filename == name && pure.contains(chunk.preliminary_filename));
                assert(outputs[i] == front[i]);
            }
            if all.contains(name) && !before.contains(name) {
                let i = choose|i: int| 0 <= i < all.len() && all[i] == name;
                if i < before.len() {
                    assert(before[i] == name);
                }
            }
            if is_pure_name(outputs, pure, name) && !is_pure_name(front, pure, name) {
                let i = choose|i: int|
                    0 <= i < outputs.len() && (#[trigger] outputs[i] matches OutputModel::Chunk(
                        chunk,
                    ) && chunk.filename == name && pure.contains(chunk.preliminary_filename));
                if i < front.len() {
                    assert(front[i] == outputs[i]);
                }
                assert(all.last() == name);
                assert(all[all.len() - 1] == name);
            }
        }
    }
}

/// The imports that stay are those with other names, in their order.
pub proof fn lemma_kept_imports(
    imports: Seq<Seq<char>>,
    names: Seq<Seq<char>>,
    stays: spec_fn(Seq<char>) -> bool,
)
    requires
        forall|name: Seq<char>| #[trigger] stays(name) == !names.contains(name),
    ensures
        kept_imports(imports, names) == imports.filter(stays),
    decreases imports.len(),
{
    reveal(Seq::filter);
    if imports.len() > 0 {
        lemma_kept_imports(imports.drop_last(), names, stays);
        assert(stays(imports.last()) == !names.contains(imports.last()));
    }
}

/// The alternatives of the pattern are the escaped file names of all the chunks that have one, in
/// their order.
pub proof fn lemma_alternatives(names: Seq<Seq<char>>, style: PathStyle)
    ensures
        alternatives(names, style) == names.filter(
            |name: Seq<char>| css_path::has_file_name(name, style),
        ).map_values(
            |name: Seq<char>| pattern::escaped_pattern(css_path::last_name(name, style)),
        ),
        forall|i: int|
            0 <= i < names.len() && css_path::has_file_name(#[trigger] names[i], style)
                ==> alternatives(names, style).contains(
                pattern::escaped_pattern(css_path::last_name(names[i], style)),
            ),
        (forall|i: int|
            0 <= i < names.len() ==> css_path::has_file_name(#[trigger] names[i], style))
            ==> alternatives(names, style).len() == names.len(),
    decreases names.len(),
{
    reveal(Seq::filter);
    let has = |name: Seq<char>| css_path::has_file_name(name, style);
    let escape = |name: Seq<char>| pattern::escaped_pattern(css_path::last_name(name, style));
    let all = alternatives(names, style);
    if names.len() == 0 {
        assert(names.filter(has).map_values(escape) =~= Seq::empty());
    } else {
        let front = names.drop_last();
        lemma_alternatives(front, style);
        let before = alternatives(front, style);
        assert(names[names.len() - 1] == names.last());
        if has(names.last()) {
            assert(front.filter(has).push(names.last()).map_values(escape)
                =~= front.filter(has).map_values(escape).push(escape(names.last())));
            assert(all.last() == escape(names.last()));
            assert(all[all.len() - 1] == escape(names.last()));
        }
        assert forall|i: int|
            0 <= i < names.len() && css_path::has_file_name(
                #[trigger] names[i],
                style,
            ) implies all.contains(
            pattern::escaped_pattern(css_path::last_name(names[i], style)),
        ) by {
            if i < front.len() {
                assert(front[i] == names[i]);
                let own = pattern::escaped_pattern(css_path::last_name(names[i], style));
                assert(before.contains(own));
                let k = choose|k: int| 0 <= k < before.len() && before[k] == own;
                assert(all[k] == own);
            }
        }
        if forall|i: int|
            0 <= i < names.len() ==> css_path::has_file_name(#[trigger] names[i], style) {
            assert forall|i: int| 0 <= i < front.len() implies css_path::has_file_name(
                #[trigger] front[i],
                style,
            ) by {
                assert(front[i] == names[i]);
            }
            assert(css_path::has_file_name(names[names.len() - 1], style));
        }
    }
}

/// Whether a pattern is for the imports of all these chunks: one of its alternatives is the file
/// name of each chunk that has one, and it has no others.
pub open spec fn is_pattern_for(
    pattern: Seq<char>,
    names: Seq<Seq<char>>,
    format: OutputFormat,
    style: PathStyle,
) -> bool {
    exists|files: Seq<Seq<char>>|
        pattern == pattern_around(#[trigger] text::joined(files, '|'), format) && files
            == names.filter(|name: Seq<char>| css_path::has_file_name(name, style)).map_values(
            |name: Seq<char>| pattern::escaped_pattern(css_path::last_name(name, style)),
        )
}

pub open spec fn pattern_around(files: Seq<char>, format: OutputFormat) -> Seq<char> {
    if format is Esm {
        r#"\bimport\s*["'][^"']*(?:"#@ + files + r#")["'];"#@
    } else {
        r#"(\b|,\s*)require\(\s*["'\`][^"'\`]*(?:"#@ + files + r#")["'\`]\)(;|,)"#@
    }
}

/// The pattern is for the imports of all the chunks.
pub proof fn lemma_import_pattern(names: Seq<Seq<char>>, format: OutputFormat, style: PathStyle)
    ensures
        is_pattern_for(import_pattern(names, format, style), names, format, style),
{
    lemma_alternatives(names, style);
    let files = text::joined(alternatives(names, style), '|');
    assert(import_pattern(names, format, style) == pattern_around(files, format));
}

/// Whether a chunk imports a chunk that holds nothing but CSS.
pub open spec fn imports_pure(
    outputs: Seq<OutputModel>,
    pure: Seq<Seq<char>>,
    chunk: ChunkModel,
) -> bool {
    exists|k: int|
        0 <= k < chunk.imports.len() && is_pure_name(outputs, pure, #[trigger] chunk.imports[k])
}

/// What becomes of an output: a chunk loses its imports of pure chunks, and has `code` where it had
/// any. The rest of it stays, and an asset stays as it is.
pub open spec fn is_rewritten(
    outputs: Seq<OutputModel>,
    pure: Seq<Seq<char>>,
    output: OutputModel,
    code: Seq<char>,
    after: OutputModel,
) -> bool {
    match output {
        OutputModel::Asset(name) => after == OutputModel::Asset(name),
        OutputModel::Chunk(chunk) => after matches OutputModel::Chunk(own) && own.filename
            == chunk.filename && own.preliminary_filename == chunk.preliminary_filename
            && own.imports == chunk.imports.filter(
            |name: Seq<char>| !is_pure_name(outputs, pure, name),
        ) && own.code == if imports_pure(outputs, pure, chunk) {
            code
        } else {
            chunk.code
        },
    }
}

/// Whether an output is no pure chunk, and no asset whose map would have the name of one.
pub open spec fn output_stays(
    outputs: Seq<OutputModel>,
    pure: Seq<Seq<char>>,
    output: OutputModel,
) -> bool {
    match output {
        OutputModel::Chunk(chunk) => !is_pure_name(outputs, pure, chunk.filename),
        OutputModel::Asset(name) => !is_pure_name(outputs, pure, name + ".map"@),
    }
}

pub open spec fn is_pure_chunk(
    outputs: Seq<OutputModel>,
    pure: Seq<Seq<char>>,
    output: OutputModel,
) -> bool {
    output matches OutputModel::Chunk(chunk) && is_pure_name(outputs, pure, chunk.filename)
}

/// Whether a bundle is what pruning makes of these outputs: every output is rewritten, in its place,
/// those that stay are kept in their order, and the pure chunks are handed out in theirs.
pub open spec fn is_pruned(
    outputs: Seq<OutputModel>,
    pure: Seq<Seq<char>>,
    codes: Seq<Seq<char>>,
    kept: Seq<OutputModel>,
    removed: Seq<ChunkModel>,
) -> bool {
    exists|done: Seq<OutputModel>| #[trigger]
        are_rewritten(outputs, pure, codes, done) && kept == done.filter(
            |output: OutputModel| output_stays(outputs, pure, output),
        ) && removed.map_values(|chunk: ChunkModel| OutputModel::Chunk(chunk)) == done.filter(
            |output: OutputModel| is_pure_chunk(outputs, pure, output),
        )
}

pub open spec fn are_rewritten(
    outputs: Seq<OutputModel>,
    pure: Seq<Seq<char>>,
    codes: Seq<Seq<char>>,
    done: Seq<OutputModel>,
) -> bool {
    &&& done.len() == outputs.len()
    &&& forall|i: int|
        0 <= i < outputs.len() ==> is_rewritten(
            outputs,
            pure,
            outputs[i],
            codes[i],
            #[trigger] done[i],
        )
}

proof fn lemma_remaining_is_filter(
    done: Seq<OutputModel>,
    names: Seq<Seq<char>>,
    stays: spec_fn(OutputModel) -> bool,
    is_gone_chunk: spec_fn(OutputModel) -> bool,
)
    requires
        forall|output: OutputModel| #[trigger] stays(output) == !goes(output, names),
        forall|output: OutputModel| #[trigger]
            is_gone_chunk(output) == (output matches OutputModel::Chunk(chunk) && names.contains(
                chunk.filename,
            )),
    ensures
        remaining(done, names) == done.filter(stays),
        removed_chunks(done, names).map_values(|chunk: ChunkModel| OutputModel::Chunk(chunk))
            == done.filter(is_gone_chunk),
    decreases done.len(),
{
    reveal(Seq::filter);
    let wrap = |chunk: ChunkModel| OutputModel::Chunk(chunk);
    if done.len() == 0 {
        assert(removed_chunks(done, names).map_values(wrap) =~= Seq::empty());
    } else {
        let front = done.drop_last();
        lemma_remaining_is_filter(front, names, stays, is_gone_chunk);
        assert(stays(done.last()) == !goes(done.last(), names));
        let before = removed_chunks(front, names);
        if is_gone_chunk(done.last()) {
            let chunk = done.last()->Chunk_0;
            assert(before.push(chunk).map_values(wrap) =~= before.map_values(wrap).push(
                done.last(),
            ));
        }
    }
}

proof fn lemma_rewritten_outputs(
    outputs: Seq<OutputModel>,
    pure: Seq<Seq<char>>,
    list: Seq<MetadataModel>,
    codes: Seq<Seq<char>>,
    count: nat,
)
    requires
        count <= outputs.len(),
    ensures
        rewritten(outputs, pure_names(outputs, pure), list, codes, count).0.len() == count,
        forall|i: int|
            0 <= i < count ==> is_rewritten(
                outputs,
                pure,
                outputs[i],
                codes[i],
                #[trigger] rewritten(outputs, pure_names(outputs, pure), list, codes, count).0[i],
            ),
    decreases count,
{
    let names = pure_names(outputs, pure);
    if count > 0 {
        lemma_rewritten_outputs(outputs, pure, list, codes, (count - 1) as nat);
        lemma_pure_names(outputs, pure);
        let before = rewritten(outputs, names, list, codes, (count - 1) as nat).0;
        let all = rewritten(outputs, names, list, codes, count).0;
        let stays = |name: Seq<char>| !is_pure_name(outputs, pure, name);
        assert forall|name: Seq<char>| #[trigger] stays(name) == !names.contains(name) by {}
        if let OutputModel::Chunk(chunk) = outputs[count - 1] {
            lemma_kept_imports(chunk.imports, names, stays);
            assert(imports_pure(outputs, pure, chunk) == imports_any(chunk.imports, names)) by {
                if imports_pure(outputs, pure, chunk) {
                    let k = choose|k: int|
                        0 <= k < chunk.imports.len() && is_pure_name(
                            outputs,
                            pure,
                            #[trigger] chunk.imports[k],
                        );
                    assert(names.contains(chunk.imports[k]));
                }
                if imports_any(chunk.imports, names) {
                    let k = choose|k: int|
                        0 <= k < chunk.imports.len() && names.contains(
                            #[trigger] chunk.imports[k],
                        );
                    assert(is_pure_name(outputs, pure, chunk.imports[k]));
                }
            }
        }
        assert forall|i: int| 0 <= i < count implies is_rewritten(
            outputs,
            pure,
            outputs[i],
            codes[i],
            #[trigger] all[i],
        ) by {
            if i < count - 1 {
                assert(all[i] == before[i]);
            }
        }
    }
}

/// Pruning rewrites every output in its place, keeps what stays and hands out the pure chunks, all
/// in their order. Where there are no pure chunks, it changes nothing.
pub proof fn lemma_pruned(
    outputs: Seq<OutputModel>,
    pure: Seq<Seq<char>>,
    list: Seq<MetadataModel>,
    codes: Seq<Seq<char>>,
)
    ensures
        pure.len() > 0 ==> is_pruned(
            outputs,
            pure,
            codes,
            pruned(outputs, pure, list, codes).0,
            pruned(outputs, pure, list, codes).1,
        ),
        pure.len() == 0 ==> pruned(outputs, pure, list, codes) == (
            outputs,
            Seq::<ChunkModel>::empty(),
            list,
        ),
{
    if pure.len() > 0 {
        let names = pure_names(outputs, pure);
        let done = rewritten(outputs, names, list, codes, outputs.len()).0;
        lemma_rewritten_outputs(outputs, pure, list, codes, outputs.len());
        lemma_pure_names(outputs, pure);
        let stays = |output: OutputModel| output_stays(outputs, pure, output);
        let gone = |output: OutputModel| is_pure_chunk(outputs, pure, output);
        assert forall|output: OutputModel| #[trigger] stays(output) == !goes(output, names) by {}
        assert forall|output: OutputModel| #[trigger] gone(output) == (output matches
            OutputModel::Chunk(chunk) && names.contains(chunk.filename)) by {}
        lemma_remaining_is_filter(done, names, stays, gone);
        assert(are_rewritten(outputs, pure, codes, done));
    }
}

// ---------------------------------------------------------------------------------------------
// The records

/// The first entry with an id is found.
pub proof fn lemma_entry_is_first(list: Seq<MetadataModel>, id: Seq<char>)
    ensures
        entry_of(list, id) is Some <==> exists|i: int|
            0 <= i < list.len() && (#[trigger] list[i]).id == id,
        entry_of(list, id) matches Some(at) ==> 0 <= at < list.len() && list[at].id == id && forall|
            i: int,
        |
            0 <= i < at ==> (#[trigger] list[i]).id != id,
    decreases list.len(),
{
    if list.len() > 0 {
        let front = list.drop_last();
        lemma_entry_is_first(front, id);
        assert(list[list.len() - 1] == list.last());
        if exists|i: int| 0 <= i < front.len() && (#[trigger] front[i]).id == id {
            let i = choose|i: int| 0 <= i < front.len() && (#[trigger] front[i]).id == id;
            assert(list[i].id == id);
        }
        if exists|i: int| 0 <= i < list.len() && (#[trigger] list[i]).id == id {
            let i = choose|i: int| 0 <= i < list.len() && (#[trigger] list[i]).id == id;
            if i < front.len() {
                assert(front[i].id == id);
            }
        }
        if let Some(at) = entry_of(list, id) {
            assert forall|i: int| 0 <= i < at implies (#[trigger] list[i]).id != id by {
                assert(front[i].id == list[i].id);
                if entry_of(front, id) is None {
                    assert(front[i].id != id);
                }
            }
        }
    }
}

/// Whether records only gained: the entries of before stand in their places with their ids, each with
/// the files that it had and maybe more.
pub open spec fn records_grew(before: Seq<MetadataModel>, after: Seq<MetadataModel>) -> bool {
    &&& before.len() <= after.len()
    &&& forall|i: int|
        0 <= i < before.len() ==> (#[trigger] after[i]).id == before[i].id
            && before[i].css.is_prefix_of(after[i].css) && before[i].assets.is_prefix_of(
            after[i].assets,
        )
}

/// Whether every file of the records after is in the records before.
pub open spec fn files_come_from(after: Seq<MetadataModel>, before: Seq<MetadataModel>) -> bool {
    &&& forall|i: int, file: Seq<char>|
        0 <= i < after.len() && #[trigger] after[i].css.contains(file) ==> has_css(before, file)
    &&& forall|i: int, file: Seq<char>|
        0 <= i < after.len() && #[trigger] after[i].assets.contains(file) ==> has_asset(
            before,
            file,
        )
}

pub open spec fn has_css(list: Seq<MetadataModel>, file: Seq<char>) -> bool {
    exists|j: int| 0 <= j < list.len() && (#[trigger] list[j]).css.contains(file)
}

pub open spec fn has_asset(list: Seq<MetadataModel>, file: Seq<char>) -> bool {
    exists|j: int| 0 <= j < list.len() && (#[trigger] list[j]).assets.contains(file)
}

/// Whether the record of `importer` has every file that the record of `file` has in `list`.
pub open spec fn records_files_of(
    after: Seq<MetadataModel>,
    importer: Seq<char>,
    list: Seq<MetadataModel>,
    file: Seq<char>,
) -> bool {
    entry_of(list, file) matches Some(from) ==> entry_of(after, importer) matches Some(to) && (
    forall|name: Seq<char>| #[trigger]
        list[from].css.contains(name) ==> after[to].css.contains(name)) && forall|name: Seq<char>|
     #[trigger]
        list[from].assets.contains(name) ==> after[to].assets.contains(name)
}

proof fn lemma_prefix_contains(left: Seq<Seq<char>>, right: Seq<Seq<char>>, name: Seq<char>)
    requires
        left.is_prefix_of(right),
        left.contains(name),
    ensures
        right.contains(name),
{
    let i = choose|i: int| 0 <= i < left.len() && left[i] == name;
    assert(right.subrange(0, left.len() as int)[i] == left[i]);
    assert(right[i] == name);
}

proof fn lemma_prefix_chain(left: Seq<Seq<char>>, mid: Seq<Seq<char>>, right: Seq<Seq<char>>)
    requires
        left.is_prefix_of(mid),
        mid.is_prefix_of(right),
    ensures
        left.is_prefix_of(right),
{
    assert forall|i: int| 0 <= i < left.len() implies right[i] == left[i] by {
        assert(mid.subrange(0, left.len() as int)[i] == left[i]);
        assert(right.subrange(0, mid.len() as int)[i] == mid[i]);
    }
    assert(right.subrange(0, left.len() as int) =~= left);
}

proof fn lemma_records_grew_chain(
    first: Seq<MetadataModel>,
    second: Seq<MetadataModel>,
    third: Seq<MetadataModel>,
)
    requires
        records_grew(first, second),
        records_grew(second, third),
    ensures
        records_grew(first, third),
{
    assert forall|i: int| 0 <= i < first.len() implies (#[trigger] third[i]).id == first[i].id
        && first[i].css.is_prefix_of(third[i].css) && first[i].assets.is_prefix_of(
        third[i].assets,
    ) by {
        assert(second[i].id == first[i].id);
        lemma_prefix_chain(first[i].css, second[i].css, third[i].css);
        lemma_prefix_chain(first[i].assets, second[i].assets, third[i].assets);
    }
}

proof fn lemma_entry_stays_put(before: Seq<MetadataModel>, after: Seq<MetadataModel>, id: Seq<char>)
    requires
        records_grew(before, after),
        entry_of(before, id) is Some,
    ensures
        entry_of(after, id) == entry_of(before, id),
{
    lemma_entry_is_first(before, id);
    lemma_entry_is_first(after, id);
    let at = entry_of(before, id)->0;
    assert(after[at].id == before[at].id);
    assert(entry_of(after, id) is Some);
    let found = entry_of(after, id)->0;
    if found < at {
        assert(after[found].id == before[found].id);
    }
}

proof fn lemma_files_come_chain(
    third: Seq<MetadataModel>,
    second: Seq<MetadataModel>,
    first: Seq<MetadataModel>,
)
    requires
        files_come_from(third, second),
        files_come_from(second, first),
    ensures
        files_come_from(third, first),
{
    assert forall|i: int, file: Seq<char>|
        0 <= i < third.len() && #[trigger] third[i].css.contains(file) implies has_css(
        first,
        file,
    ) by {
        assert(has_css(second, file));
        let j = choose|j: int| 0 <= j < second.len() && (#[trigger] second[j]).css.contains(file);
        assert(second[j].css.contains(file));
    }
    assert forall|i: int, file: Seq<char>|
        0 <= i < third.len() && #[trigger] third[i].assets.contains(file) implies has_asset(
        first,
        file,
    ) by {
        assert(has_asset(second, file));
        let j = choose|j: int| 0 <= j < second.len() && (#[trigger] second[j]).assets.contains(
            file,
        );
        assert(second[j].assets.contains(file));
    }
}

proof fn lemma_with_entry_grows(list: Seq<MetadataModel>, id: Seq<char>)
    ensures
        records_grew(list, with_entry(list, id)),
        files_come_from(with_entry(list, id), list),
        entry_of(with_entry(list, id), id) is Some,
{
    let all = with_entry(list, id);
    assert forall|i: int| 0 <= i < list.len() implies (#[trigger] all[i]).id == list[i].id
        && list[i].css.is_prefix_of(all[i].css) && list[i].assets.is_prefix_of(all[i].assets) by {
        assert(all[i] == list[i]);
        assert(list[i].css.subrange(0, list[i].css.len() as int) =~= list[i].css);
        assert(list[i].assets.subrange(0, list[i].assets.len() as int) =~= list[i].assets);
    }
    assert forall|i: int, file: Seq<char>|
        0 <= i < all.len() && #[trigger] all[i].css.contains(file) implies has_css(list, file) by {
        if i < list.len() {
            assert(list[i].css.contains(file));
        }
    }
    assert forall|i: int, file: Seq<char>|
        0 <= i < all.len() && #[trigger] all[i].assets.contains(file) implies has_asset(
        list,
        file,
    ) by {
        if i < list.len() {
            assert(list[i].assets.contains(file));
        }
    }
    lemma_entry_is_first(all, id);
    if entry_of(list, id) is None {
        assert(all[list.len() as int].id == id);
    }
}

/// Recording the files of one chunk with another loses nothing, invents nothing, and the other has
/// them.
pub proof fn lemma_absorbed(list: Seq<MetadataModel>, importer: Seq<char>, file: Seq<char>)
    requires
        entry_of(list, importer) is Some,
    ensures
        records_grew(list, absorbed(list, importer, file)),
        files_come_from(absorbed(list, importer, file), list),
        records_files_of(absorbed(list, importer, file), importer, list, file),
{
    let all = with_entry(list, file);
    let after = absorbed(list, importer, file);
    lemma_with_entry_grows(list, file);
    lemma_entry_stays_put(list, all, importer);
    lemma_entry_is_first(all, importer);
    lemma_entry_is_first(all, file);
    let to = entry_of(all, importer)->0;
    let from = entry_of(all, file)->0;
    css_bundle::lemma_with_names(all[to].css, all[from].css);
    css_bundle::lemma_with_names(all[to].assets, all[from].assets);
    assert(records_grew(all, after)) by {
        assert forall|i: int| 0 <= i < all.len() implies (#[trigger] after[i]).id == all[i].id
            && all[i].css.is_prefix_of(after[i].css) && all[i].assets.is_prefix_of(
            after[i].assets,
        ) by {
            assert(all[i].css.subrange(0, all[i].css.len() as int) =~= all[i].css);
            assert(all[i].assets.subrange(0, all[i].assets.len() as int) =~= all[i].assets);
        }
    }
    assert(files_come_from(after, all)) by {
        assert forall|i: int, name: Seq<char>|
            0 <= i < after.len() && #[trigger] after[i].css.contains(name) implies has_css(
            all,
            name,
        ) by {
            if i == to {
                if all[to].css.contains(name) {
                } else {
                    assert(all[from].css.contains(name));
                }
            } else {
                assert(all[i].css.contains(name));
            }
        }
        assert forall|i: int, name: Seq<char>|
            0 <= i < after.len() && #[trigger] after[i].assets.contains(name) implies has_asset(
            all,
            name,
        ) by {
            if i == to {
                if all[to].assets.contains(name) {
                } else {
                    assert(all[from].assets.contains(name));
                }
            } else {
                assert(all[i].assets.contains(name));
            }
        }
    }
    lemma_records_grew_chain(list, all, after);
    lemma_files_come_chain(after, all, list);
    if entry_of(list, file) is Some {
        lemma_entry_stays_put(list, all, file);
        lemma_entry_stays_put(all, after, importer);
    }
}

proof fn lemma_records_files_grow(
    before: Seq<MetadataModel>,
    after: Seq<MetadataModel>,
    importer: Seq<char>,
    list: Seq<MetadataModel>,
    file: Seq<char>,
)
    requires
        records_grew(before, after),
        records_files_of(before, importer, list, file),
    ensures
        records_files_of(after, importer, list, file),
{
    if entry_of(list, file) is Some {
        let from = entry_of(list, file)->0;
        lemma_entry_stays_put(before, after, importer);
        lemma_entry_is_first(before, importer);
        let to = entry_of(before, importer)->0;
        assert(after[to].id == before[to].id);
        assert forall|name: Seq<char>| #[trigger] list[from].css.contains(
            name,
        ) implies after[to].css.contains(name) by {
            lemma_prefix_contains(before[to].css, after[to].css, name);
        }
        assert forall|name: Seq<char>| #[trigger] list[from].assets.contains(
            name,
        ) implies after[to].assets.contains(name) by {
            lemma_prefix_contains(before[to].assets, after[to].assets, name);
        }
    }
}

/// What was recorded in a list that has grown since was recorded before.
proof fn lemma_records_files_earlier(
    after: Seq<MetadataModel>,
    importer: Seq<char>,
    list: Seq<MetadataModel>,
    earlier: Seq<MetadataModel>,
    file: Seq<char>,
)
    requires
        records_grew(earlier, list),
        records_files_of(after, importer, list, file),
    ensures
        records_files_of(after, importer, earlier, file),
{
    if entry_of(earlier, file) is Some {
        lemma_entry_stays_put(earlier, list, file);
        lemma_entry_is_first(earlier, file);
        let from = entry_of(earlier, file)->0;
        let to = entry_of(after, importer)->0;
        assert(list[from].id == earlier[from].id);
        assert forall|name: Seq<char>| #[trigger] earlier[from].css.contains(
            name,
        ) implies after[to].css.contains(name) by {
            lemma_prefix_contains(earlier[from].css, list[from].css, name);
        }
        assert forall|name: Seq<char>| #[trigger] earlier[from].assets.contains(
            name,
        ) implies after[to].assets.contains(name) by {
            lemma_prefix_contains(earlier[from].assets, list[from].assets, name);
        }
    }
}

/// Whether the files of every import that goes are recorded with the importer.
pub open spec fn records_imports(
    outputs: Seq<OutputModel>,
    names: Seq<Seq<char>>,
    importer: Seq<char>,
    imports: Seq<Seq<char>>,
    list: Seq<MetadataModel>,
    after: Seq<MetadataModel>,
) -> bool {
    forall|k: int|
        0 <= k < imports.len() && names.contains(#[trigger] imports[k]) ==> (preliminary_of(
            outputs,
            imports[k],
        ) matches Some(file) ==> records_files_of(after, importer, list, file))
}

proof fn lemma_absorbed_imports(
    outputs: Seq<OutputModel>,
    names: Seq<Seq<char>>,
    importer: Seq<char>,
    imports: Seq<Seq<char>>,
    list: Seq<MetadataModel>,
)
    requires
        entry_of(list, importer) is Some,
    ensures
        records_grew(list, absorbed_imports(outputs, names, importer, imports, list)),
        files_come_from(absorbed_imports(outputs, names, importer, imports, list), list),
        records_imports(
            outputs,
            names,
            importer,
            imports,
            list,
            absorbed_imports(outputs, names, importer, imports, list),
        ),
        !imports_any(imports, names) ==> absorbed_imports(outputs, names, importer, imports, list)
            == list,
    decreases imports.len(),
{
    if imports.len() == 0 {
        lemma_same_records(list);
    } else {
        let front = imports.drop_last();
        lemma_absorbed_imports(outputs, names, importer, front, list);
        let before = absorbed_imports(outputs, names, importer, front, list);
        let after = absorbed_imports(outputs, names, importer, imports, list);
        lemma_entry_stays_put(list, before, importer);
        assert(imports[imports.len() - 1] == imports.last());
        assert(forall|k: int| 0 <= k < front.len() ==> #[trigger] front[k] == imports[k]);
        lemma_same_records(before);
        if names.contains(imports.last()) {
            if let Some(file) = preliminary_of(outputs, imports.last()) {
                lemma_absorbed(before, importer, file);
                lemma_records_files_earlier(after, importer, before, list, file);
            }
        }
        assert(records_grew(before, after));
        assert(files_come_from(after, before));
        lemma_records_grew_chain(list, before, after);
        lemma_files_come_chain(after, before, list);
        assert forall|k: int| 0 <= k < imports.len() && names.contains(#[trigger] imports[k]) implies (
        preliminary_of(outputs, imports[k]) matches Some(file) ==> records_files_of(
            after,
            importer,
            list,
            file,
        )) by {
            if k < front.len() {
                assert(front[k] == imports[k]);
                if let Some(file) = preliminary_of(outputs, front[k]) {
                    lemma_records_files_grow(before, after, importer, list, file);
                }
            }
        }
        if !imports_any(imports, names) {
            assert(!names.contains(imports[imports.len() - 1]));
            assert(!imports_any(front, names)) by {
                assert forall|k: int| 0 <= k < front.len() implies !names.contains(
                    #[trigger] front[k],
                ) by {
                    assert(!names.contains(imports[k]));
                }
            }
        }
    }
}

proof fn lemma_same_records(list: Seq<MetadataModel>)
    ensures
        records_grew(list, list),
        files_come_from(list, list),
{
    assert forall|i: int| 0 <= i < list.len() implies (#[trigger] list[i]).id == list[i].id
        && list[i].css.is_prefix_of(list[i].css) && list[i].assets.is_prefix_of(list[i].assets) by {
        assert(list[i].css.subrange(0, list[i].css.len() as int) =~= list[i].css);
        assert(list[i].assets.subrange(0, list[i].assets.len() as int) =~= list[i].assets);
    }
}

/// Whether the records of every importer hold the files of the pure chunks that it imports.
pub open spec fn importers_record_files(
    outputs: Seq<OutputModel>,
    names: Seq<Seq<char>>,
    list: Seq<MetadataModel>,
    after: Seq<MetadataModel>,
    count: int,
) -> bool {
    forall|i: int|
        0 <= i < count ==> (#[trigger] outputs[i] matches OutputModel::Chunk(chunk) ==> entry_of(
            after,
            chunk.preliminary_filename,
        ) is Some && records_imports(
            outputs,
            names,
            chunk.preliminary_filename,
            chunk.imports,
            list,
            after,
        ))
}

proof fn lemma_rewritten_records(
    outputs: Seq<OutputModel>,
    names: Seq<Seq<char>>,
    list: Seq<MetadataModel>,
    codes: Seq<Seq<char>>,
    count: nat,
)
    requires
        count <= outputs.len(),
    ensures
        records_grew(list, rewritten(outputs, names, list, codes, count).1),
        files_come_from(rewritten(outputs, names, list, codes, count).1, list),
        importers_record_files(
            outputs,
            names,
            list,
            rewritten(outputs, names, list, codes, count).1,
            count as int,
        ),
    decreases count,
{
    lemma_same_records(list);
    if count > 0 {
        lemma_rewritten_records(outputs, names, list, codes, (count - 1) as nat);
        let before = rewritten(outputs, names, list, codes, (count - 1) as nat).1;
        let after = rewritten(outputs, names, list, codes, count).1;
        lemma_same_records(before);
        if let OutputModel::Chunk(chunk) = outputs[count - 1] {
            let id = chunk.preliminary_filename;
            let own = with_entry(before, id);
            lemma_with_entry_grows(before, id);
            lemma_absorbed_imports(outputs, names, id, chunk.imports, own);
            lemma_records_grew_chain(before, own, after);
            lemma_files_come_chain(after, own, before);
            lemma_records_grew_chain(list, before, own);
            lemma_entry_stays_put(own, after, id);
            assert forall|k: int|
                0 <= k < chunk.imports.len() && names.contains(
                    #[trigger] chunk.imports[k],
                ) implies (preliminary_of(outputs, chunk.imports[k]) matches Some(file)
                ==> records_files_of(after, id, list, file)) by {
                if let Some(file) = preliminary_of(outputs, chunk.imports[k]) {
                    lemma_records_files_earlier(after, id, own, list, file);
                }
            }
        }
        lemma_records_grew_chain(list, before, after);
        lemma_files_come_chain(after, before, list);
        assert forall|i: int| 0 <= i < count implies (
        #[trigger] outputs[i] matches OutputModel::Chunk(chunk) ==> entry_of(
            after,
            chunk.preliminary_filename,
        ) is Some && records_imports(
            outputs,
            names,
            chunk.preliminary_filename,
            chunk.imports,
            list,
            after,
        )) by {
            if i < count - 1 {
                if let OutputModel::Chunk(chunk) = outputs[i] {
                    lemma_entry_stays_put(before, after, chunk.preliminary_filename);
                    assert forall|k: int|
                        0 <= k < chunk.imports.len() && names.contains(
                            #[trigger] chunk.imports[k],
                        ) implies (preliminary_of(outputs, chunk.imports[k]) matches Some(file)
                        ==> records_files_of(
                        after,
                        chunk.preliminary_filename,
                        list,
                        file,
                    )) by {
                        if let Some(file) = preliminary_of(outputs, chunk.imports[k]) {
                            lemma_records_files_grow(
                                before,
                                after,
                                chunk.preliminary_filename,
                                list,
                                file,
                            );
                        }
                    }
                }
            }
        }
    }
}

/// The preliminary name of a chunk is found by its file name; of several chunks, that of the last.
pub proof fn lemma_preliminary_of(outputs: Seq<OutputModel>, name: Seq<char>)
    ensures
        match preliminary_of(outputs, name) {
            Some(found) => exists|i: int|
                0 <= i < outputs.len() && (#[trigger] outputs[i] matches OutputModel::Chunk(chunk)
                    && chunk.filename == name && chunk.preliminary_filename == found) && forall|
                    j: int,
                |
                    i < j < outputs.len() ==> !(#[trigger] outputs[j] matches OutputModel::Chunk(
                        other,
                    ) && other.filename == name),
            None => forall|i: int|
                0 <= i < outputs.len() ==> !(#[trigger] outputs[i] matches OutputModel::Chunk(
                    chunk,
                ) && chunk.filename == name),
        },
    decreases outputs.len(),
{
    if outputs.len() > 0 {
        let front = outputs.drop_last();
        lemma_preliminary_of(front, name);
        assert(outputs[outputs.len() - 1] == outputs.last());
        assert(forall|i: int| 0 <= i < front.len() ==> #[trigger] front[i] == outputs[i]);
        if outputs.last() matches OutputModel::Chunk(chunk) && chunk.filename == name {
        } else {
            match preliminary_of(outputs, name) {
                Some(found) => {
                    let i = choose|i: int|
                        0 <= i < front.len() && (
                        #[trigger] front[i] matches OutputModel::Chunk(chunk) && chunk.filename
                            == name && chunk.preliminary_filename == found) && forall|j: int|
                            i < j < front.len() ==> !(
                            #[trigger] front[j] matches OutputModel::Chunk(other)
                                && other.filename == name);
                    assert(outputs[i] == front[i]);
                    assert forall|j: int| i < j < outputs.len() implies !(
                    #[trigger] outputs[j] matches OutputModel::Chunk(other) && other.filename
                        == name) by {
                        if j < front.len() {
                            assert(front[j] == outputs[j]);
                        }
                    }
                },
                None => {
                    assert forall|i: int| 0 <= i < outputs.len() implies !(
                    #[trigger] outputs[i] matches OutputModel::Chunk(chunk) && chunk.filename
                        == name) by {
                        if i < front.len() {
                            assert(front[i] == outputs[i]);
                        }
                    }
                },
            }
        }
    }
}

/// Pruning loses no record and invents none, and the files of every pure chunk are recorded with
/// every chunk that imported it.
pub proof fn lemma_pruned_records(
    outputs: Seq<OutputModel>,
    pure: Seq<Seq<char>>,
    list: Seq<MetadataModel>,
    codes: Seq<Seq<char>>,
)
    ensures
        records_grew(list, pruned(outputs, pure, list, codes).2),
        files_come_from(pruned(outputs, pure, list, codes).2, list),
        pure.len() > 0 ==> importers_record_files(
            outputs,
            pure_names(outputs, pure),
            list,
            pruned(outputs, pure, list, codes).2,
            outputs.len() as int,
        ),
{
    lemma_same_records(list);
    if pure.len() > 0 {
        lemma_rewritten_records(outputs, pure_names(outputs, pure), list, codes, outputs.len());
    }
}

/// Whether some chunk with this preliminary name imports one with these names.
pub open spec fn is_importer(
    outputs: Seq<OutputModel>,
    names: Seq<Seq<char>>,
    id: Seq<char>,
    count: int,
) -> bool {
    exists|i: int|
        0 <= i < count && (#[trigger] outputs[i] matches OutputModel::Chunk(chunk)
            && chunk.preliminary_filename == id && imports_any(chunk.imports, names))
}

/// Whether the records of all but this one id stand as they were.
spec fn others_stay(before: Seq<MetadataModel>, after: Seq<MetadataModel>, id: Seq<char>) -> bool {
    &&& before.len() <= after.len()
    &&& forall|k: int|
        0 <= k < before.len() && before[k].id != id ==> #[trigger] after[k] == before[k]
}

proof fn lemma_absorbed_leaves_others(
    outputs: Seq<OutputModel>,
    names: Seq<Seq<char>>,
    importer: Seq<char>,
    imports: Seq<Seq<char>>,
    list: Seq<MetadataModel>,
)
    requires
        entry_of(list, importer) is Some,
    ensures
        others_stay(list, absorbed_imports(outputs, names, importer, imports, list), importer),
    decreases imports.len(),
{
    if imports.len() > 0 {
        let front = imports.drop_last();
        lemma_absorbed_leaves_others(outputs, names, importer, front, list);
        lemma_absorbed_imports(outputs, names, importer, front, list);
        let before = absorbed_imports(outputs, names, importer, front, list);
        lemma_entry_stays_put(list, before, importer);
        if names.contains(imports.last()) {
            if let Some(file) = preliminary_of(outputs, imports.last()) {
                let all = with_entry(before, file);
                let after = absorbed(before, importer, file);
                lemma_with_entry_grows(before, file);
                lemma_entry_stays_put(before, all, importer);
                lemma_entry_is_first(all, importer);
                assert forall|k: int| 0 <= k < list.len() && list[k].id
                    != importer implies #[trigger] after[k] == list[k] by {
                    assert(before[k] == list[k]);
                    assert(all[k] == before[k]);
                }
            }
        }
    }
}

proof fn lemma_rewritten_leaves_others(
    outputs: Seq<OutputModel>,
    names: Seq<Seq<char>>,
    list: Seq<MetadataModel>,
    codes: Seq<Seq<char>>,
    count: nat,
)
    requires
        count <= outputs.len(),
    ensures
        list.len() <= rewritten(outputs, names, list, codes, count).1.len(),
        forall|k: int|
            0 <= k < list.len() && !is_importer(outputs, names, list[k].id, count as int)
                ==> #[trigger] rewritten(outputs, names, list, codes, count).1[k] == list[k],
    decreases count,
{
    if count > 0 {
        lemma_rewritten_leaves_others(outputs, names, list, codes, (count - 1) as nat);
        lemma_rewritten_records(outputs, names, list, codes, (count - 1) as nat);
        let before = rewritten(outputs, names, list, codes, (count - 1) as nat).1;
        let after = rewritten(outputs, names, list, codes, count).1;
        if let OutputModel::Chunk(chunk) = outputs[count - 1] {
            let id = chunk.preliminary_filename;
            let own = with_entry(before, id);
            lemma_with_entry_grows(before, id);
            lemma_absorbed_imports(outputs, names, id, chunk.imports, own);
            lemma_absorbed_leaves_others(outputs, names, id, chunk.imports, own);
            assert forall|k: int| 0 <= k < list.len() && !is_importer(
                outputs,
                names,
                list[k].id,
                count as int,
            ) implies #[trigger] after[k] == list[k] by {
                assert(!is_importer(outputs, names, list[k].id, count - 1)) by {
                    if is_importer(outputs, names, list[k].id, count - 1) {
                        let i = choose|i: int|
                            0 <= i < count - 1 && (
                            #[trigger] outputs[i] matches OutputModel::Chunk(other)
                                && other.preliminary_filename == list[k].id && imports_any(
                                other.imports,
                                names,
                            ));
                        assert(outputs[i] is Chunk);
                    }
                }
                assert(before[k] == list[k]);
                assert(own[k] == before[k]);
                if list[k].id == id {
                    assert(outputs[count - 1] is Chunk);
                    assert(!imports_any(chunk.imports, names));
                } else {
                    assert(after[k] == own[k]);
                }
            }
        } else {
            assert forall|k: int| 0 <= k < list.len() && !is_importer(
                outputs,
                names,
                list[k].id,
                count as int,
            ) implies #[trigger] after[k] == list[k] by {
                assert(!is_importer(outputs, names, list[k].id, count - 1)) by {
                    if is_importer(outputs, names, list[k].id, count - 1) {
                        let i = choose|i: int|
                            0 <= i < count - 1 && (
                            #[trigger] outputs[i] matches OutputModel::Chunk(other)
                                && other.preliminary_filename == list[k].id && imports_any(
                                other.imports,
                                names,
                            ));
                        assert(outputs[i] is Chunk);
                    }
                }
                assert(before[k] == list[k]);
            }
        }
    }
}

/// The record of a chunk that imports no pure chunk stays as it was.
pub proof fn lemma_pruning_leaves_other_records(
    outputs: Seq<OutputModel>,
    pure: Seq<Seq<char>>,
    list: Seq<MetadataModel>,
    codes: Seq<Seq<char>>,
)
    ensures
        forall|k: int|
            0 <= k < list.len() && !is_importer(
                outputs,
                pure_names(outputs, pure),
                list[k].id,
                outputs.len() as int,
            ) ==> #[trigger] pruned(outputs, pure, list, codes).2[k] == list[k],
{
    if pure.len() > 0 {
        lemma_rewritten_leaves_others(
            outputs,
            pure_names(outputs, pure),
            list,
            codes,
            outputs.len(),
        );
    }
}

} // verus!
