//! The placeholders for the URLs of CSS in the code of a chunk, and their replacement.
//!
//! A placeholder holds an id. CSS is emitted for an id once; every further placeholder with that
//! id takes the URL that came of it.

use vstd::prelude::*;
use vstd::utf8::*;
use crate::base64_text;
use crate::base64_text::from_standard_base64;
use crate::css_path;
use crate::css_path::{css_asset_path, file_name};
use crate::path_text::PathStyle;
use crate::shared_map;
use crate::shared_map::{insert_text, new_texts, text_of};
use crate::text;
use crate::text::{utf8_str, utf8_text};
use crate::text_edit;
use crate::text_edit::{find_all, find_from, TextEdit};

verus! {

pub const CSS_URL_MARKER: &'static str = "__VITE_CSS_URL__";

/// What stands in the code for the URL of the CSS with this id.
pub open spec fn placeholder(id: Seq<char>) -> Seq<u8> {
    encode_utf8(CSS_URL_MARKER@) + encode_utf8(base64_text::base64(encode_utf8(id))) + encode_utf8(
        "__"@,
    )
}

/// The positions of the markers in the code.
pub fn css_url_positions(code: &str) -> (found: Vec<usize>)
    ensures
        text_edit::positions(found@) == text_edit::occurrences(
            encode_utf8(code@),
            encode_utf8(CSS_URL_MARKER@),
            0,
        ),
        text_edit::are_all_occurrences(
            encode_utf8(code@),
            encode_utf8(CSS_URL_MARKER@),
            text_edit::positions(found@),
        ),
{
    let marker: &[u8] = CSS_URL_MARKER.as_bytes();
    proof {
        lemma_marker_len();
    }
    find_all(code.as_bytes(), marker)
}

proof fn lemma_marker_len()
    ensures
        encode_utf8(CSS_URL_MARKER@).len() == 16,
        encode_utf8("__"@).len() == 2,
        encode_utf8("__"@)[0] == 0x5f,
        encode_utf8("__"@)[1] == 0x5f,
{
    reveal_strlit("__VITE_CSS_URL__");
    reveal_strlit("__");
    assert(is_ascii_chars(CSS_URL_MARKER@));
    assert(is_ascii_chars("__"@));
    is_ascii_chars_encode_utf8(CSS_URL_MARKER@);
    is_ascii_chars_encode_utf8("__"@);
    assert("__"@[0] as u8 == 0x5f);
    assert("__"@[1] as u8 == 0x5f);
}

/// A placeholder: where it ends, and the id that it holds.
#[derive(Debug, Clone, PartialEq, Eq)]
pub struct CssUrlPlaceholder {
    pub end: usize,
    pub id: String,
}

#[derive(Debug, Clone, Copy, PartialEq, Eq, Structural)]
pub enum CssUrlError {
    /// Nothing closes the placeholder.
    Unclosed,
    /// What it holds is no base64.
    InvalidBase64,
    /// What it holds is no text.
    InvalidId,
}

/// The text between `from` and the next two underscores.
pub open spec fn digits_at(code: Seq<u8>, from: nat) -> Option<(nat, Seq<u8>)> {
    match text_edit::first_from(code, encode_utf8("__"@), from) {
        Some(at) => Some((at, code.subrange(from as int, at as int))),
        None => None,
    }
}

pub open spec fn is_encoded_id(digits: Seq<u8>, id: Seq<u8>) -> bool {
    digits == encode_utf8(base64_text::base64(id))
}

/// The bytes that the digits stand for. There are no two such sequences of bytes.
pub open spec fn decoded_id(digits: Seq<u8>) -> Option<Seq<u8>> {
    if exists|id: Seq<u8>| #[trigger] is_encoded_id(digits, id) {
        Some(choose|id: Seq<u8>| #[trigger] is_encoded_id(digits, id))
    } else {
        None
    }
}

proof fn lemma_decoded_id(digits: Seq<u8>, id: Seq<u8>)
    requires
        is_encoded_id(digits, id),
    ensures
        decoded_id(digits) == Some(id),
{
    let chosen = choose|other: Seq<u8>| #[trigger] is_encoded_id(digits, other);
    text::lemma_encode_injective(base64_text::base64(chosen), base64_text::base64(id));
    base64_text::lemma_base64_injective(chosen, id);
}

/// The end and the id of the placeholder whose marker stands at `index`.
pub open spec fn placeholder_at(code: Seq<u8>, index: nat) -> Result<
    (nat, Seq<char>),
    CssUrlError,
> {
    match digits_at(code, index + 16) {
        None => Err(CssUrlError::Unclosed),
        Some((at, digits)) => match decoded_id(digits) {
            None => Err(CssUrlError::InvalidBase64),
            Some(id) => if valid_utf8(id) {
                Ok((at + 2, decode_utf8(id)))
            } else {
                Err(CssUrlError::InvalidId)
            },
        },
    }
}

pub open spec fn placeholder_model(r: Result<CssUrlPlaceholder, CssUrlError>) -> Result<
    (nat, Seq<char>),
    CssUrlError,
> {
    match r {
        Ok(found) => Ok((found.end as nat, found.id@)),
        Err(error) => Err(error),
    }
}

/// Reads the placeholder whose marker stands at `index`.
pub fn css_url_placeholder(code: &str, index: usize) -> (r: Result<CssUrlPlaceholder, CssUrlError>)
    requires
        index + 16 <= encode_utf8(code@).len(),
    ensures
        placeholder_model(r) == placeholder_at(encode_utf8(code@), index as nat),
        r matches Ok(found) ==> is_placeholder_at(
            encode_utf8(code@),
            index as nat,
            found.end as nat,
            found.id@,
        ),
        r == Err::<CssUrlPlaceholder, CssUrlError>(CssUrlError::Unclosed) <==> forall|at: int|
            index + 16 <= at ==> !#[trigger] text_edit::occurs_at(
                encode_utf8(code@),
                encode_utf8("__"@),
                at,
            ),
{
    proof {
        lemma_placeholder_at(encode_utf8(code@), index as nat);
    }
    let bytes: &[u8] = code.as_bytes();
    let total: usize = bytes.len();
    assert(bytes@ == encode_utf8(code@));
    let start: usize = index + 16;
    let closing: &[u8] = "__".as_bytes();
    let at: usize = match find_from(bytes, closing, start) {
        Some(at) => at,
        None => {
            return Err(CssUrlError::Unclosed);
        },
    };
    proof {
        lemma_marker_len();
        text_edit::lemma_first_from(bytes@, closing@, start as nat);
        assert(text_edit::occurs_at(bytes@, closing@, at as int));
        assert(at + 2 <= total);
    }
    let digits: &[u8] = &bytes[start..at];
    assert(digits@ =~= bytes@.subrange(start as int, at as int));
    assert(digits_at(bytes@, start as nat) == Some((at as nat, digits@)));
    let text: &str = match utf8_str(digits) {
        Some(text) => text,
        None => {
            proof {
                assert forall|id: Seq<u8>| !#[trigger] is_encoded_id(digits@, id) by {
                    encode_utf8_valid_utf8(base64_text::base64(id));
                }
            }
            return Err(CssUrlError::InvalidBase64);
        },
    };
    proof {
        decode_utf8_encode_utf8(digits@);
    }
    let id_bytes: Vec<u8> = match from_standard_base64(text) {
        Some(id_bytes) => id_bytes,
        None => {
            proof {
                assert forall|id: Seq<u8>| !#[trigger] is_encoded_id(digits@, id) by {
                    if is_encoded_id(digits@, id) {
                        text::lemma_encode_injective(text@, base64_text::base64(id));
                        assert(base64_text::base64(id) == text@);
                    }
                }
            }
            return Err(CssUrlError::InvalidBase64);
        },
    };
    proof {
        lemma_decoded_id(digits@, id_bytes@);
    }
    match utf8_text(id_bytes.as_slice()) {
        Some(id) => Ok(CssUrlPlaceholder { end: at + 2, id }),
        None => Err(CssUrlError::InvalidId),
    }
}

/// Whether the text behind a marker at `index` is the encoded id and the two closing underscores up
/// to `end`, with no two underscores before those.
pub open spec fn is_placeholder_at(code: Seq<u8>, index: nat, end: nat, id: Seq<char>) -> bool {
    &&& index + 18 <= end <= code.len()
    &&& code.subrange(index as int + 16, end as int) == encode_utf8(base64_text::base64(encode_utf8(id)))
        + encode_utf8("__"@)
    &&& forall|at: int|
        index + 16 <= at < end - 2 ==> !#[trigger] text_edit::occurs_at(
            code,
            encode_utf8("__"@),
            at,
        )
}

/// What is found behind a marker is a whole placeholder, and none is unclosed that is closed.
pub proof fn lemma_placeholder_at(code: Seq<u8>, index: nat)
    ensures
        placeholder_at(code, index) matches Ok((end, id)) ==> is_placeholder_at(
            code,
            index,
            end,
            id,
        ),
        placeholder_at(code, index) == Err::<(nat, Seq<char>), CssUrlError>(CssUrlError::Unclosed)
            <==> forall|at: int|
            index + 16 <= at ==> !#[trigger] text_edit::occurs_at(code, encode_utf8("__"@), at),
{
    let closing = encode_utf8("__"@);
    lemma_marker_len();
    text_edit::lemma_first_from(code, closing, index + 16);
    if let Some((at, digits)) = digits_at(code, index + 16) {
        assert(text_edit::occurs_at(code, closing, at as int));
        if let Some(id) = decoded_id(digits) {
            assert(is_encoded_id(digits, id));
            if valid_utf8(id) {
                decode_utf8_encode_utf8(id);
                assert(code.subrange(index as int + 16, at as int + 2) =~= digits + closing);
            }
        }
    }
}

proof fn lemma_base64_has_no_underscore(bytes: Seq<u8>)
    ensures
        is_ascii_chars(base64_text::base64(bytes)),
        forall|i: int|
            0 <= i < base64_text::base64(bytes).len() ==> #[trigger] base64_text::base64(bytes)[i]
                != '_',
    decreases bytes.len(),
{
    if bytes.len() > 2 {
        lemma_base64_has_no_underscore(bytes.skip(3));
        lemma_digit_is_plain(bytes[0] as nat / 4);
        lemma_digit_is_plain((bytes[0] as nat % 4) * 16 + bytes[1] as nat / 16);
        lemma_digit_is_plain((bytes[1] as nat % 16) * 4 + bytes[2] as nat / 64);
        lemma_digit_is_plain(bytes[2] as nat % 64);
        let digits = base64_text::base64(bytes);
        let rest = base64_text::base64(bytes.skip(3));
        assert forall|i: int| 0 <= i < digits.len() implies #[trigger] digits[i] != '_' && '\0'
            <= digits[i] <= '\u{7f}' by {
            if i >= 4 {
                assert(digits[i] == rest[i - 4]);
            }
        }
    } else if bytes.len() == 2 {
        lemma_digit_is_plain(bytes[0] as nat / 4);
        lemma_digit_is_plain((bytes[0] as nat % 4) * 16 + bytes[1] as nat / 16);
        lemma_digit_is_plain((bytes[1] as nat % 16) * 4);
    } else if bytes.len() == 1 {
        lemma_digit_is_plain(bytes[0] as nat / 4);
        lemma_digit_is_plain((bytes[0] as nat % 4) * 16);
    }
}

proof fn lemma_digit_is_plain(value: nat)
    requires
        value < 64,
    ensures
        base64_text::base64_digit(value) != '_',
        '\0' <= base64_text::base64_digit(value) <= '\u{7f}',
{
}

/// A placeholder that stands in the code is read back: it ends where it was written to end, and
/// it holds its id.
pub proof fn lemma_placeholder_reads_back(before: Seq<u8>, id: Seq<char>, after: Seq<u8>)
    ensures
        placeholder_at(before + placeholder(id) + after, before.len()) == Ok::<
            (nat, Seq<char>),
            CssUrlError,
        >((before.len() + placeholder(id).len(), id)),
{
    let code = before + placeholder(id) + after;
    let from = before.len() + 16;
    let chars = base64_text::base64(encode_utf8(id));
    let digits = encode_utf8(chars);
    let closing = encode_utf8("__"@);
    lemma_marker_len();
    lemma_base64_has_no_underscore(encode_utf8(id));
    is_ascii_chars_encode_utf8(chars);
    let at = from + digits.len();
    assert forall|i: int| 0 <= i < digits.len() implies #[trigger] code[from + i] == digits[i]
        && digits[i] != 0x5f by {
        assert(chars[i] as u8 == digits[i]);
        assert(chars[i] != '_');
        assert('\0' <= chars[i] <= '\u{7f}');
    }
    assert(code.subrange(at as int, (at + 2) as int) =~= closing);
    assert(text_edit::occurs_at(code, closing, at as int));
    text_edit::lemma_first_from(code, closing, from);
    let found = text_edit::first_from(code, closing, from);
    match found {
        None => {
            assert(false);
        },
        Some(place) => {
            assert(place <= at);
            if place < at {
                assert(code.subrange(place as int, (place + 2) as int)[0] == closing[0]);
                assert(code[from + (place - from)] == digits[place - from]);
                assert(false);
            }
        },
    }
    assert(code.subrange(from as int, at as int) =~= digits);
    lemma_decoded_id(digits, encode_utf8(id));
    encode_utf8_valid_utf8(id);
    encode_utf8_decode_utf8(id);
}

/// The text for a placeholder that cannot be read, in the chunk with this name.
pub open spec fn css_url_message(error: CssUrlError, chunk_name: Seq<char>) -> Seq<char> {
    match error {
        CssUrlError::Unclosed => "Invalid __VITE_CSS_URL__ in '"@ + chunk_name
            + "', expected '__VITE_CSS_URL__<base64>__'"@,
        CssUrlError::InvalidBase64 => "Invalid base64 in '__VITE_CSS_URL__'"@,
        CssUrlError::InvalidId => "Invalid id in '__VITE_CSS_URL__'"@,
    }
}

impl CssUrlError {
    pub fn message(&self, chunk_name: &str) -> (r: String)
        ensures
            r@ == css_url_message(*self, chunk_name@),
            *self is Unclosed ==> r@ == "Invalid __VITE_CSS_URL__ in '"@ + chunk_name@
                + "', expected '__VITE_CSS_URL__<base64>__'"@,
            *self is InvalidBase64 ==> r@ == "Invalid base64 in '__VITE_CSS_URL__'"@,
            *self is InvalidId ==> r@ == "Invalid id in '__VITE_CSS_URL__'"@,
    {
        match self {
            CssUrlError::Unclosed => {
                let mut r: String = "Invalid __VITE_CSS_URL__ in '".to_string();
                r.push_str(chunk_name);
                r.push_str("', expected '__VITE_CSS_URL__<base64>__'");
                r
            },
            CssUrlError::InvalidBase64 => "Invalid base64 in '__VITE_CSS_URL__'".to_string(),
            CssUrlError::InvalidId => "Invalid id in '__VITE_CSS_URL__'".to_string(),
        }
    }
}

/// The CSS that is emitted for an id, and the name of its asset.
#[derive(Debug, Clone, PartialEq, Eq)]
pub struct CssUrlEmission {
    pub style: String,
    pub asset_name: String,
}

/// The text for an id without CSS.
pub open spec fn content_missing(id: Seq<char>) -> Seq<char> {
    "CSS content for  '"@ + id + "' was not found"@
}

/// The CSS of an id is emitted under the name of its file, `original_file_name` being the id
/// without query and fragment; an id without CSS is an error.
pub fn css_url_emission(
    id: &str,
    style: Option<String>,
    original_file_name: &str,
    path_style: PathStyle,
) -> (r: Result<CssUrlEmission, String>)
    requires
        style is Some ==> css_path::has_file_name(
            css_path::with_css_extension(original_file_name@, path_style),
            path_style,
        ),
    ensures
        match r {
            Ok(emission) => style == Some(emission.style) && emission.asset_name@
                == css_path::last_name(
                css_path::with_css_extension(original_file_name@, path_style),
                path_style,
            ),
            Err(message) => style is None && message@ == content_missing(id@),
        },
        r is Ok == style is Some,
        r matches Err(message) ==> message@ == "CSS content for  '"@ + id@ + "' was not found"@,
{
    match style {
        Some(style) => {
            let path: String = css_asset_path(original_file_name, path_style);
            let asset_name: String = match file_name(path.as_str(), path_style) {
                Some(name) => name,
                None => {
                    assert(false);
                    path
                },
            };
            Ok(CssUrlEmission { style, asset_name })
        },
        None => {
            let mut message: String = "CSS content for  '".to_string();
            message.push_str(id);
            message.push_str("' was not found");
            Err(message)
        },
    }
}

// ---------------------------------------------------------------------------------------------
// The replacement

/// The URLs of the CSS that was emitted, by id.
pub struct CssUrlCache {
    urls: dashmap::DashMap<String, String, rustc_hash::FxBuildHasher>,
}

impl View for CssUrlCache {
    type V = Map<Seq<char>, Seq<char>>;

    closed spec fn view(&self) -> Map<Seq<char>, Seq<char>> {
        shared_map::text_entries(self.urls)
    }
}

impl CssUrlCache {
    pub fn new() -> (cache: CssUrlCache)
        ensures
            cache@ == shared_map::no_texts(),
    {
        CssUrlCache { urls: new_texts() }
    }

    pub fn url(&self, id: &str) -> (url: Option<String>)
        ensures
            url is Some == self@.contains_key(id@),
            url matches Some(found) ==> found@ == self@[id@],
    {
        text_of(&self.urls, id)
    }

    pub fn insert(&mut self, id: &str, url: &str)
        ensures
            final(self)@ == old(self)@.insert(id@, url@),
    {
        insert_text(&mut self.urls, id, url);
    }
}

/// The replacement of the placeholders in the code of a chunk, from the first one on. An edit
/// was made for as many of them as there are edits.
pub struct CssUrlRun {
    pub code: String,
    pub positions: Vec<usize>,
    pub edits: Vec<TextEdit>,
}

/// What is to be done next: emit the CSS of an id and keep its URL, or report a placeholder that
/// cannot be read, or nothing more.
#[derive(Debug, Clone, PartialEq, Eq)]
pub enum CssUrlStep {
    Emit { id: String },
    Failed(CssUrlError),
    Done,
}

impl CssUrlRun {
    /// The placeholder with this number.
    pub open spec fn placeholder(&self, i: int) -> Result<(nat, Seq<char>), CssUrlError> {
        placeholder_at(encode_utf8(self.code@), self.positions@[i] as nat)
    }

    /// Whether the edits replace the first placeholders, one by one.
    pub open spec fn wf(&self) -> bool {
        &&& text_edit::positions(self.positions@) == text_edit::occurrences(
            encode_utf8(self.code@),
            encode_utf8(CSS_URL_MARKER@),
            0,
        )
        &&& self.edits@.len() <= self.positions@.len()
        &&& forall|i: int|
            0 <= i < self.edits@.len() ==> {
                &&& (#[trigger] self.edits@[i]).start == self.positions@[i]
                &&& self.placeholder(i) matches Ok((end, id)) && self.edits@[i].end == end
            }
    }

    /// Whether the edit with this number puts in the URL that is known for its placeholder.
    pub open spec fn puts_in(&self, known: Map<Seq<char>, Seq<char>>, i: int) -> bool {
        match self.placeholder(i) {
            Ok((end, id)) => known.contains_key(id) && known[id] == self.edits@[i].text@,
            Err(_) => false,
        }
    }

    /// Whether the edits from number `from` on put in the URLs that are known.
    pub open spec fn uses(&self, known: Map<Seq<char>, Seq<char>>, from: int) -> bool {
        forall|i: int| from <= i < self.edits@.len() ==> #[trigger] self.puts_in(known, i)
    }

    pub fn new(code: String) -> (run: CssUrlRun)
        ensures
            run.wf(),
            run.code == code,
            run.edits@.len() == 0,
    {
        let positions: Vec<usize> = css_url_positions(code.as_str());
        CssUrlRun { code, positions, edits: Vec::new() }
    }

    /// Makes the edits for the placeholders whose URLs are known, up to the first whose URL is
    /// not.
    pub fn advance(&mut self, cache: &CssUrlCache) -> (step: CssUrlStep)
        requires
            old(self).wf(),
        ensures
            final(self).wf(),
            final(self).code == old(self).code,
            final(self).positions == old(self).positions,
            old(self).edits@.is_prefix_of(final(self).edits@),
            final(self).uses(cache@, old(self).edits@.len() as int),
            match step {
                CssUrlStep::Done => final(self).edits@.len() == final(self).positions@.len(),
                CssUrlStep::Emit { id } => final(self).edits@.len() < final(self).positions@.len()
                    && (final(self).placeholder(final(self).edits@.len() as int) matches Ok(
                    (end, found),
                ) && found == id@ && !cache@.contains_key(found)),
                CssUrlStep::Failed(error) => final(self).edits@.len()
                    < final(self).positions@.len() && final(self).placeholder(final(self).edits@.len() as int)
                    == Err::<(nat, Seq<char>), CssUrlError>(error),
            },
    {
        while self.edits.len() < self.positions.len()
            invariant
                self.wf(),
                self.code == old(self).code,
                self.positions == old(self).positions,
                old(self).edits@.is_prefix_of(self.edits@),
                self.uses(cache@, old(self).edits@.len() as int),
            decreases self.positions@.len() - self.edits@.len(),
        {
            let number: usize = self.edits.len();
            let at: usize = self.positions[number];
            proof {
                let bytes = encode_utf8(self.code@);
                lemma_marker_len();
                text_edit::lemma_occurrences(bytes, encode_utf8(CSS_URL_MARKER@), 0);
                assert(text_edit::positions(self.positions@)[number as int] == at as nat);
            }
            let found: CssUrlPlaceholder = match css_url_placeholder(self.code.as_str(), at) {
                Ok(found) => found,
                Err(error) => {
                    return CssUrlStep::Failed(error);
                },
            };
            let url: String = match cache.url(found.id.as_str()) {
                Some(url) => url,
                None => {
                    return CssUrlStep::Emit { id: found.id };
                },
            };
            let ghost before = *self;
            self.edits.push(TextEdit { start: at, end: found.end, text: url });
            proof {
                assert(self.placeholder(number as int) == before.placeholder(number as int));
                assert forall|i: int| 0 <= i < self.edits@.len() implies {
                    &&& (#[trigger] self.edits@[i]).start == self.positions@[i]
                    &&& self.placeholder(i) matches Ok((end, id)) && self.edits@[i].end == end
                } by {
                    if i < number {
                        assert(self.edits@[i] == before.edits@[i]);
                        assert(self.placeholder(i) == before.placeholder(i));
                    }
                }
                assert forall|i: int|
                    old(self).edits@.len() <= i < self.edits@.len() implies #[trigger] self.puts_in(
                    cache@,
                    i,
                ) by {
                    if i < number {
                        assert(before.puts_in(cache@, i));
                        assert(self.edits@[i] == before.edits@[i]);
                        assert(self.placeholder(i) == before.placeholder(i));
                    }
                }
            }
        }
        CssUrlStep::Done
    }
}

/// A URL that is kept for an id without one changes no edit that was made.
pub proof fn lemma_kept_url_changes_no_edit(
    run: CssUrlRun,
    known: Map<Seq<char>, Seq<char>>,
    id: Seq<char>,
    url: Seq<char>,
)
    requires
        run.uses(known, 0),
        !known.contains_key(id),
    ensures
        run.uses(known.insert(id, url), 0),
{
    let more = known.insert(id, url);
    assert forall|i: int| 0 <= i < run.edits@.len() implies #[trigger] run.puts_in(more, i) by {
        assert(run.puts_in(known, i));
    }
}

/// Code with placeholders: texts, with a placeholder behind each.
pub open spec fn with_placeholders(pieces: Seq<(Seq<u8>, Seq<char>)>) -> Seq<u8>
    decreases pieces.len(),
{
    if pieces.len() == 0 {
        Seq::empty()
    } else {
        with_placeholders(pieces.drop_last()) + pieces.last().0 + placeholder(pieces.last().1)
    }
}

/// The same code with URLs in the place of the placeholders.
pub open spec fn with_urls(
    pieces: Seq<(Seq<u8>, Seq<char>)>,
    known: Map<Seq<char>, Seq<char>>,
) -> Seq<u8>
    decreases pieces.len(),
{
    if pieces.len() == 0 {
        Seq::empty()
    } else {
        with_urls(pieces.drop_last(), known) + pieces.last().0 + encode_utf8(
            known[pieces.last().1],
        )
    }
}

/// Where the placeholders of such code stand.
pub open spec fn placeholder_positions(pieces: Seq<(Seq<u8>, Seq<char>)>) -> Seq<nat> {
    Seq::new(
        pieces.len(),
        |i: int| with_placeholders(pieces.take(i)).len() + pieces[i].0.len(),
    )
}

proof fn lemma_pieces(pieces: Seq<(Seq<u8>, Seq<char>)>, i: int)
    requires
        0 <= i < pieces.len(),
    ensures
        with_placeholders(pieces.take(i + 1)) == with_placeholders(pieces.take(i)) + pieces[i].0
            + placeholder(pieces[i].1),
        with_placeholders(pieces.take(i + 1)).is_prefix_of(with_placeholders(pieces)),
    decreases pieces.len() - i,
{
    assert(pieces.take(i + 1).drop_last() =~= pieces.take(i));
    if i + 1 == pieces.len() {
        assert(pieces.take(i + 1) =~= pieces);
    } else {
        lemma_pieces(pieces, i + 1);
        let whole = with_placeholders(pieces);
        let front = with_placeholders(pieces.take(i + 1));
        let longer = with_placeholders(pieces.take(i + 2));
        assert(longer == whole.subrange(0, longer.len() as int));
        assert(front =~= longer.subrange(0, front.len() as int));
        assert(front =~= whole.subrange(0, front.len() as int));
    }
}

/// Where a run has made all its edits, the code with them is the code that was written with URLs
/// in the place of the placeholders, as long as the marker occurs nowhere else in it.
pub proof fn lemma_every_placeholder_is_replaced(
    run: CssUrlRun,
    known: Map<Seq<char>, Seq<char>>,
    pieces: Seq<(Seq<u8>, Seq<char>)>,
    tail: Seq<u8>,
)
    requires
        run.wf(),
        run.edits@.len() == run.positions@.len(),
        run.uses(known, 0),
        encode_utf8(run.code@) == with_placeholders(pieces) + tail,
        text_edit::occurrences(encode_utf8(run.code@), encode_utf8(CSS_URL_MARKER@), 0)
            == placeholder_positions(pieces),
    ensures
        text_edit::edits_fit(run.edits@, encode_utf8(run.code@).len()),
        text_edit::edited(encode_utf8(run.code@), run.edits@) == with_urls(pieces, known) + tail,
{
    let code = encode_utf8(run.code@);
    let count = pieces.len();
    assert(text_edit::positions(run.positions@).len() == run.positions@.len());
    assert forall|i: int| 0 <= i < count implies #[trigger] replaces(
        run.edits@[i],
        known,
        pieces,
        i,
    ) by {
        assert(run.puts_in(known, i));
        let before = with_placeholders(pieces.take(i)) + pieces[i].0;
        lemma_pieces(pieces, i);
        let front = with_placeholders(pieces.take(i + 1));
        let after = code.skip(front.len() as int);
        assert(front == with_placeholders(pieces).subrange(0, front.len() as int));
        assert(code =~= before + placeholder(pieces[i].1) + after);
        assert(text_edit::positions(run.positions@)[i] == run.positions@[i] as nat);
        lemma_placeholder_reads_back(before, pieces[i].1, after);
        assert(run.placeholder(i) == Ok::<(nat, Seq<char>), CssUrlError>(
            (before.len() + placeholder(pieces[i].1).len(), pieces[i].1),
        ));
    }
    assert(text_edit::edits_fit(run.edits@, code.len())) by {
        assert forall|i: int| 0 <= i < count implies (#[trigger] run.edits@[i]).start
            <= run.edits@[i].end <= code.len() by {
            assert(replaces(run.edits@[i], known, pieces, i));
            lemma_pieces(pieces, i);
        }
        assert forall|i: int, j: int| 0 <= i < j < count implies (#[trigger] run.edits@[i]).end <= (
        #[trigger] run.edits@[j]).start by {
            assert(replaces(run.edits@[i], known, pieces, i));
            assert(replaces(run.edits@[j], known, pieces, j));
            lemma_front_grows(pieces, i + 1, j);
        }
    }
    assert forall|i: int| 0 <= i < count implies (#[trigger] run.edits@[i]).end
        <= with_placeholders(pieces).len() by {
        assert(replaces(run.edits@[i], known, pieces, i));
        lemma_pieces(pieces, i);
    }
    lemma_edited_pieces(code, run.edits@, known, pieces, count as int, tail);
    assert(pieces.take(count as int) =~= pieces);
    assert(run.edits@.take(count as int) =~= run.edits@);
    let whole = with_placeholders(pieces);
    assert(code.take(whole.len() as int) =~= whole);
    assert(code.skip(whole.len() as int) =~= tail);
    text_edit::lemma_edited_prefix(code, run.edits@, whole.len() as int);
}

/// Whether an edit replaces the placeholder behind a piece.
spec fn replaces(
    edit: TextEdit,
    known: Map<Seq<char>, Seq<char>>,
    pieces: Seq<(Seq<u8>, Seq<char>)>,
    i: int,
) -> bool {
    &&& edit.start == with_placeholders(pieces.take(i)).len() + pieces[i].0.len()
    &&& edit.end == with_placeholders(pieces.take(i + 1)).len()
    &&& known[pieces[i].1] == edit.text@
}

proof fn lemma_front_grows(pieces: Seq<(Seq<u8>, Seq<char>)>, i: int, j: int)
    requires
        0 <= i <= j <= pieces.len(),
    ensures
        with_placeholders(pieces.take(i)).len() <= with_placeholders(pieces.take(j)).len(),
    decreases j - i,
{
    if i < j {
        lemma_pieces(pieces, i);
        lemma_front_grows(pieces, i + 1, j);
    }
}

proof fn lemma_edited_pieces(
    code: Seq<u8>,
    edits: Seq<TextEdit>,
    known: Map<Seq<char>, Seq<char>>,
    pieces: Seq<(Seq<u8>, Seq<char>)>,
    count: int,
    tail: Seq<u8>,
)
    requires
        0 <= count <= pieces.len(),
        edits.len() == pieces.len(),
        code == with_placeholders(pieces) + tail,
        text_edit::edits_fit(edits, code.len()),
        forall|i: int| 0 <= i < pieces.len() ==> #[trigger] replaces(edits[i], known, pieces, i),
    ensures
        text_edit::edited(
            code.take(with_placeholders(pieces.take(count)).len() as int),
            edits.take(count),
        ) == with_urls(pieces.take(count), known),
    decreases count,
{
    if count == 0 {
        assert(code.take(0) =~= Seq::<u8>::empty());
    } else {
        let i = count - 1;
        lemma_edited_pieces(code, edits, known, pieces, i, tail);
        lemma_pieces(pieces, i);
        let front = with_placeholders(pieces.take(i));
        let upto = with_placeholders(pieces.take(count));
        let done = edits.take(i);
        let edit = edits[i];
        assert(replaces(edit, known, pieces, i));
        assert(upto == with_placeholders(pieces).subrange(0, upto.len() as int));
        let bytes = code.take(upto.len() as int);
        assert(bytes =~= upto);
        assert(edits.take(count).drop_last() =~= done);
        let head = bytes.take(edit.start as int);
        assert(head =~= front + pieces[i].0);
        assert(text_edit::edits_fit(done, head.len())) by {
            assert forall|j: int| 0 <= j < done.len() implies (#[trigger] done[j]).start
                <= done[j].end <= head.len() by {
                assert(done[j] == edits[j]);
                assert(edits[j].end <= edits[i].start);
            }
        }
        assert forall|j: int| 0 <= j < done.len() implies (#[trigger] done[j]).end
            <= front.len() by {
            assert(done[j] == edits[j]);
            assert(replaces(edits[j], known, pieces, j));
            lemma_front_grows(pieces, j + 1, i);
        }
        text_edit::lemma_edited_prefix(head, done, front.len() as int);
        assert(head.take(front.len() as int) =~= code.take(front.len() as int));
        assert(head.skip(front.len() as int) =~= pieces[i].0);
        assert(bytes.skip(edit.end as int) =~= Seq::<u8>::empty());
        assert(pieces.take(count).drop_last() =~= pieces.take(i));
        assert(text_edit::edited(bytes, edits.take(count)) =~= with_urls(
            pieces.take(count),
            known,
        ));
    }
}

} // verus!
