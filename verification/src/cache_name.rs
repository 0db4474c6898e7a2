//! File names of cache artifacts: a readable stem and a digest of the path identity.

use std::borrow::Cow;
use vstd::prelude::*;
use vstd::utf8::*;
use crate::digest;
use crate::digest::{blake3_hash, short_blake3_hex_from_hash};
use crate::path_text;
use crate::path_text::{native_path_components, PathStyle};
use crate::text;
use crate::text::{ascii_lower, byte_len, chars_of, text_with_room};

verus! {

pub const DX_MACHINE_CACHE_STEM_MAX_BYTES: usize = 160;

pub open spec fn is_word(c: char) -> bool {
    ('a' <= c && c <= 'z') || ('A' <= c && c <= 'Z') || ('0' <= c && c <= '9') || c == '_'
}

/// The runs of word characters in lower case, with one dash between each two runs.
pub open spec fn slug(value: Seq<char>) -> Seq<char>
    decreases value.len(),
{
    if value.len() == 0 {
        Seq::empty()
    } else {
        let before = slug(value.drop_last());
        let c = value.last();
        if !is_word(c) {
            before
        } else if before.len() > 0 && !is_word(value[value.len() - 2]) {
            before.push('-').push(text::lower(c))
        } else {
            before.push(text::lower(c))
        }
    }
}

pub open spec fn path_word() -> Seq<char> {
    seq!['p', 'a', 't', 'h']
}

pub open spec fn source_word() -> Seq<char> {
    seq!['s', 'o', 'u', 'r', 'c', 'e']
}

/// A component in the alphabet of cache names.
pub open spec fn sanitized(value: Seq<char>) -> Seq<char> {
    if slug(value).len() == 0 {
        path_word()
    } else {
        slug(value)
    }
}

pub proof fn lemma_sanitized_ascii(value: Seq<char>)
    ensures
        is_ascii_chars(slug(value)),
        is_ascii_chars(sanitized(value)),
        sanitized(value).len() > 0,
    decreases value.len(),
{
    if value.len() > 0 {
        lemma_sanitized_ascii(value.drop_last());
    }
}

fn is_word_char(c: char) -> (r: bool)
    ensures
        r == is_word(c),
{
    ('a' <= c && c <= 'z') || ('A' <= c && c <= 'Z') || ('0' <= c && c <= '9') || c == '_'
}

pub open spec fn is_plain_name(value: Seq<char>) -> bool {
    value.len() > 0 && forall|i: int|
        0 <= i < value.len() ==> is_word(#[trigger] value[i]) && text::lower(value[i]) == value[i]
}

proof fn lemma_plain_name_is_sanitized(value: Seq<char>)
    requires
        forall|i: int|
            0 <= i < value.len() ==> is_word(#[trigger] value[i]) && text::lower(value[i])
                == value[i],
    ensures
        slug(value) == value,
    decreases value.len(),
{
    if value.len() > 0 {
        let shorter = value.drop_last();
        assert forall|i: int| 0 <= i < shorter.len() implies is_word(#[trigger] shorter[i])
            && text::lower(shorter[i]) == shorter[i] by {
            assert(value[i] == shorter[i]);
        }
        lemma_plain_name_is_sanitized(shorter);
        assert(is_word(value[value.len() - 1]));
        if value.len() >= 2 {
            assert(is_word(value[value.len() - 2]));
        }
        assert(slug(value) =~= value);
    }
}

pub fn is_borrowable_sanitized_path_component(value: &str) -> (r: bool)
    ensures
        r == is_plain_name(value@),
{
    let chars: Vec<char> = chars_of(value);
    if chars.len() == 0 {
        return false;
    }
    let mut i: usize = 0;
    while i < chars.len()
        invariant
            chars@ == value@,
            i <= chars.len(),
            forall|j: int|
                0 <= j < i ==> is_word(#[trigger] value@[j]) && text::lower(value@[j]) == value@[j],
        decreases chars.len() - i,
    {
        let c: char = chars[i];
        if !is_word_char(c) || ascii_lower(c) != c {
            assert(!(is_word(value@[i as int]) && text::lower(value@[i as int]) == value@[i as int]));
            return false;
        }
        i = i + 1;
    }
    true
}

/// The sanitized form of `value`, borrowed where it is `value` itself.
pub fn sanitize_path_component(value: &str) -> (name: Cow<'_, str>)
    ensures
        name@ == sanitized(value@),
        name is Borrowed == is_plain_name(value@),
{
    if is_borrowable_sanitized_path_component(value) {
        proof {
            lemma_plain_name_is_sanitized(value@);
        }
        return Cow::Borrowed(value);
    }
    let mut output: String = text_with_room(sanitized_path_component_len(value));
    push_sanitized_path_component(&mut output, value);
    assert(output@ =~= sanitized(value@));
    Cow::Owned(output)
}

pub fn push_sanitized_path_component(output: &mut String, value: &str)
    ensures
        final(output)@ == old(output)@ + sanitized(value@),
{
    let chars: Vec<char> = chars_of(value);
    let mut wrote_word: bool = false;
    let mut pending_dash: bool = false;
    let mut i: usize = 0;
    assert(output@ =~= old(output)@ + slug(value@.take(0)));
    while i < chars.len()
        invariant
            chars@ == value@,
            i <= chars.len(),
            output@ == old(output)@ + slug(value@.take(i as int)),
            wrote_word == (slug(value@.take(i as int)).len() > 0),
            pending_dash ==> i > 0,
            wrote_word ==> i > 0,
            pending_dash == (wrote_word && !is_word(value@[i - 1])),
        decreases chars.len() - i,
    {
        let c: char = chars[i];
        let ghost before = slug(value@.take(i as int));
        let ghost written = output@;
        proof {
            assert(value@.take(i + 1).drop_last() =~= value@.take(i as int));
            assert(value@.take(i + 1).last() == c);
        }
        if is_word_char(c) {
            if wrote_word && pending_dash {
                output.push('-');
            }
            output.push(ascii_lower(c));
            proof {
                assert(output@ =~= old(output)@ + slug(value@.take(i + 1)));
            }
            wrote_word = true;
            pending_dash = false;
        } else if wrote_word {
            pending_dash = true;
        }
        i = i + 1;
    }
    assert(value@.take(i as int) =~= value@);
    if !wrote_word {
        proof {
            reveal_strlit("path");
            assert("path"@ =~= path_word());
            assert(output@ =~= old(output)@);
        }
        output.push_str("path");
    }
}

/// The length of the sanitized form of `value`.
pub fn sanitized_path_component_len(value: &str) -> (len: usize)
    ensures
        len == text::capped(sanitized(value@).len()),
{
    let chars: Vec<char> = chars_of(value);
    let mut len: usize = 0;
    let mut wrote_word: bool = false;
    let mut pending_dash: bool = false;
    let mut i: usize = 0;
    while i < chars.len()
        invariant
            chars@ == value@,
            i <= chars.len(),
            len == text::capped(slug(value@.take(i as int)).len()),
            wrote_word == (slug(value@.take(i as int)).len() > 0),
            wrote_word ==> i > 0,
            pending_dash == (wrote_word && !is_word(value@[i - 1])),
        decreases chars.len() - i,
    {
        let c: char = chars[i];
        proof {
            assert(value@.take(i + 1).drop_last() =~= value@.take(i as int));
            assert(value@.take(i + 1).last() == c);
        }
        if is_word_char(c) {
            if wrote_word && pending_dash {
                len = len.saturating_add(1);
            }
            len = len.saturating_add(1);
            wrote_word = true;
            pending_dash = false;
        } else if wrote_word {
            pending_dash = true;
        }
        i = i + 1;
    }
    assert(value@.take(i as int) =~= value@);
    if wrote_word {
        len
    } else {
        4
    }
}

/// The sanitized components, with dashes between them.
pub open spec fn flattened(parts: Seq<Seq<char>>) -> Seq<char> {
    if parts.len() == 0 {
        source_word()
    } else {
        text::joined(parts.map_values(|part: Seq<char>| sanitized(part)), '-')
    }
}

pub open spec fn identity_char(c: char) -> char {
    if c == '\\' {
        '/'
    } else {
        text::lower(c)
    }
}

pub open spec fn identity_component(value: Seq<char>) -> Seq<char> {
    value.map_values(|c: char| identity_char(c))
}

/// The components in lower case, joined by `/`: what distinguishes one source from another.
pub open spec fn identity(parts: Seq<Seq<char>>) -> Seq<char> {
    if parts.len() == 0 {
        source_word()
    } else {
        text::joined(parts.map_values(|part: Seq<char>| identity_component(part)), '/')
    }
}

pub open spec fn identity_digest(parts: Seq<Seq<char>>) -> Seq<u8> {
    digest::blake3_digest(encode_utf8(identity(parts)))
}

pub open spec fn short_identity(parts: Seq<Seq<char>>) -> Seq<char> {
    digest::hex_text(identity_digest(parts).take(6))
}

proof fn lemma_joined_ascii(parts: Seq<Seq<char>>, separator: char)
    requires
        forall|i: int| 0 <= i < parts.len() ==> is_ascii_chars(#[trigger] parts[i]),
        separator as nat <= 127,
    ensures
        is_ascii_chars(text::joined(parts, separator)),
    decreases parts.len(),
{
    if parts.len() == 1 {
        assert(is_ascii_chars(parts[0]));
    } else if parts.len() > 1 {
        let shorter = parts.drop_last();
        assert forall|i: int| 0 <= i < shorter.len() implies is_ascii_chars(#[trigger] shorter[i]) by {
            assert(parts[i] == shorter[i]);
        }
        lemma_joined_ascii(shorter, separator);
        assert(is_ascii_chars(parts[parts.len() - 1]));
    }
}

pub proof fn lemma_flattened_ascii(parts: Seq<Seq<char>>)
    ensures
        is_ascii_chars(flattened(parts)),
{
    let names = parts.map_values(|part: Seq<char>| sanitized(part));
    assert forall|i: int| 0 <= i < names.len() implies is_ascii_chars(#[trigger] names[i]) by {
        lemma_sanitized_ascii(parts[i]);
    }
    lemma_joined_ascii(names, '-');
}

fn source_text() -> (word: String)
    ensures
        word@ == source_word(),
{
    proof {
        reveal_strlit("source");
        assert("source"@ =~= source_word());
    }
    "source".to_owned()
}

fn flattened_parts(parts: &Vec<String>) -> (output: String)
    ensures
        output@ == flattened(text::texts(parts@)),
{
    if parts.len() == 0 {
        return source_text();
    }
    let mut names: Vec<String> = Vec::new();
    let mut i: usize = 0;
    while i < parts.len()
        invariant
            i <= parts.len(),
            names.len() == i,
            forall|j: int| 0 <= j < i ==> #[trigger] names@[j]@ == sanitized(parts@[j]@),
        decreases parts.len() - i,
    {
        let mut name: String = text_with_room(sanitized_path_component_len(parts[i].as_str()));
        push_sanitized_path_component(&mut name, parts[i].as_str());
        assert(name@ =~= sanitized(parts@[i as int]@));
        names.push(name);
        i = i + 1;
    }
    assert(text::texts(names@) =~= text::texts(parts@).map_values(
        |part: Seq<char>| sanitized(part),
    ));
    text::join_parts(&names, '-')
}

/// A component in lower case, with forward slashes.
pub fn path_identity_component(value: &str) -> (output: String)
    ensures
        output@ == identity_component(value@),
{
    let chars: Vec<char> = chars_of(value);
    let mut output: String = text_with_room(byte_len(value));
    let mut i: usize = 0;
    while i < chars.len()
        invariant
            chars@ == value@,
            i <= chars.len(),
            output@ == identity_component(value@).take(i as int),
        decreases chars.len() - i,
    {
        if chars[i] == '\\' {
            output.push('/');
        } else {
            output.push(ascii_lower(chars[i]));
        }
        assert(identity_component(value@).take(i + 1) =~= identity_component(value@).take(
            i as int,
        ).push(identity_char(value@[i as int])));
        i = i + 1;
    }
    assert(identity_component(value@).take(i as int) =~= identity_component(value@));
    output
}

fn identity_of_parts(parts: &Vec<String>) -> (output: String)
    ensures
        output@ == identity(text::texts(parts@)),
{
    if parts.len() == 0 {
        return source_text();
    }
    let mut names: Vec<String> = Vec::new();
    let mut i: usize = 0;
    while i < parts.len()
        invariant
            i <= parts.len(),
            names.len() == i,
            forall|j: int| 0 <= j < i ==> #[trigger] names@[j]@ == identity_component(parts@[j]@),
        decreases parts.len() - i,
    {
        names.push(path_identity_component(parts[i].as_str()));
        i = i + 1;
    }
    assert(text::texts(names@) =~= text::texts(parts@).map_values(
        |part: Seq<char>| identity_component(part),
    ));
    text::join_parts(&names, '/')
}

pub fn flatten_path(path: &str, style: PathStyle) -> (output: String)
    ensures
        output@ == flattened(path_text::native_components(path@, style)),
{
    flattened_parts(&native_path_components(path, style))
}

/// The length of the flattened form of `path`.
pub fn flatten_path_len(path: &str, style: PathStyle) -> (len: usize)
    ensures
        len == flattened(path_text::native_components(path@, style)).len(),
{
    proof {
        lemma_flattened_ascii(path_text::native_components(path@, style));
        text::lemma_encode_ascii_len(flattened(path_text::native_components(path@, style)));
    }
    byte_len(flatten_path(path, style).as_str())
}

pub fn path_identity(path: &str, style: PathStyle) -> (output: String)
    ensures
        output@ == identity(path_text::native_components(path@, style)),
{
    identity_of_parts(&native_path_components(path, style))
}

/// The number of bytes in the identity of `path`.
pub fn path_identity_len(path: &str, style: PathStyle) -> (len: usize)
    ensures
        len == encode_utf8(identity(path_text::native_components(path@, style))).len(),
{
    byte_len(path_identity(path, style).as_str())
}

pub fn path_identity_digest(path: &str, style: PathStyle) -> (digest: [u8; 32])
    ensures
        digest@ == identity_digest(path_text::native_components(path@, style)),
{
    blake3_hash(path_identity(path, style).as_str().as_bytes())
}

pub fn path_identity_hash(path: &str, style: PathStyle) -> (output: String)
    ensures
        output@ == short_identity(path_text::native_components(path@, style)),
        output@.len() == 12,
{
    short_blake3_hex_from_hash(&path_identity_digest(path, style))
}

/// What a cache name says of a path.
pub struct CachePathIdentity {
    pub flattened_path: String,
    pub path_hash: String,
}

fn identity_from_parts(parts: &Vec<String>) -> (result: CachePathIdentity)
    ensures
        result.flattened_path@ == flattened(text::texts(parts@)),
        result.path_hash@ == short_identity(text::texts(parts@)),
        result.path_hash@.len() == 12,
{
    let hash: [u8; 32] = blake3_hash(identity_of_parts(parts).as_str().as_bytes());
    CachePathIdentity {
        flattened_path: flattened_parts(parts),
        path_hash: short_blake3_hex_from_hash(&hash),
    }
}

pub fn cache_path_identity(path: &str, style: PathStyle) -> (result: CachePathIdentity)
    ensures
        result.flattened_path@ == flattened(path_text::native_components(path@, style)),
        result.path_hash@ == short_identity(path_text::native_components(path@, style)),
{
    identity_from_parts(&native_path_components(path, style))
}

/// The first `max` bytes, or all of them where there are no more or the cut would split a
/// character.
pub open spec fn truncated(value: Seq<char>, max: int) -> Seq<char> {
    let bytes = encode_utf8(value);
    if 0 <= max < bytes.len() && is_char_boundary(bytes, max) {
        decode_utf8(bytes.take(max))
    } else {
        value
    }
}

/// Of an ASCII text these are the first `max` characters.
proof fn lemma_truncated_ascii(value: Seq<char>, max: int)
    requires
        is_ascii_chars(value),
        max >= 0,
    ensures
        truncated(value, max) == if value.len() <= max {
            value
        } else {
            value.take(max)
        },
{
    text::lemma_encode_ascii_len(value);
    is_ascii_chars_encode_utf8(value);
    if max < value.len() {
        is_ascii_chars_nat_bound(value);
        let head = value.take(max);
        let tail = value.skip(max);
        assert(value =~= head + tail);
        text::lemma_encode_concat(head, tail);
        assert(is_ascii_chars(head));
        text::lemma_encode_ascii_len(head);
        encode_utf8_valid_utf8(value);
        let byte = encode_utf8(value)[max];
        assert(byte == value[max] as u8);
        assert(byte <= 127);
        utf8_byte_ranges_bitwise(byte);
        is_char_boundary_iff_not_is_continuation_byte(encode_utf8(value), max);
        assert(encode_utf8(value).take(max) =~= encode_utf8(head));
        encode_utf8_decode_utf8(head);
    }
}

pub fn truncate_ascii_prefix(value: &str, max_bytes: usize) -> (prefix: &str)
    ensures
        prefix@ == truncated(value@, max_bytes as int),
{
    let bytes: &[u8] = value.as_bytes();
    if bytes.len() <= max_bytes {
        return value;
    }
    proof {
        encode_utf8_valid_utf8(value@);
        is_char_boundary_iff_not_is_continuation_byte(bytes@, max_bytes as int);
        utf8_byte_ranges_bitwise(bytes@[max_bytes as int]);
    }
    if 0x80 <= bytes[max_bytes] && bytes[max_bytes] < 0xc0 {
        return value;
    }
    let (prefix, rest) = value.split_at(max_bytes);
    proof {
        encode_utf8_decode_utf8(prefix@);
        assert(encode_utf8(prefix@) =~= bytes@.take(max_bytes as int));
    }
    prefix
}

/// The namespace and the flattened path as they stand in a stem: the path gives way first, and
/// where the namespace leaves it no room both are replaced by a shortened namespace and `source`.
pub open spec fn stem_parts(namespace: Seq<char>, flat: Seq<char>, hash_len: int) -> (
    Seq<char>,
    Seq<char>,
) {
    let room = DX_MACHINE_CACHE_STEM_MAX_BYTES - (encode_utf8(namespace).len() + 4 + hash_len);
    if room > 0 {
        (namespace, truncated(flat, room))
    } else {
        let namespace_room = DX_MACHINE_CACHE_STEM_MAX_BYTES - (10 + hash_len);
        (
            truncated(
                namespace,
                if namespace_room > 0 {
                    namespace_room
                } else {
                    0
                },
            ),
            source_word(),
        )
    }
}

pub fn readable_cache_stem_parts<'a>(
    namespace: &'a str,
    flattened_path: &'a str,
    path_hash: &str,
) -> (parts: (&'a str, &'a str))
    ensures
        (parts.0@, parts.1@) == stem_parts(
            namespace@,
            flattened_path@,
            encode_utf8(path_hash@).len() as int,
        ),
{
    let fixed_len: usize = byte_len(namespace).saturating_add(4).saturating_add(byte_len(path_hash));
    let readable_budget: usize = DX_MACHINE_CACHE_STEM_MAX_BYTES.saturating_sub(fixed_len);
    if readable_budget > 0 {
        (namespace, truncate_ascii_prefix(flattened_path, readable_budget))
    } else {
        let fallback_len: usize = 10usize.saturating_add(byte_len(path_hash));
        let namespace_budget: usize = DX_MACHINE_CACHE_STEM_MAX_BYTES.saturating_sub(fallback_len);
        proof {
            reveal_strlit("source");
            assert("source"@ =~= source_word());
        }
        (truncate_ascii_prefix(namespace, namespace_budget), "source")
    }
}

/// `<namespace>__<flattened path>--<path hash>`.
pub open spec fn stem_text(namespace: Seq<char>, parts: Seq<Seq<char>>) -> Seq<char> {
    let hash = short_identity(parts);
    let (name, flat) = stem_parts(
        sanitized(namespace),
        flattened(parts),
        encode_utf8(hash).len() as int,
    );
    name + seq!['_', '_'] + flat + seq!['-', '-'] + hash
}

proof fn lemma_slug_ignores_case(value: Seq<char>)
    ensures
        slug(path_text::lowered(value)) == slug(value),
    decreases value.len(),
{
    let low = path_text::lowered(value);
    if value.len() > 0 {
        lemma_slug_ignores_case(value.drop_last());
        assert(low.drop_last() =~= path_text::lowered(value.drop_last()));
        assert(is_word(text::lower(value.last())) == is_word(value.last()));
        if value.len() > 1 {
            let c = value[value.len() - 2];
            assert(low[value.len() - 2] == text::lower(c));
            assert(is_word(text::lower(c)) == is_word(c));
        }
        assert(text::lower(text::lower(value.last())) == text::lower(value.last()));
    } else {
        assert(low =~= value);
    }
}

/// Letter case does not tell the names of two sources apart.
pub proof fn lemma_stem_ignores_case(namespace: Seq<char>, parts: Seq<Seq<char>>)
    ensures
        stem_text(namespace, parts.map_values(|part: Seq<char>| path_text::lowered(part)))
            == stem_text(namespace, parts),
{
    let low = parts.map_values(|part: Seq<char>| path_text::lowered(part));
    let name = |part: Seq<char>| sanitized(part);
    let own = |part: Seq<char>| identity_component(part);
    assert(low.map_values(name) =~= parts.map_values(name)) by {
        assert forall|i: int| 0 <= i < parts.len() implies sanitized(#[trigger] low[i])
            == sanitized(parts[i]) by {
            lemma_slug_ignores_case(parts[i]);
        }
    }
    assert(low.map_values(own) =~= parts.map_values(own)) by {
        assert forall|i: int| 0 <= i < parts.len() implies identity_component(#[trigger] low[i])
            == identity_component(parts[i]) by {
            assert(identity_component(low[i]) =~= identity_component(parts[i]));
        }
    }
}

pub fn cache_stem_len_from_parts(namespace: &str, flattened_path: &str, path_hash: &str) -> (len:
    usize)
    ensures
        len == text::capped(
            encode_utf8(namespace@).len() + 2 + encode_utf8(flattened_path@).len() + 2
                + encode_utf8(path_hash@).len(),
        ),
{
    byte_len(namespace).saturating_add(2).saturating_add(byte_len(flattened_path)).saturating_add(
        2,
    ).saturating_add(byte_len(path_hash))
}

/// The stem of the artifacts for the source with components `parts`.
pub fn cache_stem_for_parts(namespace: &str, parts: &Vec<String>) -> (stem: String)
    ensures
        stem@ == stem_text(namespace@, text::texts(parts@)),
        is_ascii_chars(stem@),
        stem@.len() <= DX_MACHINE_CACHE_STEM_MAX_BYTES,
{
    let mut name: String = text_with_room(sanitized_path_component_len(namespace));
    push_sanitized_path_component(&mut name, namespace);
    assert(name@ =~= sanitized(namespace@));
    let cache_path: CachePathIdentity = identity_from_parts(parts);
    proof {
        lemma_sanitized_ascii(namespace@);
        lemma_flattened_ascii(text::texts(parts@));
        lemma_short_hex_ascii(identity_digest(text::texts(parts@)));
        let hash = cache_path.path_hash@;
        text::lemma_encode_ascii_len(name@);
        text::lemma_encode_ascii_len(hash);
        let room = DX_MACHINE_CACHE_STEM_MAX_BYTES - (name@.len() + 4 + hash.len());
        if room > 0 {
            lemma_truncated_ascii(cache_path.flattened_path@, room);
        } else {
            lemma_truncated_ascii(name@, DX_MACHINE_CACHE_STEM_MAX_BYTES - (10 + hash.len()));
        }
    }
    let (readable_name, readable_path) = readable_cache_stem_parts(
        name.as_str(),
        cache_path.flattened_path.as_str(),
        cache_path.path_hash.as_str(),
    );
    let mut stem: String = text_with_room(
        cache_stem_len_from_parts(readable_name, readable_path, cache_path.path_hash.as_str()),
    );
    stem.push_str(readable_name);
    stem.push_str("__");
    stem.push_str(readable_path);
    stem.push_str("--");
    stem.push_str(cache_path.path_hash.as_str());
    proof {
        reveal_strlit("__");
        reveal_strlit("--");
        assert("__"@ =~= seq!['_', '_']);
        assert("--"@ =~= seq!['-', '-']);
        assert(stem@ =~= stem_text(namespace@, text::texts(parts@)));
    }
    stem
}

proof fn lemma_short_hex_ascii(bytes: Seq<u8>)
    ensures
        is_ascii_chars(digest::hex_text(bytes.take(6))),
{
    let hex = digest::hex_text(bytes.take(6));
    assert forall|i: int| 0 <= i < hex.len() implies '\0' <= #[trigger] hex[i] <= '\u{7f}' by {
    }
}

/// The stem of the artifacts for the source at `relative_path`.
pub fn cache_stem(namespace: &str, relative_path: &str, style: PathStyle) -> (stem: String)
    ensures
        stem@ == stem_text(namespace@, path_text::native_components(relative_path@, style)),
        is_ascii_chars(stem@),
        stem@.len() <= DX_MACHINE_CACHE_STEM_MAX_BYTES,
{
    cache_stem_for_parts(namespace, &native_path_components(relative_path, style))
}

pub fn cache_stem_len(namespace: &str, relative_path: &str, style: PathStyle) -> (len: usize)
    ensures
        len == stem_text(namespace@, path_text::native_components(relative_path@, style)).len(),
{
    let stem: String = cache_stem(namespace, relative_path, style);
    proof {
        text::lemma_encode_ascii_len(stem@);
    }
    byte_len(stem.as_str())
}

pub fn cache_artifact_file_name(stem: &str, suffix: &str) -> (file_name: String)
    ensures
        file_name@ == stem@ + suffix@,
{
    let mut file_name: String = text_with_room(byte_len(stem).saturating_add(byte_len(suffix)));
    file_name.push_str(stem);
    file_name.push_str(suffix);
    assert(file_name@ =~= stem@ + suffix@);
    file_name
}

// ---------------------------------------------------------------------------------------------
// What a name keeps

/// A text of word characters alone is its own slug, in lower case.
pub proof fn lemma_slug_of_word(value: Seq<char>)
    requires
        forall|i: int| 0 <= i < value.len() ==> is_word(#[trigger] value[i]),
    ensures
        slug(value) == path_text::lowered(value),
    decreases value.len(),
{
    if value.len() == 0 {
        assert(path_text::lowered(value) =~= Seq::empty());
    } else {
        let front = value.drop_last();
        assert forall|i: int| 0 <= i < front.len() implies is_word(#[trigger] front[i]) by {
            assert(front[i] == value[i]);
        }
        lemma_slug_of_word(front);
        assert(is_word(value[value.len() - 1]));
        if value.len() > 1 {
            assert(is_word(value[value.len() - 2]));
        }
        assert(path_text::lowered(value) =~= path_text::lowered(front).push(
            text::lower(value.last()),
        ));
    }
}

/// A character that is no word character separates: the slugs of both sides are kept, with one dash
/// between them where both have any characters.
pub proof fn lemma_slug_of_two_parts(left: Seq<char>, between: char, right: Seq<char>)
    requires
        !is_word(between),
    ensures
        slug(left.push(between) + right) == if slug(left).len() == 0 {
            slug(right)
        } else if slug(right).len() == 0 {
            slug(left)
        } else {
            slug(left).push('-') + slug(right)
        },
    decreases right.len(),
{
    let whole = left.push(between) + right;
    if right.len() == 0 {
        assert(whole =~= left.push(between));
        assert(left.push(between).drop_last() =~= left);
        assert(slug(right) =~= Seq::empty());
        if slug(left).len() == 0 {
            assert(slug(left) =~= Seq::empty());
        }
    } else {
        let front = right.drop_last();
        lemma_slug_of_two_parts(left, between, front);
        assert(whole.drop_last() =~= left.push(between) + front);
        let c = right.last();
        assert(whole.last() == c);
        if is_word(c) {
            if right.len() > 1 {
                assert(whole[whole.len() - 2] == right[right.len() - 2]);
            } else {
                assert(whole[whole.len() - 2] == between);
                assert(slug(front) =~= Seq::empty());
            }
            if slug(front).len() == 0 {
                lemma_no_slug(front);
                if right.len() > 1 {
                    assert(front[front.len() - 1] == right[right.len() - 2]);
                }
                assert(slug(front) =~= Seq::empty());
            }
            assert(slug(whole) =~= if slug(left).len() == 0 {
                slug(right)
            } else {
                slug(left).push('-') + slug(right)
            });
        }
    }
}

proof fn lemma_no_slug(value: Seq<char>)
    requires
        slug(value).len() == 0,
    ensures
        forall|i: int| 0 <= i < value.len() ==> !is_word(#[trigger] value[i]),
    decreases value.len(),
{
    if value.len() > 0 {
        lemma_no_slug(value.drop_last());
        assert forall|i: int| 0 <= i < value.len() implies !is_word(#[trigger] value[i]) by {
            if i < value.len() - 1 {
                assert(value.drop_last()[i] == value[i]);
            }
        }
    }
}

/// A name is the slug of its text, and a text without word characters has the name `path`.
pub proof fn lemma_sanitized(value: Seq<char>)
    ensures
        (exists|i: int| 0 <= i < value.len() && is_word(#[trigger] value[i])) ==> sanitized(value)
            == slug(value),
        (forall|i: int| 0 <= i < value.len() ==> !is_word(#[trigger] value[i])) ==> sanitized(value)
            == seq!['p', 'a', 't', 'h'],
    decreases value.len(),
{
    if slug(value).len() == 0 {
        lemma_no_slug(value);
    }
    if forall|i: int| 0 <= i < value.len() ==> !is_word(#[trigger] value[i]) {
        lemma_no_word_no_slug(value);
    }
}

proof fn lemma_no_word_no_slug(value: Seq<char>)
    requires
        forall|i: int| 0 <= i < value.len() ==> !is_word(#[trigger] value[i]),
    ensures
        slug(value).len() == 0,
    decreases value.len(),
{
    if value.len() > 0 {
        let front = value.drop_last();
        assert forall|i: int| 0 <= i < front.len() implies !is_word(#[trigger] front[i]) by {
            assert(front[i] == value[i]);
        }
        lemma_no_word_no_slug(front);
        assert(!is_word(value[value.len() - 1]));
    }
}

/// One more component of a path adds a dash and its name; a path without components has the name
/// `source`.
pub proof fn lemma_flattened_push(parts: Seq<Seq<char>>, part: Seq<char>)
    ensures
        flattened(Seq::empty()) == seq!['s', 'o', 'u', 'r', 'c', 'e'],
        parts.len() == 0 ==> flattened(parts.push(part)) == sanitized(part),
        parts.len() > 0 ==> flattened(parts.push(part)) == flattened(parts).push('-') + sanitized(
            part,
        ),
{
    let clean = |part: Seq<char>| sanitized(part);
    assert(parts.push(part).map_values(clean) =~= parts.map_values(clean).push(sanitized(part)));
    text::lemma_joined_push(parts.map_values(clean), sanitized(part), '-');
}

/// Paths that differ in more than the case of letters have different identities.
pub proof fn lemma_identity_tells_apart(left: Seq<Seq<char>>, right: Seq<Seq<char>>)
    requires
        left.len() > 0,
        right.len() > 0,
        forall|i: int, j: int|
            0 <= i < left.len() && 0 <= j < left[i].len() ==> !path_text::is_separator(
                #[trigger] left[i][j],
            ),
        forall|i: int, j: int|
            0 <= i < right.len() && 0 <= j < right[i].len() ==> !path_text::is_separator(
                #[trigger] right[i][j],
            ),
        identity(left) == identity(right),
    ensures
        left.len() == right.len(),
        forall|i: int|
            0 <= i < left.len() ==> path_text::lowered(#[trigger] left[i]) == path_text::lowered(
                right[i],
            ),
{
    let make = |part: Seq<char>| identity_component(part);
    let l = left.map_values(make);
    let r = right.map_values(make);
    lemma_identity_splits(left);
    lemma_identity_splits(right);
    assert(l == r);
    assert(l.len() == left.len() && r.len() == right.len());
    assert forall|i: int| 0 <= i < left.len() implies path_text::lowered(#[trigger] left[i])
        == path_text::lowered(right[i]) by {
        assert(l[i] == r[i]);
        assert(l[i] =~= path_text::lowered(left[i])) by {
            assert forall|j: int| 0 <= j < left[i].len() implies l[i][j] == path_text::lowered(
                left[i],
            )[j] by {
                assert(!path_text::is_separator(left[i][j]));
            }
        }
        assert(r[i] =~= path_text::lowered(right[i])) by {
            assert forall|j: int| 0 <= j < right[i].len() implies r[i][j] == path_text::lowered(
                right[i],
            )[j] by {
                assert(!path_text::is_separator(right[i][j]));
            }
        }
    }
}

proof fn lemma_identity_splits(parts: Seq<Seq<char>>)
    requires
        parts.len() > 0,
        forall|i: int, j: int|
            0 <= i < parts.len() && 0 <= j < parts[i].len() ==> !path_text::is_separator(
                #[trigger] parts[i][j],
            ),
    ensures
        path_text::native_segments(identity(parts), PathStyle::Windows) == parts.map_values(
            |part: Seq<char>| identity_component(part),
        ),
{
    let own = parts.map_values(|part: Seq<char>| identity_component(part));
    assert forall|i: int, j: int| 0 <= i < own.len() && 0 <= j < own[i].len() implies
        !path_text::separates(#[trigger] own[i][j], PathStyle::Windows) by {
        assert(!path_text::is_separator(parts[i][j]));
        assert(own[i][j] == identity_char(parts[i][j]));
    }
    path_text::lemma_joined_splits(own, '/', PathStyle::Windows);
}

/// A stem ends with the short digest of its source, so that sources with different digests have
/// different stems. Where it fits, it holds the whole namespace and the whole path.
pub proof fn lemma_stem(namespace: Seq<char>, parts: Seq<Seq<char>>)
    ensures
        stem_text(namespace, parts).len() >= 12,
        stem_text(namespace, parts).skip(stem_text(namespace, parts).len() - 12) == short_identity(
            parts,
        ),
        sanitized(namespace).len() + flattened(parts).len() + 16 <= DX_MACHINE_CACHE_STEM_MAX_BYTES
            ==> stem_text(namespace, parts) == sanitized(namespace) + seq!['_', '_'] + flattened(
            parts,
        ) + seq!['-', '-'] + short_identity(parts),
        DX_MACHINE_CACHE_STEM_MAX_BYTES - 16 - sanitized(namespace).len() > 0 && sanitized(
            namespace,
        ).len() + flattened(parts).len() + 16 > DX_MACHINE_CACHE_STEM_MAX_BYTES ==> stem_text(
            namespace,
            parts,
        ) == sanitized(namespace) + seq!['_', '_'] + flattened(parts).take(
            DX_MACHINE_CACHE_STEM_MAX_BYTES - 16 - sanitized(namespace).len(),
        ) + seq!['-', '-'] + short_identity(parts),
{
    let hash = short_identity(parts);
    let stem = stem_text(namespace, parts);
    assert(identity_digest(parts).len() == 32);
    assert(hash.len() == 12);
    assert(is_ascii_chars(hash)) by {
        let bytes = identity_digest(parts).take(6);
        assert forall|i: int| 0 <= i < hash.len() implies '\0' <= #[trigger] hash[i]
            <= '\u{7f}' by {
            let high = (bytes[i / 2] / 16) as nat;
            let low = (bytes[i / 2] % 16) as nat;
            assert(hash[i] == digest::hex_digit(high) || hash[i] == digest::hex_digit(low));
        }
    }
    text::lemma_encode_ascii_len(hash);
    assert(stem.skip(stem.len() - 12) =~= hash);
    lemma_sanitized_ascii(namespace);
    lemma_flattened_ascii(parts);
    text::lemma_encode_ascii_len(sanitized(namespace));
    text::lemma_encode_ascii_len(flattened(parts));
    let room = DX_MACHINE_CACHE_STEM_MAX_BYTES - 16 - sanitized(namespace).len();
    if room > 0 && room < flattened(parts).len() {
        lemma_truncated_ascii(flattened(parts), room);
    }
}

/// Sources with different digests have different stems.
pub proof fn lemma_stems_tell_sources_apart(
    namespace: Seq<char>,
    other_namespace: Seq<char>,
    left: Seq<Seq<char>>,
    right: Seq<Seq<char>>,
)
    requires
        identity_digest(left).take(6) != identity_digest(right).take(6),
    ensures
        stem_text(namespace, left) != stem_text(other_namespace, right),
{
    lemma_stem(namespace, left);
    lemma_stem(other_namespace, right);
    if short_identity(left) == short_identity(right) {
        digest::lemma_hex_text_injective(
            identity_digest(left).take(6),
            identity_digest(right).take(6),
        );
    }
}

} // verus!
