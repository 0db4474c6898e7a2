//! Paths as text: components, matching and the identity that cache names are built from.
//!
//! In recorded paths both slashes separate components, elsewhere those of the platform. Empty
//! components and `.` are dropped.

use vstd::prelude::*;
use vstd::utf8::*;
use crate::text;
use crate::text::{ascii_lower, ascii_upper, chars_of, same_text};

verus! {

/// Whose rules decide whether two components name the same directory entry.
#[derive(Debug, Clone, Copy, PartialEq, Eq, Structural)]
pub enum PathStyle {
    Unix,
    Windows,
}

pub open spec fn is_separator(c: char) -> bool {
    c == '/' || c == '\\'
}

/// What separates components on a platform: the slash, and on Windows the backslash too.
pub open spec fn separates(c: char, style: PathStyle) -> bool {
    c == '/' || (style is Windows && c == '\\')
}

/// The pieces between a platform's separators, empty ones included.
pub open spec fn native_segments(path: Seq<char>, style: PathStyle) -> Seq<Seq<char>>
    decreases path.len(),
{
    if path.len() == 0 {
        seq![Seq::<char>::empty()]
    } else {
        let before = native_segments(path.drop_last(), style);
        if separates(path.last(), style) {
            before.push(Seq::empty())
        } else {
            before.drop_last().push(before.last().push(path.last()))
        }
    }
}

/// The pieces between separators of either kind, empty ones included.
pub open spec fn segments(path: Seq<char>) -> Seq<Seq<char>> {
    native_segments(path, PathStyle::Windows)
}

/// Whether a segment counts as a component.
pub open spec fn names_entry(segment: Seq<char>) -> bool {
    segment.len() > 0 && segment != seq!['.']
}

pub open spec fn native_components(path: Seq<char>, style: PathStyle) -> Seq<Seq<char>> {
    native_segments(path, style).filter(|segment: Seq<char>| names_entry(segment))
}

pub open spec fn components(path: Seq<char>) -> Seq<Seq<char>> {
    native_components(path, PathStyle::Windows)
}

proof fn lemma_segments_nonempty(path: Seq<char>, style: PathStyle)
    ensures
        native_segments(path, style).len() > 0,
    decreases path.len(),
{
    if path.len() > 0 {
        lemma_segments_nonempty(path.drop_last(), style);
    }
}

fn component_counts(segment: &String) -> (r: bool)
    ensures
        r == names_entry(segment@),
{
    proof {
        reveal_strlit(".");
        assert("."@ =~= seq!['.']);
    }
    !segment.as_str().is_empty() && !same_text(segment.as_str(), ".")
}

/// The components of `path`, in order.
pub fn path_components(path: &str) -> (parts: Vec<String>)
    ensures
        text::texts(parts@) == components(path@),
{
    native_path_components(path, PathStyle::Windows)
}

pub fn char_separates(c: char, style: PathStyle) -> (r: bool)
    ensures
        r == separates(c, style),
{
    match style {
        PathStyle::Unix => c == '/',
        PathStyle::Windows => c == '/' || c == '\\',
    }
}

/// The components of `path` on a platform, in order.
pub fn native_path_components(path: &str, style: PathStyle) -> (parts: Vec<String>)
    ensures
        text::texts(parts@) == native_components(path@, style),
{
    let chars: Vec<char> = chars_of(path);
    let mut parts: Vec<String> = Vec::new();
    let mut current: String = String::new();
    let mut i: usize = 0;
    let ghost keep = |segment: Seq<char>| names_entry(segment);
    proof {
        assert(path@.take(0) =~= Seq::empty());
        let whole = native_segments(path@.take(0), style);
        assert(whole.drop_last() =~= Seq::empty());
        reveal(Seq::filter);
        assert(text::texts(parts@) =~= Seq::empty());
    }
    while i < chars.len()
        invariant
            chars@ == path@,
            i <= chars.len(),
            keep == (|segment: Seq<char>| names_entry(segment)),
            native_segments(path@.take(i as int), style).len() > 0,
            current@ == native_segments(path@.take(i as int), style).last(),
            text::texts(parts@) == native_segments(path@.take(i as int), style).drop_last().filter(keep),
        decreases chars.len() - i,
    {
        let c: char = chars[i];
        let ghost before = native_segments(path@.take(i as int), style);
        let ghost old_parts = parts@;
        let ghost old_current = current@;
        proof {
            assert(path@.take(i + 1).drop_last() =~= path@.take(i as int));
            assert(path@.take(i + 1).last() == c);
        }
        if char_separates(c, style) {
            proof {
                assert(before =~= before.drop_last().push(before.last()));
                before.drop_last().lemma_filter_push(before.last(), keep);
                assert(before.push(Seq::<char>::empty()).drop_last() =~= before);
            }
            if component_counts(&current) {
                parts.push(current);
                assert(text::texts(parts@) =~= text::texts(old_parts).push(old_current));
            }
            current = String::new();
        } else {
            current.push(c);
            proof {
                let grown = before.drop_last().push(before.last().push(c));
                assert(grown.drop_last() =~= before.drop_last());
            }
        }
        i = i + 1;
    }
    proof {
        assert(path@.take(i as int) =~= path@);
        let whole = native_segments(path@, style);
        assert(whole =~= whole.drop_last().push(whole.last()));
        whole.drop_last().lemma_filter_push(whole.last(), keep);
    }
    let ghost old_parts = parts@;
    let ghost old_current = current@;
    if component_counts(&current) {
        parts.push(current);
        assert(text::texts(parts@) =~= text::texts(old_parts).push(old_current));
    }
    parts
}

/// The ASCII lower-case form of a text.
pub open spec fn lowered(value: Seq<char>) -> Seq<char> {
    value.map_values(|c: char| text::lower(c))
}

/// Windows compares components without regard to ASCII case.
pub open spec fn component_matches(left: Seq<char>, right: Seq<char>, style: PathStyle) -> bool {
    match style {
        PathStyle::Unix => left == right,
        PathStyle::Windows => lowered(left) == lowered(right),
    }
}

pub open spec fn all_components_match(
    left: Seq<Seq<char>>,
    right: Seq<Seq<char>>,
    style: PathStyle,
) -> bool {
    left.len() == right.len() && forall|i: int|
        0 <= i < left.len() ==> component_matches(#[trigger] left[i], right[i], style)
}

/// Whether two path texts name the same file.
pub open spec fn paths_match(left: Seq<char>, right: Seq<char>, style: PathStyle) -> bool {
    all_components_match(components(left), components(right), style)
}

/// Matching paths is an equivalence.
pub proof fn lemma_paths_match_equivalence(
    first: Seq<char>,
    second: Seq<char>,
    third: Seq<char>,
    style: PathStyle,
)
    ensures
        paths_match(first, first, style),
        paths_match(first, second, style) ==> paths_match(second, first, style),
        paths_match(first, second, style) && paths_match(second, third, style) ==> paths_match(
            first,
            third,
            style,
        ),
{
    let a = components(first);
    let b = components(second);
    let c = components(third);
    if paths_match(first, second, style) {
        assert forall|i: int| 0 <= i < b.len() implies component_matches(#[trigger] b[i], a[i], style) by {
            assert(component_matches(a[i], b[i], style));
        }
        if paths_match(second, third, style) {
            assert forall|i: int| 0 <= i < a.len() implies component_matches(
                #[trigger] a[i],
                c[i],
                style,
            ) by {
                assert(component_matches(a[i], b[i], style));
                assert(component_matches(b[i], c[i], style));
            }
        }
    }
}

pub fn metadata_path_byte_is_separator(c: char) -> (r: bool)
    ensures
        r == is_separator(c),
{
    c == '/' || c == '\\'
}

pub fn equals_ignoring_case(left: &str, right: &str) -> (r: bool)
    ensures
        r == (lowered(left@) == lowered(right@)),
{
    let l: Vec<char> = chars_of(left);
    let r: Vec<char> = chars_of(right);
    if l.len() != r.len() {
        assert(lowered(left@).len() != lowered(right@).len());
        return false;
    }
    let mut i: usize = 0;
    while i < l.len()
        invariant
            l@ == left@,
            r@ == right@,
            l.len() == r.len(),
            i <= l.len(),
            forall|j: int| 0 <= j < i ==> text::lower(#[trigger] l@[j]) == text::lower(r@[j]),
        decreases l.len() - i,
    {
        if ascii_lower(l[i]) != ascii_lower(r[i]) {
            assert(lowered(left@)[i as int] != lowered(right@)[i as int]);
            return false;
        }
        i = i + 1;
    }
    assert(lowered(left@) =~= lowered(right@));
    true
}

pub fn metadata_path_components_match(left: &str, right: &str, style: PathStyle) -> (r: bool)
    ensures
        r == component_matches(left@, right@, style),
{
    match style {
        PathStyle::Unix => same_text(left, right),
        PathStyle::Windows => equals_ignoring_case(left, right),
    }
}

pub fn normalized_metadata_paths_match(left: &str, right: &str, style: PathStyle) -> (r: bool)
    ensures
        r == paths_match(left@, right@, style),
{
    let l: Vec<String> = path_components(left);
    let r: Vec<String> = path_components(right);
    proof {
        assert(components(left@).len() == l.len());
        assert(components(right@).len() == r.len());
    }
    if l.len() != r.len() {
        return false;
    }
    let mut i: usize = 0;
    while i < l.len()
        invariant
            text::texts(l@) == components(left@),
            text::texts(r@) == components(right@),
            l.len() == r.len(),
            l.len() == components(left@).len(),
            r.len() == components(right@).len(),
            i <= l.len(),
            forall|j: int|
                0 <= j < i ==> component_matches(
                    #[trigger] components(left@)[j],
                    components(right@)[j],
                    style,
                ),
        decreases l.len() - i,
    {
        assert(l@[i as int]@ == components(left@)[i as int]);
        assert(r@[i as int]@ == components(right@)[i as int]);
        if !metadata_path_components_match(l[i].as_str(), r[i].as_str(), style) {
            return false;
        }
        i = i + 1;
    }
    true
}

/// Two characters that a Windows path may use for each other.
pub open spec fn windows_chars_match(left: char, right: char) -> bool {
    (is_separator(left) && is_separator(right)) || text::lower(left) == text::lower(right)
}

pub open spec fn windows_texts_match(left: Seq<char>, right: Seq<char>) -> bool {
    left.len() == right.len() && forall|i: int|
        0 <= i < left.len() ==> windows_chars_match(#[trigger] left[i], right[i])
}

/// A character-by-character match under Windows rules, which holds only between matching paths.
pub fn common_windows_metadata_path_bytes_match(left: &str, right: &str, style: PathStyle) -> (r:
    bool)
    ensures
        r == (style is Windows && windows_texts_match(left@, right@)),
        r ==> paths_match(left@, right@, style),
{
    match style {
        PathStyle::Unix => {
            return false;
        },
        PathStyle::Windows => {},
    }
    let l: Vec<char> = chars_of(left);
    let r: Vec<char> = chars_of(right);
    if l.len() != r.len() {
        return false;
    }
    let mut i: usize = 0;
    while i < l.len()
        invariant
            l@ == left@,
            r@ == right@,
            l.len() == r.len(),
            i <= l.len(),
            forall|j: int| 0 <= j < i ==> windows_chars_match(#[trigger] l@[j], r@[j]),
        decreases l.len() - i,
    {
        let both_separate: bool = metadata_path_byte_is_separator(l[i])
            && metadata_path_byte_is_separator(r[i]);
        if !both_separate && ascii_lower(l[i]) != ascii_lower(r[i]) {
            assert(!windows_chars_match(l@[i as int], r@[i as int]));
            return false;
        }
        i = i + 1;
    }
    proof {
        lemma_windows_texts_match_components(left@, right@);
    }
    true
}

proof fn lemma_separator_lower(left: char, right: char)
    requires
        windows_chars_match(left, right),
    ensures
        is_separator(left) == is_separator(right),
        !is_separator(left) ==> text::lower(left) == text::lower(right),
        left == '.' <==> right == '.',
{
}

proof fn lemma_windows_segments(left: Seq<char>, right: Seq<char>)
    requires
        windows_texts_match(left, right),
    ensures
        segments(left).len() == segments(right).len(),
        segments(left).len() > 0,
        forall|i: int|
            0 <= i < segments(left).len() ==> lowered(#[trigger] segments(left)[i]) == lowered(
                segments(right)[i],
            ),
    decreases left.len(),
{
    if left.len() > 0 {
        lemma_windows_segments(left.drop_last(), right.drop_last());
        let l = segments(left.drop_last());
        let r = segments(right.drop_last());
        assert(windows_chars_match(left[left.len() - 1], right[left.len() - 1]));
        lemma_separator_lower(left.last(), right.last());
        assert forall|i: int| 0 <= i < segments(left).len() implies lowered(
            #[trigger] segments(left)[i],
        ) == lowered(segments(right)[i]) by {
            if !is_separator(left.last()) && i == l.len() - 1 {
                assert(lowered(l[i]) == lowered(r[i]));
                assert(lowered(l[i].push(left.last())) =~= lowered(l[i]).push(text::lower(left.last())));
                assert(lowered(r[i].push(right.last())) =~= lowered(r[i]).push(text::lower(right.last())));
            } else if i < l.len() {
                assert(lowered(l[i]) == lowered(r[i]));
            }
        }
    }
}

proof fn lemma_lowered_names_entry(left: Seq<char>, right: Seq<char>)
    requires
        lowered(left) == lowered(right),
    ensures
        names_entry(left) == names_entry(right),
{
    assert(lowered(left).len() == left.len());
    assert(lowered(right).len() == right.len());
    if left.len() == 1 {
        assert(lowered(left)[0] == text::lower(left[0]));
        assert(lowered(right)[0] == text::lower(right[0]));
        if left[0] == '.' {
            assert(right[0] == '.');
            assert(left =~= seq!['.']);
            assert(right =~= seq!['.']);
        }
        if right[0] == '.' {
            assert(left[0] == '.');
            assert(left =~= seq!['.']);
        }
    }
}

proof fn lemma_filter_lockstep(left: Seq<Seq<char>>, right: Seq<Seq<char>>)
    requires
        left.len() == right.len(),
        forall|i: int| 0 <= i < left.len() ==> lowered(#[trigger] left[i]) == lowered(right[i]),
    ensures
        ({
            let keep = |segment: Seq<char>| names_entry(segment);
            all_components_match(left.filter(keep), right.filter(keep), PathStyle::Windows)
        }),
    decreases left.len(),
{
    let keep = |segment: Seq<char>| names_entry(segment);
    reveal(Seq::filter);
    if left.len() > 0 {
        lemma_filter_lockstep(left.drop_last(), right.drop_last());
        let n = left.len() - 1;
        assert(lowered(left[n]) == lowered(right[n]));
        lemma_lowered_names_entry(left[n], right[n]);
        let l = left.drop_last().filter(keep);
        let r = right.drop_last().filter(keep);
        assert forall|i: int| 0 <= i < left.filter(keep).len() implies component_matches(
            #[trigger] left.filter(keep)[i],
            right.filter(keep)[i],
            PathStyle::Windows,
        ) by {
            if i < l.len() {
                assert(component_matches(l[i], r[i], PathStyle::Windows));
            }
        }
    }
}

/// A match character by character is a match of the paths.
pub proof fn lemma_windows_texts_match_components(left: Seq<char>, right: Seq<char>)
    requires
        windows_texts_match(left, right),
    ensures
        paths_match(left, right, PathStyle::Windows),
{
    lemma_windows_segments(left, right);
    lemma_filter_lockstep(segments(left), segments(right));
}

/// Whether a recorded path still names the path at hand.
pub fn metadata_path_matches(metadata_path: &str, runtime_path: &str, style: PathStyle) -> (r: bool)
    ensures
        r == paths_match(metadata_path@, runtime_path@, style),
{
    if same_text(metadata_path, runtime_path) {
        proof {
            lemma_paths_match_equivalence(metadata_path@, metadata_path@, metadata_path@, style);
        }
        return true;
    }
    if common_windows_metadata_path_bytes_match(metadata_path, runtime_path, style) {
        return true;
    }
    normalized_metadata_paths_match(metadata_path, runtime_path, style)
}

/// The components of `path`, joined by `/`.
pub fn normalize_metadata_path_components(path: &str) -> (normalized: String)
    ensures
        normalized@ == text::joined(components(path@), '/'),
{
    text::join_parts(&path_components(path), '/')
}

/// The number of bytes in the normalized form of `path`.
pub fn normalized_metadata_path_len(path: &str) -> (len: usize)
    ensures
        len == encode_utf8(text::joined(components(path@), '/')).len(),
{
    text::byte_len(normalize_metadata_path_components(path).as_str())
}

/// What a path starts with when it starts with separators.
pub open spec fn root_text(path: Seq<char>, style: PathStyle) -> Seq<char> {
    if path.len() == 0 || !separates(path[0], style) {
        Seq::empty()
    } else if style is Windows && path.len() > 1 && separates(path[1], style) {
        seq!['/', '/']
    } else {
        seq!['/']
    }
}

/// Whether the first component of a path is the directory itself.
pub open spec fn starts_in_place(path: Seq<char>, style: PathStyle) -> bool {
    path.len() > 0 && path[0] == '.' && (path.len() == 1 || separates(path[1], style))
}

/// What a path starts with when it does not start with a name.
pub open spec fn lead_text(path: Seq<char>, style: PathStyle) -> Seq<char> {
    if starts_in_place(path, style) {
        seq!['.', '/']
    } else {
        root_text(path, style)
    }
}

/// Whether a path starts with a drive, which only Windows has.
pub open spec fn starts_with_drive(path: Seq<char>, style: PathStyle) -> bool {
    style is Windows && path.len() > 1 && path[1] == ':' && 'a' <= text::lower(path[0]) <= 'z'
}

/// The components of a path with its drive in upper case: drives are compared without case.
pub open spec fn named_parts(path: Seq<char>, style: PathStyle) -> Seq<Seq<char>> {
    let parts = native_components(path, style);
    if starts_with_drive(path, style) && parts.len() > 0 && parts[0].len() > 0 {
        parts.update(0, parts[0].update(0, text::upper(parts[0][0])))
    } else {
        parts
    }
}

/// One text for all spellings of a path.
pub open spec fn path_key(path: Seq<char>, style: PathStyle) -> Seq<char> {
    lead_text(path, style) + text::joined(named_parts(path, style), '/')
}

/// Whether two texts spell the same path: they start alike and have the same components.
pub open spec fn same_path(left: Seq<char>, right: Seq<char>, style: PathStyle) -> bool {
    lead_text(left, style) == lead_text(right, style) && named_parts(left, style) == named_parts(
        right,
        style,
    )
}

/// Every spelling of a path has the same key.
pub proof fn lemma_same_path_same_key(left: Seq<char>, right: Seq<char>, style: PathStyle)
    requires
        same_path(left, right, style),
    ensures
        path_key(left, style) == path_key(right, style),
{
}

fn is_windows(style: PathStyle) -> (r: bool)
    ensures
        r == (style is Windows),
{
    match style {
        PathStyle::Unix => false,
        PathStyle::Windows => true,
    }
}

pub fn path_root_text(path: &str, style: PathStyle) -> (root: String)
    ensures
        root@ == root_text(path@, style),
{
    let chars: Vec<char> = chars_of(path);
    let mut root: String = String::new();
    if chars.len() > 0 && char_separates(chars[0], style) {
        root.push('/');
        if is_windows(style) && chars.len() > 1 && char_separates(chars[1], style) {
            root.push('/');
        }
    }
    assert(root@ =~= root_text(path@, style));
    root
}

fn path_lead_text(path: &str, style: PathStyle) -> (lead: String)
    ensures
        lead@ == lead_text(path@, style),
{
    let chars: Vec<char> = chars_of(path);
    if chars.len() > 0 && chars[0] == '.' && (chars.len() == 1 || char_separates(chars[1], style)) {
        let mut lead: String = String::new();
        lead.push('.');
        lead.push('/');
        assert(lead@ =~= seq!['.', '/']);
        return lead;
    }
    path_root_text(path, style)
}

pub fn path_starts_with_drive(path: &str, style: PathStyle) -> (r: bool)
    ensures
        r == starts_with_drive(path@, style),
{
    let chars: Vec<char> = chars_of(path);
    if !is_windows(style) || chars.len() < 2 || chars[1] != ':' {
        return false;
    }
    let letter: char = ascii_lower(chars[0]);
    'a' <= letter && letter <= 'z'
}

pub fn named_path_parts(path: &str, style: PathStyle) -> (parts: Vec<String>)
    ensures
        text::texts(parts@) == named_parts(path@, style),
{
    let mut parts: Vec<String> = native_path_components(path, style);
    let ghost all = native_components(path@, style);
    proof {
        assert(parts.len() == all.len());
    }
    if path_starts_with_drive(path, style) && parts.len() > 0 {
        let chars: Vec<char> = chars_of(parts[0].as_str());
        assert(chars@ == all[0]);
        if chars.len() > 0 {
            let mut first: String = String::new();
            let mut i: usize = 0;
            let ghost folded = all[0].update(0, text::upper(all[0][0]));
            while i < chars.len()
                invariant
                    chars@ == all[0],
                    chars.len() > 0,
                    i <= chars.len(),
                    folded == all[0].update(0, text::upper(all[0][0])),
                    first@ == folded.take(i as int),
                decreases chars.len() - i,
            {
                first.push(if i == 0 { ascii_upper(chars[i]) } else { chars[i] });
                assert(folded.take(i + 1) =~= folded.take(i as int).push(folded[i as int]));
                i = i + 1;
            }
            assert(folded.take(i as int) =~= folded);
            let ghost before = parts@;
            parts.set(0, first);
            assert(text::texts(parts@) =~= text::texts(before).update(0, folded));
        }
    }
    parts
}

/// The key of a path.
pub fn path_key_text(path: &str, style: PathStyle) -> (key: String)
    ensures
        key@ == path_key(path@, style),
{
    let mut key: String = path_lead_text(path, style);
    let names: String = text::join_parts(&named_path_parts(path, style), '/');
    key.push_str(names.as_str());
    key
}

fn same_texts(left: &Vec<String>, right: &Vec<String>, count: usize) -> (r: bool)
    requires
        count <= left@.len(),
        count <= right@.len(),
    ensures
        r == (text::texts(left@).take(count as int) == text::texts(right@).take(count as int)),
{
    let ghost l = text::texts(left@);
    let ghost r = text::texts(right@);
    let mut i: usize = 0;
    while i < count
        invariant
            l == text::texts(left@),
            r == text::texts(right@),
            i <= count <= left@.len(),
            count <= right@.len(),
            forall|j: int| 0 <= j < i ==> #[trigger] l[j] == r[j],
        decreases count - i,
    {
        if !same_text(left[i].as_str(), right[i].as_str()) {
            proof {
                assert(l.take(count as int)[i as int] == left@[i as int]@);
                assert(r.take(count as int)[i as int] == right@[i as int]@);
            }
            return false;
        }
        i = i + 1;
    }
    assert(l.take(count as int) =~= r.take(count as int));
    true
}

pub fn paths_are_equal(left: &str, right: &str, style: PathStyle) -> (r: bool)
    ensures
        r == same_path(left@, right@, style),
{
    let l: Vec<String> = named_path_parts(left, style);
    let r: Vec<String> = named_path_parts(right, style);
    proof {
        assert(named_parts(left@, style).len() == l.len());
        assert(named_parts(right@, style).len() == r.len());
    }
    if !same_text(path_lead_text(left, style).as_str(), path_lead_text(right, style).as_str()) {
        return false;
    }
    if l.len() != r.len() {
        return false;
    }
    proof {
        assert(text::texts(l@).take(l@.len() as int) =~= text::texts(l@));
        assert(text::texts(r@).take(r@.len() as int) =~= text::texts(r@));
    }
    same_texts(&l, &r, l.len())
}

/// Whether a path continues another: they start alike, and the components of the one start with
/// those of the other.
pub open spec fn continues(project_root: Seq<char>, path: Seq<char>, style: PathStyle) -> bool {
    lead_text(project_root, style) == lead_text(path, style) && named_parts(
        project_root,
        style,
    ).is_prefix_of(named_parts(path, style))
}

/// The components of `source_path` below `project_root`, or all of them where it lies elsewhere.
pub open spec fn relative_parts(
    project_root: Seq<char>,
    source_path: Seq<char>,
    style: PathStyle,
) -> Seq<Seq<char>> {
    let source = native_components(source_path, style);
    if continues(project_root, source_path, style) {
        source.skip(named_parts(project_root, style).len() as int)
    } else {
        source
    }
}

pub fn lies_below(project_root: &str, source_path: &str, style: PathStyle) -> (r: bool)
    ensures
        r == continues(project_root@, source_path@, style),
{
    let root: Vec<String> = named_path_parts(project_root, style);
    let source: Vec<String> = named_path_parts(source_path, style);
    proof {
        assert(root.len() == named_parts(project_root@, style).len());
        assert(source.len() == named_parts(source_path@, style).len());
    }
    if !same_text(
        path_lead_text(project_root, style).as_str(),
        path_lead_text(source_path, style).as_str(),
    ) || root.len() > source.len() {
        return false;
    }
    proof {
        let all = named_parts(project_root@, style);
        let rest = named_parts(source_path@, style);
        assert(all.take(all.len() as int) =~= all);
        assert(rest.take(all.len() as int) =~= rest.subrange(0, all.len() as int));
    }
    same_texts(&root, &source, root.len())
}

/// The path below the project root, or the whole path where it lies elsewhere.
pub open spec fn path_below(project_root: Seq<char>, path: Seq<char>, style: PathStyle) -> Seq<
    char,
> {
    if continues(project_root, path, style) {
        text::joined(relative_parts(project_root, path, style), '/')
    } else {
        path
    }
}

pub fn machine_source_path(project_root: &str, path: &str, style: PathStyle) -> (below: String)
    ensures
        below@ == path_below(project_root@, path@, style),
{
    if lies_below(project_root, path, style) {
        text::join_parts(&relative_components(project_root, path, style), '/')
    } else {
        path.to_string()
    }
}

pub fn relative_components(project_root: &str, source_path: &str, style: PathStyle) -> (parts: Vec<
    String,
>)
    ensures
        text::texts(parts@) == relative_parts(project_root@, source_path@, style),
{
    let source: Vec<String> = native_path_components(source_path, style);
    if !lies_below(project_root, source_path, style) {
        return source;
    }
    let root: Vec<String> = named_path_parts(project_root, style);
    let ghost all = native_components(source_path@, style);
    let ghost from = named_parts(project_root@, style).len();
    let mut parts: Vec<String> = Vec::new();
    let mut i: usize = root.len();
    proof {
        assert(root.len() == from);
        assert(source.len() == all.len());
        assert(all.len() == named_parts(source_path@, style).len());
        assert(from <= source.len());
        assert(text::texts(parts@) =~= all.subrange(from as int, from as int));
    }
    while i < source.len()
        invariant
            from <= i <= source.len(),
            text::texts(source@) == all,
            text::texts(parts@) == all.subrange(from as int, i as int),
        decreases source.len() - i,
    {
        let ghost before = parts@;
        parts.push(source[i].clone());
        proof {
            assert(all[i as int] == source@[i as int]@);
            assert(text::texts(parts@) =~= text::texts(before).push(source@[i as int]@));
            assert(all.subrange(from as int, i + 1) =~= all.subrange(from as int, i as int).push(
                source@[i as int]@,
            ));
        }
        i = i + 1;
    }
    assert(all.subrange(from as int, i as int) =~= all.skip(from as int));
    parts
}

proof fn lemma_segments_concat(
    left: Seq<char>,
    separator: char,
    right: Seq<char>,
    style: PathStyle,
)
    requires
        separates(separator, style),
    ensures
        native_segments(left.push(separator) + right, style) == native_segments(left, style)
            + native_segments(right, style),
    decreases right.len(),
{
    let whole = left.push(separator) + right;
    lemma_segments_nonempty(left, style);
    lemma_segments_nonempty(right, style);
    if right.len() == 0 {
        assert(whole =~= left.push(separator));
        assert(left.push(separator).drop_last() =~= left);
        assert(native_segments(left, style) + native_segments(right, style) =~= native_segments(left, style).push(Seq::empty()));
    } else {
        lemma_segments_concat(left, separator, right.drop_last(), style);
        lemma_segments_nonempty(right.drop_last(), style);
        assert(whole.drop_last() =~= left.push(separator) + right.drop_last());
        assert(whole.last() == right.last());
        let before = native_segments(right.drop_last(), style);
        assert(native_segments(whole, style) =~= native_segments(left, style) + native_segments(right, style));
    }
}

/// Below a separator the components of two paths follow each other.
pub proof fn lemma_components_concat(
    left: Seq<char>,
    separator: char,
    right: Seq<char>,
    style: PathStyle,
)
    requires
        separates(separator, style),
    ensures
        native_components(left.push(separator) + right, style) == native_components(left, style)
            + native_components(right, style),
{
    lemma_segments_concat(left, separator, right, style);
    Seq::filter_distributes_over_add(
        native_segments(left, style),
        native_segments(right, style),
        |segment: Seq<char>| names_entry(segment),
    );
}

/// The first piece of a path is what stands before its first separator.
proof fn lemma_first_segment(path: Seq<char>, style: PathStyle)
    ensures
        native_segments(path, style).len() > 0,
        ({
            let first = native_segments(path, style)[0];
            &&& first.len() <= path.len()
            &&& first == path.take(first.len() as int)
            &&& first.len() < path.len() ==> separates(path[first.len() as int], style)
            &&& first.len() == path.len() ==> native_segments(path, style).len() == 1
        }),
    decreases path.len(),
{
    if path.len() > 0 {
        lemma_first_segment(path.drop_last(), style);
        let before = native_segments(path.drop_last(), style);
        let first = native_segments(path, style)[0];
        if before.len() == 1 && !separates(path.last(), style) {
            if before[0].len() < path.len() - 1 {
                lemma_one_segment(path.drop_last(), style);
            }
            assert(first =~= path);
        } else {
            assert(first == before[0]);
            assert(first =~= path.take(first.len() as int));
        }
    }
}

/// A path with a single piece has no separator.
proof fn lemma_one_segment(path: Seq<char>, style: PathStyle)
    requires
        native_segments(path, style).len() == 1,
    ensures
        native_segments(path, style)[0] == path,
    decreases path.len(),
{
    if path.len() > 0 {
        lemma_segments_nonempty(path.drop_last(), style);
        lemma_one_segment(path.drop_last(), style);
        assert(native_segments(path, style)[0] =~= path);
    }
}

/// A path that starts with a name has it as its first component.
pub proof fn lemma_first_component(path: Seq<char>, style: PathStyle)
    requires
        path.len() > 0,
        !separates(path[0], style),
        !starts_in_place(path, style),
    ensures
        native_components(path, style).len() > 0,
        ({
            let first = native_components(path, style)[0];
            &&& 0 < first.len() <= path.len()
            &&& first == path.take(first.len() as int)
            &&& first.len() < path.len() ==> separates(path[first.len() as int], style)
        }),
{
    lemma_first_segment(path, style);
    let all = native_segments(path, style);
    let keep = |segment: Seq<char>| names_entry(segment);
    let first = all[0];
    assert(first.len() > 0);
    assert(names_entry(first)) by {
        if first == seq!['.'] {
            assert(first[0] == '.');
            assert(path[0] == first[0]);
        }
    }
    assert(all =~= seq![first] + all.skip(1));
    Seq::filter_distributes_over_add(seq![first], all.skip(1), keep);
    assert(seq![first].filter(keep) =~= seq![first]) by {
        Seq::<Seq<char>>::empty().lemma_filter_push(first, keep);
        assert(Seq::<Seq<char>>::empty().push(first) =~= seq![first]);
        reveal(Seq::filter);
    }
}

/// Letter case does not tell where the components of a path are.
pub proof fn lemma_lowered_components(path: Seq<char>, style: PathStyle)
    ensures
        native_components(lowered(path), style) == native_components(path, style).map_values(
            |part: Seq<char>| lowered(part),
        ),
{
    let keep = |segment: Seq<char>| names_entry(segment);
    lemma_lowered_segments(path, style);
    lemma_lowered_filter(native_segments(path, style));
}

proof fn lemma_lowered_segments(path: Seq<char>, style: PathStyle)
    ensures
        native_segments(lowered(path), style) == native_segments(path, style).map_values(
            |part: Seq<char>| lowered(part),
        ),
    decreases path.len(),
{
    let low = |part: Seq<char>| lowered(part);
    if path.len() == 0 {
        assert(lowered(path) =~= path);
        assert(lowered(Seq::empty()) =~= Seq::<char>::empty());
        assert(native_segments(path, style).map_values(low) =~= native_segments(path, style));
    } else {
        lemma_lowered_segments(path.drop_last(), style);
        lemma_segments_nonempty(path.drop_last(), style);
        assert(lowered(path).drop_last() =~= lowered(path.drop_last()));
        assert(lowered(path).last() == text::lower(path.last()));
        let before = native_segments(path.drop_last(), style);
        if separates(path.last(), style) {
            assert(lowered(Seq::empty()) =~= Seq::<char>::empty());
        } else {
            assert(lowered(before.last().push(path.last())) =~= lowered(before.last()).push(
                text::lower(path.last()),
            ));
        }
        assert(native_segments(lowered(path), style) =~= native_segments(path, style).map_values(
            low,
        ));
    }
}

proof fn lemma_lowered_filter(all: Seq<Seq<char>>)
    ensures
        all.map_values(|part: Seq<char>| lowered(part)).filter(
            |segment: Seq<char>| names_entry(segment),
        ) == all.filter(|segment: Seq<char>| names_entry(segment)).map_values(
            |part: Seq<char>| lowered(part),
        ),
    decreases all.len(),
{
    let low = |part: Seq<char>| lowered(part);
    let keep = |segment: Seq<char>| names_entry(segment);
    reveal(Seq::filter);
    if all.len() > 0 {
        let rest = all.drop_last();
        lemma_lowered_filter(rest);
        assert(all.map_values(low).drop_last() =~= rest.map_values(low));
        assert(all.map_values(low).last() == lowered(all.last()));
        assert(names_entry(lowered(all.last())) == names_entry(all.last())) by {
            let one = all.last();
            assert(lowered(one).len() == one.len());
            if lowered(one) == seq!['.'] {
                assert(lowered(one)[0] == '.');
                assert(lowered(one)[0] == text::lower(one[0]));
                assert(one =~= seq!['.']);
            }
            if one == seq!['.'] {
                assert(lowered(one) =~= seq!['.']);
            }
        }
        if names_entry(all.last()) {
            assert(rest.filter(keep).push(all.last()).map_values(low) =~= rest.filter(
                keep,
            ).map_values(low).push(lowered(all.last())));
        }
    } else {
        assert(all.map_values(low) =~= all);
        assert(all.filter(keep).map_values(low) =~= all.filter(keep));
    }
}

/// A path that starts with neither a separator nor a drive.
pub open spec fn is_relative(path: Seq<char>, style: PathStyle) -> bool {
    root_text(path, style).len() == 0 && !starts_with_drive(path, style)
}

/// A path that starts with a slash; on Windows, with a drive and a separator or with two
/// separators and two names.
pub open spec fn is_absolute(path: Seq<char>, style: PathStyle) -> bool {
    match style {
        PathStyle::Unix => root_text(path, style).len() > 0,
        PathStyle::Windows => (starts_with_drive(path, style) && path.len() > 2 && separates(
            path[2],
            style,
        )) || (root_text(path, style).len() == 2 && native_components(path, style).len() > 1),
    }
}

proof fn lemma_no_components(path: Seq<char>, style: PathStyle)
    requires
        path.len() == 0,
    ensures
        native_components(path, style) == Seq::<Seq<char>>::empty(),
{
    let none = Seq::<Seq<char>>::empty();
    let keep = |segment: Seq<char>| names_entry(segment);
    none.lemma_filter_push(Seq::<char>::empty(), keep);
    assert(native_segments(path, style) =~= none.push(Seq::<char>::empty()));
    reveal(Seq::filter);
    assert(none.filter(keep) =~= none);
}

/// A relative path does not continue an absolute one.
proof fn lemma_relative_does_not_continue(root: Seq<char>, path: Seq<char>, style: PathStyle)
    requires
        is_absolute(root, style),
        is_relative(path, style),
    ensures
        !continues(root, path, style),
{
    if continues(root, path, style) {
        assert(root_text(root, style).len() == 0);
        assert(starts_with_drive(root, style));
        assert(!starts_in_place(root, style));
        lemma_first_component(root, style);
        let drive = native_components(root, style)[0];
        assert(drive.len() == 2) by {
            if drive.len() == 1 {
                assert(separates(root[1], style));
            }
            if drive.len() > 2 {
                assert(drive[2] == root[2]);
                lemma_component_has_no_separator(root, style, 0, 2);
            }
        }
        let named = named_parts(root, style);
        let other = named_parts(path, style);
        assert(named[0] == other.subrange(0, named.len() as int)[0]);
        assert(other.len() > 0);
        if path.len() == 0 {
            lemma_no_components(path, style);
        }
        assert(!starts_in_place(path, style));
        lemma_first_component(path, style);
        assert(other == native_components(path, style));
        assert(other[0] == named[0]);
        assert(named[0][0] == text::upper(root[0]));
        assert(named[0][1] == root[1]);
        assert(path[0] == other[0][0]);
        assert(path[1] == other[0][1]);
    }
}

proof fn lemma_segment_has_no_separator(path: Seq<char>, style: PathStyle, at: int, i: int)
    requires
        0 <= at < native_segments(path, style).len(),
        0 <= i < native_segments(path, style)[at].len(),
    ensures
        !separates(native_segments(path, style)[at][i], style),
    decreases path.len(),
{
    if path.len() > 0 {
        lemma_segments_nonempty(path.drop_last(), style);
        let before = native_segments(path.drop_last(), style);
        if at < before.len() && i < before[at].len() {
            lemma_segment_has_no_separator(path.drop_last(), style, at, i);
        }
    }
}

/// No component holds a separator.
pub proof fn lemma_component_has_no_separator(path: Seq<char>, style: PathStyle, at: int, i: int)
    requires
        0 <= at < native_components(path, style).len(),
        0 <= i < native_components(path, style)[at].len(),
    ensures
        !separates(native_components(path, style)[at][i], style),
{
    let all = native_segments(path, style);
    let keep = |segment: Seq<char>| names_entry(segment);
    let part = native_components(path, style)[at];
    all.lemma_filter_contains_rev(keep, part);
    assert(all.contains(part));
    let k = choose|k: int| 0 <= k < all.len() && all[k] == part;
    lemma_segment_has_no_separator(path, style, k, i);
}

/// Below an absolute root, a path has the same components by its absolute and by its relative
/// spelling.
pub proof fn lemma_relative_parts_agree(root: Seq<char>, path: Seq<char>, style: PathStyle)
    requires
        is_absolute(root, style),
        is_relative(path, style),
    ensures
        relative_parts(root, joined_path(root, path, style), style) == native_components(path, style),
        relative_parts(root, path, style) == native_components(path, style),
{
    lemma_relative_does_not_continue(root, path, style);
    let whole = joined_path(root, path, style);
    let parent = native_components(root, style);
    let child = native_components(path, style);
    let below = if is_verbatim(root, style) {
        text::joined(child, '\\')
    } else {
        path
    };
    assert(native_components(below, style) == child) by {
        if is_verbatim(root, style) {
            lemma_components_joined(path, '\\', style);
        }
    }
    assert(native_components(whole, style) == parent + child) by {
        if is_verbatim(root, style) && root.last() != '\\' {
            lemma_components_concat(root, '\\', below, style);
        } else if separates(root.last(), style) {
            let front = root.drop_last();
            let none = Seq::<char>::empty();
            assert(root =~= front.push(root.last()) + none);
            assert(whole =~= front.push(root.last()) + below);
            lemma_components_concat(front, root.last(), none, style);
            lemma_components_concat(front, root.last(), below, style);
            lemma_no_components(none, style);
            assert(native_components(front, style) + Seq::<Seq<char>>::empty()
                =~= native_components(front, style));
        } else {
            lemma_components_concat(root, '/', path, style);
        }
    }
    assert(forall|i: int| 0 <= i < root.len() ==> whole[i] == root[i]);
    assert(starts_with_drive(whole, style) == starts_with_drive(root, style));
    assert(lead_text(whole, style) =~= lead_text(root, style));
    if starts_with_drive(root, style) {
        assert(!starts_in_place(root, style));
        lemma_first_component(root, style);
    }
    let named = named_parts(root, style);
    assert(named_parts(whole, style) =~= named + child);
    assert((named + child).subrange(0, named.len() as int) =~= named);
    assert((parent + child).skip(named.len() as int) =~= child);
}

proof fn lemma_one_piece(part: Seq<char>, style: PathStyle)
    requires
        forall|i: int| 0 <= i < part.len() ==> !separates(#[trigger] part[i], style),
    ensures
        native_segments(part, style) == seq![part],
    decreases part.len(),
{
    if part.len() > 0 {
        let front = part.drop_last();
        assert forall|i: int| 0 <= i < front.len() implies !separates(#[trigger] front[i], style) by {
            assert(front[i] == part[i]);
        }
        lemma_one_piece(front, style);
        assert(front.push(part.last()) =~= part);
        assert(native_segments(part, style) =~= seq![part]);
    } else {
        assert(part =~= Seq::empty());
    }
}

/// Names that hold no separator can be told apart once they are joined by separators.
pub proof fn lemma_joined_splits(parts: Seq<Seq<char>>, separator: char, style: PathStyle)
    requires
        parts.len() > 0,
        separates(separator, style),
        forall|i: int, j: int|
            0 <= i < parts.len() && 0 <= j < parts[i].len() ==> !separates(
                #[trigger] parts[i][j],
                style,
            ),
    ensures
        native_segments(text::joined(parts, separator), style) == parts,
    decreases parts.len(),
{
    let last = parts.last();
    assert(last == parts[parts.len() - 1]);
    lemma_one_piece(last, style);
    if parts.len() == 1 {
        assert(parts =~= seq![last]);
    } else {
        let front = parts.drop_last();
        assert forall|i: int, j: int| 0 <= i < front.len() && 0 <= j < front[i].len() implies
            !separates(#[trigger] front[i][j], style) by {
            assert(front[i][j] == parts[i][j]);
        }
        lemma_joined_splits(front, separator, style);
        lemma_segments_concat(text::joined(front, separator), separator, last, style);
        assert(front + seq![last] =~= parts);
    }
}

/// The components of a path stay what they are when they are joined anew.
proof fn lemma_components_joined(path: Seq<char>, separator: char, style: PathStyle)
    requires
        separates(separator, style),
    ensures
        native_components(text::joined(native_components(path, style), separator), style)
            == native_components(path, style),
{
    let parts = native_components(path, style);
    let all = native_segments(path, style);
    let keep = |segment: Seq<char>| names_entry(segment);
    if parts.len() == 0 {
        lemma_no_components(text::joined(parts, separator), style);
        assert(parts =~= Seq::empty());
    } else {
        assert forall|i: int, j: int| 0 <= i < parts.len() && 0 <= j < parts[i].len() implies
            !separates(#[trigger] parts[i][j], style) by {
            lemma_component_has_no_separator(path, style, i, j);
        }
        lemma_joined_splits(parts, separator, style);
        assert forall|i: int| 0 <= i < parts.len() implies keep(#[trigger] parts[i]) by {
            all.lemma_filter_pred(keep, i);
        }
        lemma_filter_keeps_all(parts);
    }
}

proof fn lemma_filter_keeps_all(parts: Seq<Seq<char>>)
    requires
        forall|i: int| 0 <= i < parts.len() ==> names_entry(#[trigger] parts[i]),
    ensures
        parts.filter(|segment: Seq<char>| names_entry(segment)) == parts,
    decreases parts.len(),
{
    reveal(Seq::filter);
    let keep = |segment: Seq<char>| names_entry(segment);
    if parts.len() > 0 {
        let front = parts.drop_last();
        assert forall|i: int| 0 <= i < front.len() implies names_entry(#[trigger] front[i]) by {
            assert(front[i] == parts[i]);
        }
        lemma_filter_keeps_all(front);
        assert(names_entry(parts[parts.len() - 1]));
        assert(front.push(parts.last()) =~= parts);
    } else {
        assert(parts.filter(keep) =~= parts);
    }
}

proof fn lemma_named_part(path: Seq<char>, style: PathStyle, at: int)
    requires
        0 <= at < named_parts(path, style).len(),
    ensures
        names_entry(named_parts(path, style)[at]),
        forall|i: int|
            0 <= i < named_parts(path, style)[at].len() ==> #[trigger] named_parts(
                path,
                style,
            )[at][i] != '/',
{
    let parts = native_components(path, style);
    let own = parts[at];
    let all = native_segments(path, style);
    let keep = |segment: Seq<char>| names_entry(segment);
    all.lemma_filter_pred(keep, at);
    let named = named_parts(path, style)[at];
    assert(named.len() == own.len());
    assert forall|i: int| 0 <= i < named.len() implies #[trigger] named[i] != '/' by {
        lemma_component_has_no_separator(path, style, at, i);
    }
    if named == seq!['.'] {
        assert(named[0] == '.');
        if own[0] != '.' {
            assert(text::upper(own[0]) == '.');
        }
        assert(own =~= seq!['.']);
    }
}

/// The pieces of a key: those of what the path starts with, and its components.
#[verifier::spinoff_prover]
#[verifier::rlimit(40)]
proof fn lemma_key_pieces(path: Seq<char>, style: PathStyle)
    ensures
        ({
            let parts = named_parts(path, style);
            let none = Seq::<char>::empty();
            let tail = if parts.len() == 0 {
                seq![none]
            } else {
                parts
            };
            let lead = lead_text(path, style);
            native_segments(path_key(path, style), PathStyle::Unix) == if lead.len() == 0 {
                tail
            } else if lead[0] == '.' {
                seq![seq!['.']] + tail
            } else if lead.len() == 1 {
                seq![none] + tail
            } else {
                seq![none, none] + tail
            }
        }),
{
    let parts = named_parts(path, style);
    let none = Seq::<char>::empty();
    let unix = PathStyle::Unix;
    let names = text::joined(parts, '/');
    let lead = lead_text(path, style);
    let key = path_key(path, style);
    assert forall|i: int, j: int| 0 <= i < parts.len() && 0 <= j < parts[i].len() implies
        #[trigger] parts[i][j] != '/' by {
        lemma_named_part(path, style, i);
    }
    if parts.len() > 0 {
        assert forall|i: int, j: int| 0 <= i < parts.len() && 0 <= j < parts[i].len() implies
            !separates(#[trigger] parts[i][j], unix) by {
        }
        lemma_joined_splits(parts, '/', unix);
    }
    let tail = if parts.len() == 0 {
        seq![none]
    } else {
        parts
    };
    assert(native_segments(names, unix) == tail) by {
        if parts.len() == 0 {
            assert(names =~= none);
            assert(native_segments(names, unix) =~= seq![none]);
        }
    }
    assert(native_segments(none, unix) =~= seq![none]);
    if lead.len() == 0 {
        assert(key =~= names);
    } else if lead[0] == '.' {
        lemma_one_piece(seq!['.'], unix);
        assert(key =~= seq!['.'].push('/') + names);
        lemma_segments_concat(seq!['.'], '/', names, unix);
    } else if lead.len() == 1 {
        assert(key =~= none.push('/') + names);
        lemma_segments_concat(none, '/', names, unix);
    } else {
        let one = none.push('/') + names;
        assert(key =~= none.push('/') + one);
        lemma_segments_concat(none, '/', names, unix);
        lemma_segments_concat(none, '/', one, unix);
        assert(seq![none] + (seq![none] + tail) =~= seq![none, none] + tail);
    }
}

/// Only spellings of one path share a key.
#[verifier::spinoff_prover]
#[verifier::rlimit(40)]
pub proof fn lemma_same_key_same_path(left: Seq<char>, right: Seq<char>, style: PathStyle)
    requires
        path_key(left, style) == path_key(right, style),
    ensures
        same_path(left, right, style),
{
    lemma_key_pieces(left, style);
    lemma_key_pieces(right, style);
    let l = named_parts(left, style);
    let r = named_parts(right, style);
    if l.len() > 0 {
        lemma_named_part(left, style, 0);
    }
    if r.len() > 0 {
        lemma_named_part(right, style, 0);
    }
    let none = Seq::<char>::empty();
    let lt = if l.len() == 0 {
        seq![none]
    } else {
        l
    };
    let rt = if r.len() == 0 {
        seq![none]
    } else {
        r
    };
    let ll = lead_text(left, style);
    let rl = lead_text(right, style);
    let pieces = native_segments(path_key(left, style), PathStyle::Unix);
    let dot = seq!['.'];
    assert(dot[0] == '.');
    let lp = if ll.len() == 0 {
        Seq::<Seq<char>>::empty()
    } else if ll[0] == '.' {
        seq![dot]
    } else if ll.len() == 1 {
        seq![none]
    } else {
        seq![none, none]
    };
    let rp = if rl.len() == 0 {
        Seq::<Seq<char>>::empty()
    } else if rl[0] == '.' {
        seq![dot]
    } else if rl.len() == 1 {
        seq![none]
    } else {
        seq![none, none]
    };
    assert(pieces =~= lp + lt);
    assert(pieces =~= rp + rt);
    assert((lp + lt)[0] == pieces[0] && (rp + rt)[0] == pieces[0]);
    if pieces.len() > 1 {
        assert((lp + lt)[1] == pieces[1] && (rp + rt)[1] == pieces[1]);
    }
    if pieces.len() > 2 {
        assert((lp + lt)[2] == pieces[2] && (rp + rt)[2] == pieces[2]);
    }
    assert(lp =~= rp);
    assert(ll =~= rl);
    assert(lt =~= (lp + lt).skip(lp.len() as int));
    assert(rt =~= (rp + rt).skip(rp.len() as int));
    assert(lt == rt);
    if l.len() == 0 {
        assert(rt[0] == none);
    }
    if r.len() == 0 {
        assert(lt[0] == none);
    }
    assert(l =~= r);
}

/// Whether a path starts with the prefix that makes Windows take it as it is. Below that prefix
/// only the backslash separates.
pub open spec fn is_verbatim(path: Seq<char>, style: PathStyle) -> bool {
    style is Windows && path.len() >= 4 && path[0] == '\\' && path[1] == '\\' && path[2] == '?'
        && path[3] == '\\'
}

/// `child` below `parent`. An absolute child stands alone, and a parent that ends in a separator
/// gets no second one. On Windows a child with a drive stands alone, one that starts with a single
/// separator stays on the drive of its parent, and a bare drive is followed by the child itself;
/// below a verbatim parent the components of the child are separated by backslashes. A `..` of the
/// child stays in the path.
pub open spec fn joined_path(parent: Seq<char>, child: Seq<char>, style: PathStyle) -> Seq<char> {
    let drive = starts_with_drive(parent, style);
    if starts_with_drive(child, style) || parent.len() == 0 {
        child
    } else if root_text(child, style).len() > 0 {
        if drive && root_text(child, style).len() == 1 {
            parent.take(2) + child
        } else {
            child
        }
    } else if is_verbatim(parent, style) {
        (if parent.last() == '\\' {
            parent
        } else {
            parent.push('\\')
        }) + text::joined(native_components(child, style), '\\')
    } else if separates(parent.last(), style) || (drive && parent.len() == 2) {
        parent + child
    } else {
        parent.push('/') + child
    }
}

pub fn join_path(parent: &str, child: &str, style: PathStyle) -> (path: String)
    ensures
        path@ == joined_path(parent@, child@, style),
{
    let chars: Vec<char> = chars_of(parent);
    let drive: bool = path_starts_with_drive(parent, style);
    let root: String = path_root_text(child, style);
    let roots: usize = chars_of(root.as_str()).len();
    let mut path: String = String::new();
    if path_starts_with_drive(child, style) || chars.len() == 0 {
        assert(Seq::<char>::empty() + child@ =~= child@);
    } else if roots > 0 {
        if drive && roots == 1 {
            path.push(chars[0]);
            path.push(chars[1]);
            assert(path@ =~= parent@.take(2));
        } else {
            assert(Seq::<char>::empty() + child@ =~= child@);
        }
    } else {
        path.push_str(parent);
        assert(path@ =~= parent@);
        let last: char = chars[chars.len() - 1];
        if is_windows(style) && chars.len() >= 4 && chars[0] == '\\' && chars[1] == '\\'
            && chars[2] == '?' && chars[3] == '\\' {
            if last != '\\' {
                path.push('\\');
            }
            let below: String = text::join_parts(&native_path_components(child, style), '\\');
            path.push_str(below.as_str());
            return path;
        }
        if !char_separates(last, style) && !(drive && chars.len() == 2) {
            path.push('/');
        }
    }
    path.push_str(child);
    path
}

// ---------------------------------------------------------------------------------------------
// Segments and components

/// The last segment of a path is what stands behind its last separator.
pub proof fn lemma_last_segment(path: Seq<char>, style: PathStyle)
    ensures
        native_segments(path, style).len() > 0,
        native_segments(path, style).last().len() <= path.len(),
        path.skip(path.len() - native_segments(path, style).last().len()) == native_segments(
            path,
            style,
        ).last(),
    decreases path.len(),
{
    let all = native_segments(path, style);
    if path.len() > 0 {
        let front = path.drop_last();
        lemma_last_segment(front, style);
        let before = native_segments(front, style);
        if separates(path.last(), style) {
            assert(path.skip(path.len() as int) =~= Seq::<char>::empty());
        } else {
            let n = before.last().len();
            assert(path.skip(path.len() - n - 1) =~= front.skip(front.len() - n).push(path.last()));
        }
    } else {
        assert(path.skip(0) =~= Seq::<char>::empty());
    }
}

/// A path with every separator written as a slash.
pub open spec fn with_slashes(path: Seq<char>, style: PathStyle) -> Seq<char> {
    path.map_values(
        |c: char|
            if separates(c, style) {
                '/'
            } else {
                c
            },
    )
}

/// The segments of a path hold no separator, and joined they are the path.
pub proof fn lemma_segments_rejoin(path: Seq<char>, style: PathStyle)
    ensures
        text::joined(native_segments(path, style), '/') == with_slashes(path, style),
        forall|at: int, i: int|
            0 <= at < native_segments(path, style).len() && 0 <= i < native_segments(
                path,
                style,
            )[at].len() ==> !separates(#[trigger] native_segments(path, style)[at][i], style),
    decreases path.len(),
{
    let all = native_segments(path, style);
    assert forall|at: int, i: int| 0 <= at < all.len() && 0 <= i < all[at].len() implies !separates(
        #[trigger] all[at][i],
        style,
    ) by {
        lemma_segment_has_no_separator(path, style, at, i);
    }
    if path.len() == 0 {
        assert(all =~= seq![Seq::<char>::empty()]);
        assert(with_slashes(path, style) =~= Seq::empty());
    } else {
        let front = path.drop_last();
        let before = native_segments(front, style);
        lemma_segments_rejoin(front, style);
        lemma_segments_nonempty(front, style);
        let c = path.last();
        if separates(c, style) {
            text::lemma_joined_push(before, Seq::empty(), '/');
            assert(with_slashes(path, style) =~= with_slashes(front, style).push('/'));
            assert(text::joined(all, '/') =~= with_slashes(path, style));
        } else {
            let head = before.drop_last();
            assert(before =~= head.push(before.last()));
            text::lemma_joined_push(head, before.last(), '/');
            text::lemma_joined_push(head, before.last().push(c), '/');
            assert(with_slashes(path, style) =~= with_slashes(front, style).push(c));
            assert(text::joined(all, '/') =~= with_slashes(path, style));
        }
    }
}

/// The components of a path are its segments without empty ones and single dots, in their order.
pub proof fn lemma_components_are_segments(path: Seq<char>, style: PathStyle)
    ensures
        native_components(path, style) == native_segments(path, style).filter(
            |segment: Seq<char>| segment.len() > 0 && segment != seq!['.'],
        ),
{
    let all = native_segments(path, style);
    lemma_filters_agree(
        all,
        |segment: Seq<char>| names_entry(segment),
        |segment: Seq<char>| segment.len() > 0 && segment != seq!['.'],
    );
}

proof fn lemma_filters_agree(
    parts: Seq<Seq<char>>,
    left: spec_fn(Seq<char>) -> bool,
    right: spec_fn(Seq<char>) -> bool,
)
    requires
        forall|part: Seq<char>| #[trigger] left(part) == right(part),
    ensures
        parts.filter(left) == parts.filter(right),
    decreases parts.len(),
{
    reveal(Seq::filter);
    if parts.len() > 0 {
        lemma_filters_agree(parts.drop_last(), left, right);
        assert(left(parts.last()) == right(parts.last()));
    }
}

/// On Unix two paths match exactly where they have the same components, on Windows where these differ
/// in the case of letters alone.
pub proof fn lemma_paths_match(left: Seq<char>, right: Seq<char>)
    ensures
        paths_match(left, right, PathStyle::Unix) <==> components(left) == components(right),
        paths_match(left, right, PathStyle::Windows) <==> components(left).map_values(
            |part: Seq<char>| lowered(part),
        ) == components(right).map_values(|part: Seq<char>| lowered(part)),
{
    let a = components(left);
    let b = components(right);
    if paths_match(left, right, PathStyle::Unix) {
        assert forall|i: int| 0 <= i < a.len() implies a[i] == b[i] by {
            assert(component_matches(a[i], b[i], PathStyle::Unix));
        }
        assert(a =~= b);
    }
    let low = |part: Seq<char>| lowered(part);
    let c = a.map_values(low);
    let d = b.map_values(low);
    if paths_match(left, right, PathStyle::Windows) {
        assert forall|i: int| 0 <= i < c.len() implies c[i] == d[i] by {
            assert(component_matches(a[i], b[i], PathStyle::Windows));
        }
        assert(c =~= d);
    }
    if c == d {
        assert(c.len() == a.len() && d.len() == b.len());
        assert forall|i: int| 0 <= i < a.len() implies component_matches(
            #[trigger] a[i],
            b[i],
            PathStyle::Windows,
        ) by {
            assert(c[i] == d[i]);
        }
    }
}

/// Below an absolute root, the path below the root names the components of a relative path, by
/// either spelling; a path that lies elsewhere stays as it is.
pub proof fn lemma_path_below(root: Seq<char>, path: Seq<char>, style: PathStyle)
    requires
        is_absolute(root, style),
        is_relative(path, style),
    ensures
        path_below(root, joined_path(root, path, style), style) == if continues(
            root,
            joined_path(root, path, style),
            style,
        ) {
            text::joined(native_components(path, style), '/')
        } else {
            joined_path(root, path, style)
        },
        path_below(root, path, style) == path,
{
    lemma_relative_parts_agree(root, path, style);
    lemma_relative_does_not_continue(root, path, style);
}

/// A relative path below an absolute one has the components of both, in order.
pub proof fn lemma_joined_path_components(root: Seq<char>, path: Seq<char>, style: PathStyle)
    requires
        is_absolute(root, style),
        is_relative(path, style),
    ensures
        native_components(joined_path(root, path, style), style) == native_components(root, style)
            + native_components(path, style),
        is_absolute(joined_path(root, path, style), style),
{
    let whole = joined_path(root, path, style);
    let parent = native_components(root, style);
    let child = native_components(path, style);
    let below = if is_verbatim(root, style) {
        text::joined(child, '\\')
    } else {
        path
    };
    assert(native_components(below, style) == child) by {
        if is_verbatim(root, style) {
            lemma_components_joined(path, '\\', style);
        }
    }
    assert(native_components(whole, style) == parent + child) by {
        if is_verbatim(root, style) && root.last() != '\\' {
            lemma_components_concat(root, '\\', below, style);
        } else if separates(root.last(), style) {
            let front = root.drop_last();
            let none = Seq::<char>::empty();
            assert(root =~= front.push(root.last()) + none);
            assert(whole =~= front.push(root.last()) + below);
            lemma_components_concat(front, root.last(), none, style);
            lemma_components_concat(front, root.last(), below, style);
            lemma_no_components(none, style);
            assert(native_components(front, style) + Seq::<Seq<char>>::empty()
                =~= native_components(front, style));
        } else {
            lemma_components_concat(root, '/', path, style);
        }
    }
    assert(forall|i: int| 0 <= i < root.len() ==> whole[i] == root[i]);
}

} // verus!
