//! Searches in bytes, and edits of a text by byte positions.
//!
//! Edits are kept as a list in order and made all at once, so that what an edit does to the text is
//! a statement about the list; nothing more of a string editor is needed here.

use vstd::prelude::*;
use vstd::utf8::*;
use crate::text::utf8_text;

verus! {

// ---------------------------------------------------------------------------------------------
// Searching

pub open spec fn occurs_at(bytes: Seq<u8>, pattern: Seq<u8>, at: int) -> bool {
    0 <= at && at + pattern.len() <= bytes.len() && bytes.subrange(at, at + pattern.len())
        == pattern
}

/// The first position from `from` on at which `pattern` occurs.
pub open spec fn first_from(bytes: Seq<u8>, pattern: Seq<u8>, from: nat) -> Option<nat>
    decreases bytes.len() - from,
{
    if from + pattern.len() > bytes.len() {
        None
    } else if occurs_at(bytes, pattern, from as int) {
        Some(from)
    } else if from < bytes.len() {
        first_from(bytes, pattern, from + 1)
    } else {
        None
    }
}

fn occurs(bytes: &[u8], pattern: &[u8], at: usize) -> (r: bool)
    requires
        at + pattern@.len() <= bytes@.len(),
    ensures
        r == occurs_at(bytes@, pattern@, at as int),
{
    let mut i: usize = 0;
    let total: usize = bytes.len();
    while i < pattern.len()
        invariant
            i <= pattern@.len(),
            total == bytes@.len(),
            at + pattern@.len() <= total,
            forall|j: int| 0 <= j < i ==> #[trigger] pattern@[j] == bytes@[at + j],
        decreases pattern@.len() - i,
    {
        if bytes[at + i] != pattern[i] {
            assert(bytes@.subrange(at as int, at + pattern@.len())[i as int] != pattern@[i as int]);
            return false;
        }
        i = i + 1;
    }
    assert(bytes@.subrange(at as int, at + pattern@.len()) =~= pattern@);
    true
}

pub fn find_from(bytes: &[u8], pattern: &[u8], from: usize) -> (r: Option<usize>)
    ensures
        r matches Some(at) ==> first_from(bytes@, pattern@, from as nat) == Some(at as nat),
        r is None ==> first_from(bytes@, pattern@, from as nat) is None,
{
    if pattern.len() > bytes.len() {
        return None;
    }
    let last: usize = bytes.len() - pattern.len();
    let mut at: usize = from;
    while at <= last
        invariant
            last + pattern@.len() == bytes@.len(),
            first_from(bytes@, pattern@, from as nat) == first_from(bytes@, pattern@, at as nat),
        decreases last + 1 - at,
    {
        if occurs(bytes, pattern, at) {
            return Some(at);
        }
        if at == last {
            assert(first_from(bytes@, pattern@, (at + 1) as nat) is None);
            return None;
        }
        at = at + 1;
    }
    None
}

pub fn contains_bytes(bytes: &[u8], pattern: &[u8]) -> (r: bool)
    ensures
        r == (first_from(bytes@, pattern@, 0) is Some),
{
    find_from(bytes, pattern, 0).is_some()
}

/// A found position is one at which the pattern occurs, and it occurs at none before.
pub proof fn lemma_first_from(bytes: Seq<u8>, pattern: Seq<u8>, from: nat)
    ensures
        match first_from(bytes, pattern, from) {
            Some(at) => {
                &&& from <= at
                &&& occurs_at(bytes, pattern, at as int)
                &&& forall|i: int| from <= i < at ==> !#[trigger] occurs_at(bytes, pattern, i)
            },
            None => forall|i: int| from <= i ==> !#[trigger] occurs_at(bytes, pattern, i),
        },
    decreases bytes.len() - from,
{
    if from + pattern.len() <= bytes.len() && !occurs_at(bytes, pattern, from as int) && from
        < bytes.len() {
        lemma_first_from(bytes, pattern, from + 1);
    }
}

/// The positions of `pattern` from `from` on, each search starting behind the last find.
pub open spec fn occurrences(bytes: Seq<u8>, pattern: Seq<u8>, from: nat) -> Seq<nat>
    decreases bytes.len() - from,
{
    match first_from(bytes, pattern, from) {
        Some(at) => if from <= at < at + pattern.len() <= bytes.len() {
            seq![at] + occurrences(bytes, pattern, at + pattern.len())
        } else {
            Seq::empty()
        },
        None => Seq::empty(),
    }
}

/// Each of these positions is one at which the pattern occurs.
pub proof fn lemma_occurrences(bytes: Seq<u8>, pattern: Seq<u8>, from: nat)
    ensures
        forall|i: int|
            0 <= i < occurrences(bytes, pattern, from).len() ==> occurs_at(
                bytes,
                pattern,
                #[trigger] occurrences(bytes, pattern, from)[i] as int,
            ),
    decreases bytes.len() - from,
{
    lemma_first_from(bytes, pattern, from);
    match first_from(bytes, pattern, from) {
        Some(at) => {
            if from <= at < at + pattern.len() <= bytes.len() {
                let rest = occurrences(bytes, pattern, at + pattern.len());
                lemma_occurrences(bytes, pattern, at + pattern.len());
                let all = occurrences(bytes, pattern, from);
                assert forall|i: int| 0 <= i < all.len() implies occurs_at(
                    bytes,
                    pattern,
                    #[trigger] all[i] as int,
                ) by {
                    if i > 0 {
                        assert(all[i] == rest[i - 1]);
                    }
                }
            }
        },
        None => {},
    }
}

/// Whether these are all the positions of a pattern, in order and side by side: it occurs at each of
/// them, and wherever it occurs, one of them overlaps.
pub open spec fn are_all_occurrences(bytes: Seq<u8>, pattern: Seq<u8>, found: Seq<nat>) -> bool {
    &&& forall|i: int|
        0 <= i < found.len() ==> occurs_at(bytes, pattern, #[trigger] found[i] as int)
    &&& forall|i: int, j: int|
        0 <= i < j < found.len() ==> #[trigger] found[i] + pattern.len() <= #[trigger] found[j]
    &&& forall|at: int| #[trigger]
        occurs_at(bytes, pattern, at) ==> is_overlapped(pattern.len(), found, at)
}

pub open spec fn is_overlapped(len: nat, found: Seq<nat>, at: int) -> bool {
    exists|k: int| 0 <= k < found.len() && #[trigger] found[k] <= at < found[k] + len
}

proof fn lemma_occurrences_from(bytes: Seq<u8>, pattern: Seq<u8>, from: nat)
    requires
        pattern.len() > 0,
    ensures
        ({
            let found = occurrences(bytes, pattern, from);
            &&& forall|i: int| 0 <= i < found.len() ==> from <= #[trigger] found[i]
            &&& forall|i: int, j: int|
                0 <= i < j < found.len() ==> #[trigger] found[i] + pattern.len()
                    <= #[trigger] found[j]
            &&& forall|at: int|
                from <= at && #[trigger] occurs_at(bytes, pattern, at) ==> is_overlapped(
                    pattern.len(),
                    found,
                    at,
                )
        }),
    decreases bytes.len() - from,
{
    lemma_first_from(bytes, pattern, from);
    let found = occurrences(bytes, pattern, from);
    if let Some(first) = first_from(bytes, pattern, from) {
        assert(occurs_at(bytes, pattern, first as int));
        let next = first + pattern.len();
        let rest = occurrences(bytes, pattern, next);
        lemma_occurrences_from(bytes, pattern, next);
        assert(found == seq![first] + rest);
        assert forall|i: int| 0 <= i < found.len() implies from <= #[trigger] found[i] by {
            if i > 0 {
                assert(found[i] == rest[i - 1]);
            }
        }
        assert forall|i: int, j: int| 0 <= i < j < found.len() implies #[trigger] found[i]
            + pattern.len() <= #[trigger] found[j] by {
            assert(found[j] == rest[j - 1]);
            if i > 0 {
                assert(found[i] == rest[i - 1]);
            }
        }
        assert forall|at: int| from <= at && #[trigger] occurs_at(
            bytes,
            pattern,
            at,
        ) implies is_overlapped(pattern.len(), found, at) by {
            if at < next {
                assert(found[0] == first);
            } else {
                assert(is_overlapped(pattern.len(), rest, at));
                let k = choose|k: int|
                    0 <= k < rest.len() && #[trigger] rest[k] <= at < rest[k] + pattern.len();
                assert(found[k + 1] == rest[k]);
            }
        }
    }
}

/// The occurrences that are found are all there are.
pub proof fn lemma_all_occurrences(bytes: Seq<u8>, pattern: Seq<u8>)
    requires
        pattern.len() > 0,
    ensures
        are_all_occurrences(bytes, pattern, occurrences(bytes, pattern, 0)),
{
    lemma_occurrences(bytes, pattern, 0);
    lemma_occurrences_from(bytes, pattern, 0);
}

pub open spec fn positions(values: Seq<usize>) -> Seq<nat> {
    values.map_values(|value: usize| value as nat)
}

pub fn find_all(bytes: &[u8], pattern: &[u8]) -> (found: Vec<usize>)
    requires
        pattern@.len() > 0,
    ensures
        positions(found@) == occurrences(bytes@, pattern@, 0),
        are_all_occurrences(bytes@, pattern@, positions(found@)),
{
    proof {
        lemma_all_occurrences(bytes@, pattern@);
    }
    let mut found: Vec<usize> = Vec::new();
    let mut from: usize = 0;
    let total: usize = bytes.len();
    assert(positions(found@) + occurrences(bytes@, pattern@, 0) =~= occurrences(
        bytes@,
        pattern@,
        0,
    ));
    loop
        invariant
            pattern@.len() > 0,
            from <= total == bytes@.len(),
            positions(found@) + occurrences(bytes@, pattern@, from as nat) == occurrences(
                bytes@,
                pattern@,
                0,
            ),
        decreases total - from,
    {
        match find_from(bytes, pattern, from) {
            Some(at) => {
                let ghost before = found@;
                proof {
                    lemma_first_from(bytes@, pattern@, from as nat);
                    assert(occurs_at(bytes@, pattern@, at as int));
                }
                found.push(at);
                proof {
                    assert(positions(found@) =~= positions(before).push(at as nat));
                    let rest = occurrences(bytes@, pattern@, (at + pattern@.len()) as nat);
                    assert(positions(found@) + rest =~= positions(before) + (seq![at as nat]
                        + rest));
                }
                from = at + pattern.len();
            },
            None => {
                proof {
                    assert(positions(found@) =~= positions(found@) + Seq::<nat>::empty());
                    lemma_all_occurrences(bytes@, pattern@);
                }
                return found;
            },
        }
    }
}

// ---------------------------------------------------------------------------------------------
// Editing

/// The replacement of the bytes from `start` up to `end` by a text.
#[derive(Debug, Clone, PartialEq, Eq)]
pub struct TextEdit {
    pub start: usize,
    pub end: usize,
    pub text: String,
}

/// Whether the edits lie within `len` bytes, in order and side by side.
pub open spec fn edits_fit(edits: Seq<TextEdit>, len: nat) -> bool {
    &&& forall|i: int| 0 <= i < edits.len() ==> (#[trigger] edits[i]).start <= edits[i].end <= len
    &&& forall|i: int, j: int|
        0 <= i < j < edits.len() ==> (#[trigger] edits[i]).end <= (#[trigger] edits[j]).start
}

/// The bytes with every edit made. What lies between two edits stays.
pub open spec fn edited(bytes: Seq<u8>, edits: Seq<TextEdit>) -> Seq<u8>
    decreases edits.len(),
{
    if edits.len() == 0 {
        bytes
    } else {
        let edit = edits.last();
        edited(bytes.take(edit.start as int), edits.drop_last()) + encode_utf8(edit.text@)
            + bytes.skip(edit.end as int)
    }
}

fn edits_are_in_order(edits: &Vec<TextEdit>, len: usize) -> (r: bool)
    ensures
        r == edits_fit(edits@, len as nat),
{
    let mut i: usize = 0;
    let mut at: usize = 0;
    while i < edits.len()
        invariant
            i <= edits.len(),
            at <= len,
            edits_fit(edits@.take(i as int), len as nat),
            forall|j: int| 0 <= j < i ==> (#[trigger] edits@[j]).end <= at,
            i > 0 ==> at == edits@[i - 1].end,
            i == 0 ==> at == 0,
        decreases edits.len() - i,
    {
        if edits[i].start < at || edits[i].end < edits[i].start || edits[i].end > len {
            return false;
        }
        at = edits[i].end;
        i = i + 1;
    }
    assert(edits@.take(i as int) =~= edits@);
    true
}

fn push_range(output: &mut Vec<u8>, bytes: &[u8], start: usize, end: usize)
    requires
        start <= end <= bytes@.len(),
    ensures
        final(output)@ == old(output)@ + bytes@.subrange(start as int, end as int),
{
    let mut i: usize = start;
    assert(output@ =~= output@ + bytes@.subrange(start as int, start as int));
    while i < end
        invariant
            start <= i <= end <= bytes@.len(),
            output@ == old(output)@ + bytes@.subrange(start as int, i as int),
        decreases end - i,
    {
        output.push(bytes[i]);
        assert(old(output)@ + bytes@.subrange(start as int, i + 1) =~= (old(output)@
            + bytes@.subrange(start as int, i as int)).push(bytes@[i as int]));
        i = i + 1;
    }
}

/// What the first edits leave of the bytes before `until` does not depend on what lies behind.
pub proof fn lemma_edited_prefix(bytes: Seq<u8>, edits: Seq<TextEdit>, until: int)
    requires
        edits_fit(edits, bytes.len()),
        0 <= until <= bytes.len(),
        forall|i: int| 0 <= i < edits.len() ==> (#[trigger] edits[i]).end <= until,
    ensures
        edited(bytes, edits) == edited(bytes.take(until), edits) + bytes.skip(until),
{
    if edits.len() == 0 {
        assert(bytes =~= bytes.take(until) + bytes.skip(until));
    } else {
        let edit = edits.last();
        assert(edit == edits[edits.len() - 1]);
        assert(bytes.take(until).take(edit.start as int) =~= bytes.take(edit.start as int));
        assert(bytes.skip(edit.end as int) =~= bytes.take(until).skip(edit.end as int)
            + bytes.skip(until));
        assert(edited(bytes, edits) =~= edited(bytes.take(until), edits) + bytes.skip(until));
    }
}

/// What lies between two places between characters is a text.
pub proof fn lemma_middle_is_text(bytes: Seq<u8>, start: int, end: int)
    requires
        valid_utf8(bytes),
        0 <= start <= end <= bytes.len(),
        is_char_boundary(bytes, start),
        is_char_boundary(bytes, end),
    ensures
        valid_utf8(bytes.subrange(start, end)),
{
    valid_utf8_split(bytes, start);
    let rest = bytes.subrange(start, bytes.len() as int);
    if end == bytes.len() {
    } else {
        is_char_boundary_iff_not_is_continuation_byte(bytes, end);
        if end - start < rest.len() {
            assert(rest[end - start] == bytes[end]);
            is_char_boundary_iff_not_is_continuation_byte(rest, end - start);
        }
        valid_utf8_split(rest, end - start);
        assert(rest.subrange(0, end - start) =~= bytes.subrange(start, end));
    }
}

/// Edits that start and end between characters make a text of a text.
pub proof fn lemma_edited_is_text(bytes: Seq<u8>, edits: Seq<TextEdit>)
    requires
        valid_utf8(bytes),
        edits_fit(edits, bytes.len()),
        forall|i: int|
            0 <= i < edits.len() ==> is_char_boundary(bytes, (#[trigger] edits[i]).start as int)
                && is_char_boundary(bytes, edits[i].end as int),
    ensures
        valid_utf8(edited(bytes, edits)),
    decreases edits.len(),
{
    if edits.len() > 0 {
        let edit = edits[edits.len() - 1];
        let head = bytes.take(edit.start as int);
        let before = edits.drop_last();
        valid_utf8_split(bytes, edit.start as int);
        valid_utf8_split(bytes, edit.end as int);
        assert(head =~= bytes.subrange(0, edit.start as int));
        assert(bytes.skip(edit.end as int) =~= bytes.subrange(
            edit.end as int,
            bytes.len() as int,
        ));
        assert forall|i: int| 0 <= i < before.len() implies (#[trigger] before[i]).start
            <= before[i].end <= head.len() && is_char_boundary(head, before[i].start as int)
            && is_char_boundary(head, before[i].end as int) by {
            assert(before[i] == edits[i]);
            assert(edits[i].end <= edit.start);
            lemma_boundary_in_prefix(bytes, edit.start as int, edits[i].start as int);
            lemma_boundary_in_prefix(bytes, edit.start as int, edits[i].end as int);
        }
        lemma_edited_is_text(head, before);
        encode_utf8_valid_utf8(edit.text@);
        valid_utf8_concat(edited(head, before), encode_utf8(edit.text@));
        valid_utf8_concat(
            edited(head, before) + encode_utf8(edit.text@),
            bytes.skip(edit.end as int),
        );
    }
}

/// A place between characters is one in a prefix too.
proof fn lemma_boundary_in_prefix(bytes: Seq<u8>, until: int, at: int)
    requires
        valid_utf8(bytes),
        0 <= at <= until <= bytes.len(),
        is_char_boundary(bytes, until),
        is_char_boundary(bytes, at),
    ensures
        is_char_boundary(bytes.take(until), at),
{
    valid_utf8_split(bytes, until);
    let head = bytes.take(until);
    assert(head =~= bytes.subrange(0, until));
    if at < until {
        is_char_boundary_iff_not_is_continuation_byte(bytes, at);
        assert(head[at] == bytes[at]);
        is_char_boundary_iff_not_is_continuation_byte(head, at);
    } else {
        is_char_boundary_start_end_of_seq(head);
    }
}

/// By how much what lies behind the first `count` edits moves.
pub open spec fn moved_by(edits: Seq<TextEdit>, count: nat) -> int
    decreases count,
{
    if count == 0 {
        0
    } else {
        moved_by(edits, (count - 1) as nat) + encode_utf8(edits[count - 1].text@).len() - (edits[count
            - 1].end - edits[count - 1].start)
    }
}

/// Where the piece behind the first `count` edits starts.
pub open spec fn piece_start(edits: Seq<TextEdit>, count: int) -> int {
    if count == 0 {
        0
    } else {
        edits[count - 1].end as int
    }
}

/// Where the piece behind the first `count` edits ends.
pub open spec fn piece_end(edits: Seq<TextEdit>, count: int, len: nat) -> int {
    if count == edits.len() {
        len as int
    } else {
        edits[count].start as int
    }
}

/// Whether `result` has the text of every edit in its place, and between the edits what `bytes` has.
pub open spec fn is_edited(bytes: Seq<u8>, edits: Seq<TextEdit>, result: Seq<u8>) -> bool {
    &&& result.len() == bytes.len() + moved_by(edits, edits.len())
    &&& forall|k: int|
        0 <= k < edits.len() ==> occurs_at(
            result,
            encode_utf8((#[trigger] edits[k]).text@),
            edits[k].start + moved_by(edits, k as nat),
        )
    &&& forall|k: int, i: int|
        0 <= k <= edits.len() && #[trigger] piece_start(edits, k) <= i < piece_end(
            edits,
            k,
            bytes.len(),
        ) ==> 0 <= i + moved_by(edits, k as nat) < result.len() && result[i + moved_by(
            edits,
            k as nat,
        )] == #[trigger] bytes[i]
}

proof fn lemma_moved_by_front(edits: Seq<TextEdit>, count: nat)
    requires
        count < edits.len(),
    ensures
        moved_by(edits.drop_last(), count) == moved_by(edits, count),
    decreases count,
{
    if count > 0 {
        lemma_moved_by_front(edits, (count - 1) as nat);
    }
}

/// Edits put their texts in place and leave everything else as it was.
#[verifier::spinoff_prover]
#[verifier::rlimit(40)]
pub proof fn lemma_edited(bytes: Seq<u8>, edits: Seq<TextEdit>)
    requires
        edits_fit(edits, bytes.len()),
    ensures
        is_edited(bytes, edits, edited(bytes, edits)),
    decreases edits.len(),
{
    let result = edited(bytes, edits);
    if edits.len() > 0 {
        let last = edits.len() - 1;
        let front = edits.drop_last();
        let edit = edits.last();
        assert(edit == edits[last]);
        let head = bytes.take(edit.start as int);
        assert(edits_fit(front, head.len())) by {
            assert forall|i: int| 0 <= i < front.len() implies (#[trigger] front[i]).start
                <= front[i].end <= head.len() by {
                assert(edits[i].end <= edits[last].start);
            }
        }
        lemma_edited(head, front);
        let before = edited(head, front);
        let text = encode_utf8(edit.text@);
        assert(result =~= before + text + bytes.skip(edit.end as int));
        lemma_moved_by_front(edits, last as nat);
        assert(moved_by(front, front.len()) == moved_by(edits, last as nat));
        assert(before.len() == edit.start + moved_by(edits, last as nat));
        assert forall|k: int| 0 <= k < edits.len() implies occurs_at(
            result,
            encode_utf8((#[trigger] edits[k]).text@),
            edits[k].start + moved_by(edits, k as nat),
        ) by {
            let own = encode_utf8(edits[k].text@);
            let at = edits[k].start + moved_by(edits, k as nat);
            if k < last {
                assert(front[k] == edits[k]);
                lemma_moved_by_front(edits, k as nat);
                assert(occurs_at(before, own, at));
                assert(result.subrange(at, at + own.len()) =~= before.subrange(
                    at,
                    at + own.len(),
                ));
            } else {
                assert(result.subrange(at, at + own.len()) =~= text);
            }
        }
        assert forall|k: int, i: int|
            0 <= k <= edits.len() && #[trigger] piece_start(edits, k) <= i < piece_end(
                edits,
                k,
                bytes.len(),
            ) implies 0 <= i + moved_by(edits, k as nat) < result.len() && result[i + moved_by(
            edits,
            k as nat,
        )] == #[trigger] bytes[i] by {
            if k <= last {
                lemma_moved_by_front(edits, k as nat);
                if k > 0 {
                    assert(front[k - 1] == edits[k - 1]);
                }
                if k < last {
                    assert(front[k] == edits[k]);
                    assert(edits[k].end <= edits[last].start);
                }
                assert(piece_start(front, k) <= i < piece_end(front, k, head.len()));
                assert(head[i] == bytes[i]);
            } else {
                let at = i + moved_by(edits, k as nat);
                assert(at == before.len() + text.len() + (i - edit.end));
                assert(bytes.skip(edit.end as int)[i - edit.end] == bytes[i]);
            }
        }
    }
}

/// The text with every edit made; `None` where the edits are out of order or cut a character.
pub fn apply_edits(source: &str, edits: &Vec<TextEdit>) -> (r: Option<String>)
    ensures
        r is Some == (edits_fit(edits@, encode_utf8(source@).len()) && valid_utf8(
            edited(encode_utf8(source@), edits@),
        )),
        r matches Some(output) ==> encode_utf8(output@) == edited(encode_utf8(source@), edits@),
        r matches Some(output) ==> is_edited(encode_utf8(source@), edits@, encode_utf8(output@)),
{
    let bytes: &[u8] = source.as_bytes();
    let total: usize = bytes.len();
    if !edits_are_in_order(edits, total) {
        return None;
    }
    let mut output: Vec<u8> = Vec::new();
    let mut at: usize = 0;
    let mut i: usize = 0;
    proof {
        assert(edits@.take(0) =~= Seq::empty());
        assert(bytes@.take(0) =~= Seq::<u8>::empty());
    }
    while i < edits.len()
        invariant
            i <= edits.len(),
            bytes@ == encode_utf8(source@),
            at <= total == bytes@.len(),
            edits_fit(edits@, total as nat),
            i > 0 ==> at == edits@[i - 1].end,
            i == 0 ==> at == 0,
            output@ == edited(bytes@.take(at as int), edits@.take(i as int)),
        decreases edits.len() - i,
    {
        let start: usize = edits[i].start;
        let end: usize = edits[i].end;
        let ghost done = edits@.take(i as int);
        let ghost before = output@;
        proof {
            assert(at <= start);
            let next = edits@.take(i + 1);
            assert(next.drop_last() =~= done);
            let head = bytes@.take(start as int);
            assert(edits_fit(done, head.len())) by {
                assert forall|j: int| 0 <= j < done.len() implies (#[trigger] done[j]).start
                    <= done[j].end <= head.len() by {
                    assert(done[j] == edits@[j]);
                    assert(edits@[j].end <= edits@[i as int].start);
                }
            }
            assert forall|j: int| 0 <= j < done.len() implies (#[trigger] done[j]).end <= at by {
                assert(done[j] == edits@[j]);
                if j < i - 1 {
                    assert(edits@[j].end <= edits@[i - 1].start);
                }
            }
            lemma_edited_prefix(head, done, at as int);
            assert(head.take(at as int) =~= bytes@.take(at as int));
            assert(head.skip(at as int) =~= bytes@.subrange(at as int, start as int));
            let upto = bytes@.take(end as int);
            assert(upto.take(start as int) =~= head);
            assert(upto.skip(end as int) =~= Seq::<u8>::empty());
        }
        push_range(&mut output, bytes, at, start);
        let replacement: &[u8] = edits[i].text.as_str().as_bytes();
        let ghost middle = output@;
        push_range(&mut output, replacement, 0, replacement.len());
        proof {
            assert(replacement@.subrange(0, replacement@.len() as int) =~= replacement@);
            assert(output@ =~= edited(bytes@.take(end as int), edits@.take(i + 1)));
        }
        at = end;
        i = i + 1;
    }
    let ghost before = output@;
    push_range(&mut output, bytes, at, total);
    proof {
        assert(edits@.take(i as int) =~= edits@);
        assert forall|j: int| 0 <= j < edits@.len() implies (#[trigger] edits@[j]).end <= at by {
            if j < edits@.len() - 1 {
                assert(edits@[j].end <= edits@[edits@.len() - 1].start);
            }
        }
        lemma_edited_prefix(bytes@, edits@, at as int);
        assert(bytes@.subrange(at as int, total as int) =~= bytes@.skip(at as int));
        lemma_edited(bytes@, edits@);
        if valid_utf8(output@) {
            decode_utf8_encode_utf8(output@);
        }
    }
    utf8_text(output.as_slice())
}

/// Adds an edit to edits that are in order; not where they are out of order, or where it overlaps
/// one of them. An edit that inserts stands before one that starts at the same place.
pub fn add_edit(edits: &mut Vec<TextEdit>, edit: TextEdit, len: usize) -> (added: bool)
    ensures
        added ==> exists|k: int|
            0 <= k <= old(edits)@.len() && final(edits)@ == #[trigger] old(edits)@.insert(k, edit),
        added ==> edits_fit(final(edits)@, len as nat),
        !added ==> final(edits)@ == old(edits)@,
        added == (edits_fit(old(edits)@, len as nat) && edit.start <= edit.end <= len && forall|i: int|
            0 <= i < old(edits)@.len() ==> (#[trigger] old(edits)@[i]).end <= edit.start
                || edit.end <= old(edits)@[i].start),
{
    if !edits_are_in_order(edits, len) || edit.end < edit.start || edit.end > len {
        return false;
    }
    let mut k: usize = 0;
    while k < edits.len() && edits[k].end <= edit.start
        invariant
            edits@ == old(edits)@,
            k <= edits.len(),
            forall|i: int| 0 <= i < k ==> (#[trigger] edits@[i]).end <= edit.start,
        decreases edits.len() - k,
    {
        k = k + 1;
    }
    if k < edits.len() && edits[k].start < edit.end {
        assert(edits@[k as int].end > edit.start);
        return false;
    }
    proof {
        assert forall|i: int| 0 <= i < edits@.len() implies (#[trigger] edits@[i]).end <= edit.start
            || edit.end <= edits@[i].start by {
            if k < i {
                assert(edits@[k as int].end <= edits@[i].start);
            }
        }
        let next = old(edits)@.insert(k as int, edit);
        assert forall|i: int| 0 <= i < next.len() implies (#[trigger] next[i]).start <= next[i].end
            <= len by {
            if i < k {
                assert(next[i] == old(edits)@[i]);
            } else if i > k {
                assert(next[i] == old(edits)@[i - 1]);
            }
        }
        assert forall|i: int, j: int| 0 <= i < j < next.len() implies (#[trigger] next[i]).end <= (
        #[trigger] next[j]).start by {
            if i < k {
                assert(next[i] == old(edits)@[i]);
            } else if i > k {
                assert(next[i] == old(edits)@[i - 1]);
            }
            if j < k {
                assert(next[j] == old(edits)@[j]);
            } else if j > k {
                assert(next[j] == old(edits)@[j - 1]);
                if i == k && j - 1 > k {
                    assert(old(edits)@[k as int].end <= old(edits)@[j - 1].start);
                    assert(edit.end <= old(edits)@[k as int].start);
                }
            }
        }
    }
    edits.insert(k, edit);
    true
}

} // verus!
