//! Sets of names, kept as lists in strictly ascending order.

use vstd::prelude::*;
use vstd::utf8::*;
use crate::text;
use crate::text::chars_of;

verus! {

/// Code point order of texts, which is also the order of their UTF-8 encodings.
pub open spec fn text_less(left: Seq<char>, right: Seq<char>) -> bool
    decreases left.len(),
{
    if right.len() == 0 {
        false
    } else if left.len() == 0 {
        true
    } else if left[0] != right[0] {
        (left[0] as u32) < (right[0] as u32)
    } else {
        text_less(left.skip(1), right.skip(1))
    }
}

pub proof fn lemma_text_less_irreflexive(value: Seq<char>)
    ensures
        !text_less(value, value),
    decreases value.len(),
{
    if value.len() > 0 {
        lemma_text_less_irreflexive(value.skip(1));
    }
}

pub proof fn lemma_text_less_transitive(a: Seq<char>, b: Seq<char>, c: Seq<char>)
    requires
        text_less(a, b),
        text_less(b, c),
    ensures
        text_less(a, c),
    decreases a.len(),
{
    if a.len() > 0 && a[0] == b[0] && b[0] == c[0] {
        lemma_text_less_transitive(a.skip(1), b.skip(1), c.skip(1));
    }
}

proof fn lemma_char_of_code(a: char, b: char)
    ensures
        a as u32 == b as u32 ==> a == b,
{
    char_u32_cast(a, a as u32);
    char_u32_cast(b, b as u32);
}

pub proof fn lemma_text_less_total(a: Seq<char>, b: Seq<char>)
    ensures
        a == b || text_less(a, b) || text_less(b, a),
    decreases a.len(),
{
    if a.len() == 0 {
        if b.len() == 0 {
            assert(a =~= b);
        }
    } else if b.len() > 0 && a[0] == b[0] {
        lemma_text_less_total(a.skip(1), b.skip(1));
        if a.skip(1) == b.skip(1) {
            assert(a =~= seq![a[0]] + a.skip(1));
            assert(b =~= seq![b[0]] + b.skip(1));
        }
    } else if b.len() > 0 {
        lemma_char_of_code(a[0], b[0]);
    }
}

/// How two names stand to each other.
#[derive(Debug, Clone, Copy, PartialEq, Eq, Structural)]
pub enum NameOrder {
    Before,
    Same,
    After,
}

pub fn order_names(left: &str, right: &str) -> (order: NameOrder)
    ensures
        order is Before == text_less(left@, right@),
        order is Same == (left@ == right@),
        order is After == text_less(right@, left@),
{
    let l: Vec<char> = chars_of(left);
    let r: Vec<char> = chars_of(right);
    let mut i: usize = 0;
    proof {
        lemma_text_less_irreflexive(left@);
        assert(left@.skip(0) =~= left@);
        assert(right@.skip(0) =~= right@);
    }
    while i < l.len() && i < r.len()
        invariant
            l@ == left@,
            r@ == right@,
            i <= l.len(),
            i <= r.len(),
            !text_less(left@, left@),
            left@.take(i as int) == right@.take(i as int),
            text_less(left@, right@) == text_less(left@.skip(i as int), right@.skip(i as int)),
            text_less(right@, left@) == text_less(right@.skip(i as int), left@.skip(i as int)),
        decreases l.len() - i,
    {
        let a: u32 = l[i] as u32;
        let b: u32 = r[i] as u32;
        proof {
            assert(left@.skip(i as int)[0] == left@[i as int]);
            assert(right@.skip(i as int)[0] == right@[i as int]);
            assert(left@.skip(i as int).skip(1) =~= left@.skip(i + 1));
            assert(right@.skip(i as int).skip(1) =~= right@.skip(i + 1));
        }
        if a < b {
            return NameOrder::Before;
        }
        if b < a {
            return NameOrder::After;
        }
        proof {
            lemma_char_of_code(left@[i as int], right@[i as int]);
            assert(left@.take(i + 1) =~= left@.take(i as int).push(left@[i as int]));
            assert(right@.take(i + 1) =~= right@.take(i as int).push(right@[i as int]));
        }
        i = i + 1;
    }
    proof {
        if left@.len() == right@.len() {
            assert(left@.take(i as int) =~= left@);
            assert(right@.take(i as int) =~= right@);
        }
    }
    if i < r.len() {
        NameOrder::Before
    } else if i < l.len() {
        NameOrder::After
    } else {
        NameOrder::Same
    }
}

pub open spec fn is_ascending(names: Seq<Seq<char>>) -> bool {
    forall|i: int, j: int| 0 <= i < j < names.len() ==> text_less(#[trigger] names[i], #[trigger] names[j])
}

/// A set has one list: what is listed decides how it is listed.
pub proof fn lemma_ascending_list_is_unique(left: Seq<Seq<char>>, right: Seq<Seq<char>>)
    requires
        is_ascending(left),
        is_ascending(right),
        left.to_set() == right.to_set(),
    ensures
        left == right,
    decreases left.len(),
{
    if left.len() == 0 {
        if right.len() > 0 {
            assert(right.to_set().contains(right[0]));
            assert(left.to_set().contains(right[0]));
        }
        assert(left =~= right);
    } else {
        assert(left.to_set().contains(left[0]));
        assert(right.to_set().contains(left[0]));
        assert(right.len() > 0);
        let k = choose|k: int| 0 <= k < right.len() && right[k] == left[0];
        assert(right.to_set().contains(right[0]));
        assert(left.to_set().contains(right[0]));
        let m = choose|m: int| 0 <= m < left.len() && left[m] == right[0];
        if k > 0 {
            assert(text_less(right[0], right[k]));
            if m > 0 {
                assert(text_less(left[0], left[m]));
                lemma_text_less_transitive(left[0], right[0], left[0]);
            }
            lemma_text_less_irreflexive(left[0]);
        }
        assert(left[0] == right[0]);
        let l = left.skip(1);
        let r = right.skip(1);
        assert forall|i: int, j: int| 0 <= i < j < l.len() implies text_less(
            #[trigger] l[i],
            #[trigger] l[j],
        ) by {
            assert(text_less(left[i + 1], left[j + 1]));
        }
        assert forall|i: int, j: int| 0 <= i < j < r.len() implies text_less(
            #[trigger] r[i],
            #[trigger] r[j],
        ) by {
            assert(text_less(right[i + 1], right[j + 1]));
        }
        assert forall|name: Seq<char>| l.to_set().contains(name) == r.to_set().contains(name) by {
            lemma_in_tail(left, name);
            lemma_in_tail(right, name);
        }
        assert(l.to_set() =~= r.to_set());
        lemma_ascending_list_is_unique(l, r);
        assert(left =~= seq![left[0]] + l);
        assert(right =~= seq![right[0]] + r);
    }
}

proof fn lemma_in_tail(names: Seq<Seq<char>>, name: Seq<char>)
    requires
        is_ascending(names),
        names.len() > 0,
    ensures
        names.skip(1).to_set().contains(name) == (names.to_set().contains(name) && name
            != names[0]),
{
    let tail = names.skip(1);
    if tail.contains(name) {
        let i = choose|i: int| 0 <= i < tail.len() && tail[i] == name;
        assert(names[i + 1] == name);
        assert(text_less(names[0], names[i + 1]));
        lemma_text_less_irreflexive(name);
    }
    if names.contains(name) && name != names[0] {
        let i = choose|i: int| 0 <= i < names.len() && names[i] == name;
        assert(tail[i - 1] == name);
    }
}

/// Adds `name` to the set.
pub fn insert_name(names: &mut Vec<String>, name: String)
    requires
        is_ascending(text::texts(old(names)@)),
    ensures
        is_ascending(text::texts(final(names)@)),
        text::texts(final(names)@).to_set() == text::texts(old(names)@).to_set().insert(name@),
{
    let ghost before = text::texts(names@);
    let mut i: usize = 0;
    while i < names.len()
        invariant
            *names == *old(names),
            before == text::texts(names@),
            is_ascending(before),
            i <= names.len(),
            forall|j: int| 0 <= j < i ==> text_less(#[trigger] before[j], name@),
        decreases names.len() - i,
    {
        assert(before[i as int] == names@[i as int]@);
        match order_names(names[i].as_str(), name.as_str()) {
            NameOrder::Before => {
                i = i + 1;
            },
            NameOrder::Same => {
                assert(before.to_set().contains(name@));
                assert(before.to_set().insert(name@) =~= before.to_set());
                return ;
            },
            NameOrder::After => {
                proof {
                    lemma_inserted(before, i as int, name@);
                    assert(text::texts(old(names)@.insert(i as int, name)) =~= before.insert(
                        i as int,
                        name@,
                    ));
                }
                names.insert(i, name);
                return ;
            },
        }
    }
    proof {
        lemma_inserted(before, i as int, name@);
        assert(text::texts(old(names)@.push(name)) =~= before.insert(i as int, name@));
    }
    names.push(name);
}

proof fn lemma_inserted(names: Seq<Seq<char>>, at: int, name: Seq<char>)
    requires
        is_ascending(names),
        0 <= at <= names.len(),
        forall|j: int| 0 <= j < at ==> text_less(#[trigger] names[j], name),
        at < names.len() ==> text_less(name, names[at]),
    ensures
        is_ascending(names.insert(at, name)),
        names.insert(at, name).to_set() == names.to_set().insert(name),
{
    let after = names.insert(at, name);
    assert forall|i: int, j: int| 0 <= i < j < after.len() implies text_less(
        #[trigger] after[i],
        #[trigger] after[j],
    ) by {
        if i == at {
            assert(after[j] == names[j - 1]);
            if j - 1 > at {
                assert(text_less(names[at], names[j - 1]));
                lemma_text_less_transitive(name, names[at], names[j - 1]);
            }
        } else if j == at {
            assert(text_less(names[i], name));
        } else {
            let a = if i < at {
                i
            } else {
                i - 1
            };
            let b = if j < at {
                j
            } else {
                j - 1
            };
            assert(text_less(names[a], names[b]));
        }
    }
    assert forall|x: Seq<char>|
        after.to_set().contains(x) == names.to_set().insert(name).contains(x) by {
        if names.contains(x) {
            let k = choose|k: int| 0 <= k < names.len() && names[k] == x;
            if k < at {
                assert(after[k] == x);
            } else {
                assert(after[k + 1] == x);
            }
        }
        if x == name {
            assert(after[at] == x);
        }
        if after.contains(x) {
            let k = choose|k: int| 0 <= k < after.len() && after[k] == x;
            if k < at {
                assert(names[k] == x);
            } else if k > at {
                assert(names[k - 1] == x);
            }
        }
    }
    assert(after.to_set() =~= names.to_set().insert(name));
}

/// Whether `name` is in a list.
pub fn contains_name(names: &Vec<String>, name: &str) -> (r: bool)
    ensures
        r == text::texts(names@).contains(name@),
{
    let mut i: usize = 0;
    while i < names.len()
        invariant
            i <= names.len(),
            forall|j: int| 0 <= j < i ==> #[trigger] text::texts(names@)[j] != name@,
        decreases names.len() - i,
    {
        assert(text::texts(names@)[i as int] == names@[i as int]@);
        if text::same_text(names[i].as_str(), name) {
            return true;
        }
        i = i + 1;
    }
    false
}

} // verus!
