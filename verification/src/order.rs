//! The order of dictionary entries: by word, then by pinyin, each compared character by
//! character (the order of `String`, since UTF-8 keeps the order of code points).
use vstd::prelude::*;

use core::cmp::Ordering;

use crate::rime::{line_entry_view, LineEntry};

verus! {

/// `a` sorts before `b`: at the first difference `a` has the smaller character, or `a` is a
/// proper prefix of `b`.
pub open spec fn chars_less(a: Seq<char>, b: Seq<char>) -> bool
    decreases a.len(),
{
    if a.len() == 0 {
        b.len() > 0
    } else if b.len() == 0 {
        false
    } else if a[0] != b[0] {
        a[0] < b[0]
    } else {
        chars_less(a.drop_first(), b.drop_first())
    }
}

/// Entry `a` sorts before entry `b`: by word, then by pinyin.
pub open spec fn key_less(a: (Seq<char>, Seq<char>, u32), b: (Seq<char>, Seq<char>, u32)) -> bool {
    chars_less(a.0, b.0) || (a.0 == b.0 && chars_less(a.1, b.1))
}

/// Entries `a` and `b` have the same word and pinyin.
pub open spec fn same_key(a: (Seq<char>, Seq<char>, u32), b: (Seq<char>, Seq<char>, u32)) -> bool {
    a.0 == b.0 && a.1 == b.1
}

/// The character order is a strict total order.
pub proof fn lemma_chars_less_order(a: Seq<char>, b: Seq<char>, c: Seq<char>)
    ensures
        !chars_less(a, a),
        a =~= b || chars_less(a, b) || chars_less(b, a),
        !(chars_less(a, b) && chars_less(b, a)),
        chars_less(a, b) && chars_less(b, c) ==> chars_less(a, c),
    decreases a.len(),
{
    if a.len() > 0 {
        lemma_chars_less_order(a.drop_first(), a.drop_first(), a.drop_first());
        if b.len() > 0 {
            lemma_chars_less_order(a.drop_first(), b.drop_first(), b.drop_first());
            if !(a =~= b) && a[0] == b[0] {
                assert(!(a.drop_first() =~= b.drop_first())) by {
                    if a.drop_first() =~= b.drop_first() {
                        assert forall|i: int| 0 <= i < a.len() implies a[i] == b[i] by {
                            if i > 0 {
                                assert(a[i] == a.drop_first()[i - 1]);
                            }
                        }
                        assert(a =~= b);
                    }
                }
            }
            if c.len() > 0 {
                lemma_chars_less_order(a.drop_first(), b.drop_first(), c.drop_first());
            }
        }
    } else {
        if b.len() == 0 {
            assert(a =~= b);
        }
    }
}

/// The entry order is a strict total order on keys.
pub proof fn lemma_key_less_order(
    a: (Seq<char>, Seq<char>, u32),
    b: (Seq<char>, Seq<char>, u32),
    c: (Seq<char>, Seq<char>, u32),
)
    ensures
        !key_less(a, a),
        same_key(a, b) || key_less(a, b) || key_less(b, a),
        !(key_less(a, b) && key_less(b, a)),
        key_less(a, b) && key_less(b, c) ==> key_less(a, c),
        same_key(a, b) ==> !key_less(a, b),
{
    lemma_chars_less_order(a.0, b.0, c.0);
    lemma_chars_less_order(a.1, b.1, c.1);
    lemma_chars_less_order(a.0, a.0, a.0);
    lemma_chars_less_order(a.1, a.1, a.1);
    lemma_chars_less_order(b.0, c.0, a.0);
    lemma_chars_less_order(b.1, c.1, a.1);
}

/// Past an equal prefix, the order is decided by what follows.
proof fn lemma_chars_less_skip(a: Seq<char>, b: Seq<char>, i: int)
    requires
        0 <= i <= a.len(),
        i <= b.len(),
        a.take(i) =~= b.take(i),
    ensures
        chars_less(a, b) == chars_less(a.skip(i), b.skip(i)),
    decreases i,
{
    if i > 0 {
        assert(a[0] == a.take(i)[0]);
        assert(b[0] == b.take(i)[0]);
        assert(a.drop_first().take(i - 1) =~= b.drop_first().take(i - 1)) by {
            assert forall|k: int| 0 <= k < i - 1 implies a.drop_first()[k] == b.drop_first()[k] by {
                assert(a.take(i)[k + 1] == b.take(i)[k + 1]);
            }
        }
        lemma_chars_less_skip(a.drop_first(), b.drop_first(), i - 1);
        assert(a.drop_first().skip(i - 1) =~= a.skip(i));
        assert(b.drop_first().skip(i - 1) =~= b.skip(i));
    } else {
        assert(a.skip(0) =~= a);
        assert(b.skip(0) =~= b);
    }
}

/// Length of the common prefix of `a` and `b`.
fn common_prefix(a: &Vec<char>, b: &Vec<char>) -> (result: usize)
    ensures
        result <= a@.len(),
        result <= b@.len(),
        a@.take(result as int) =~= b@.take(result as int),
        result < a@.len() && result < b@.len() ==> a@[result as int] != b@[result as int],
{
    let mut i: usize = 0;
    while i < a.len() && i < b.len() && a[i] == b[i]
        invariant
            i <= a@.len(),
            i <= b@.len(),
            a@.take(i as int) =~= b@.take(i as int),
        decreases a@.len() - i,
    {
        assert(a@.take(i + 1) =~= a@.take(i as int).push(a@[i as int]));
        assert(b@.take(i + 1) =~= b@.take(i as int).push(b@[i as int]));
        i = i + 1;
    }
    i
}

/// Whether `a` sorts before `b`.
pub fn chars_before(a: &Vec<char>, b: &Vec<char>) -> (result: bool)
    ensures
        result == chars_less(a@, b@),
{
    let i = common_prefix(a, b);
    proof {
        lemma_chars_less_skip(a@, b@, i as int);
    }
    if i == a.len() {
        i < b.len()
    } else if i == b.len() {
        false
    } else {
        a[i] < b[i]
    }
}

/// Whether `a` and `b` hold the same characters.
pub fn chars_equal(a: &Vec<char>, b: &Vec<char>) -> (result: bool)
    ensures
        result == (a@ == b@),
{
    let i = common_prefix(a, b);
    proof {
        if i == a@.len() && i == b@.len() {
            assert(a@ =~= a@.take(i as int));
            assert(b@ =~= b@.take(i as int));
        }
        if a@ == b@ && i < a@.len() {
            assert(a@[i as int] == b@[i as int]);
        }
    }
    i == a.len() && i == b.len()
}

/// Compare two character sequences in the order of [`chars_less`].
pub fn order_chars(a: &Vec<char>, b: &Vec<char>) -> (result: Ordering)
    ensures
        (result == Ordering::Less) == chars_less(a@, b@),
        (result == Ordering::Equal) == (a@ == b@),
        (result == Ordering::Greater) == chars_less(b@, a@),
{
    proof {
        lemma_chars_less_order(a@, b@, b@);
        lemma_chars_less_order(a@, a@, a@);
    }
    if chars_equal(a, b) {
        Ordering::Equal
    } else if chars_before(a, b) {
        Ordering::Less
    } else {
        Ordering::Greater
    }
}

/// Compare two entries by word, then by pinyin.
pub fn order_entries(a: &LineEntry, b: &LineEntry) -> (result: Ordering)
    ensures
        (result == Ordering::Less) == key_less(line_entry_view(*a), line_entry_view(*b)),
        (result == Ordering::Equal) == same_key(line_entry_view(*a), line_entry_view(*b)),
        (result == Ordering::Greater) == key_less(line_entry_view(*b), line_entry_view(*a)),
{
    proof {
        lemma_chars_less_order(a.word@, b.word@, b.word@);
        lemma_chars_less_order(a.pinyin@, b.pinyin@, b.pinyin@);
        lemma_chars_less_order(a.word@, a.word@, a.word@);
    }
    match order_chars(&a.word, &b.word) {
        Ordering::Equal => order_chars(&a.pinyin, &b.pinyin),
        other => other,
    }
}

/// `slice::sort_by` from std with [`order_entries`] as the comparison: the entries are
/// rearranged so that no entry sorts before one in front of it. The contract states that the
/// result is a rearrangement of the input and is sorted.
#[verifier::external_body]
pub(crate) fn sort_entries(entries: &mut Vec<LineEntry>)
    ensures
        final(entries)@.map_values(|e: LineEntry| line_entry_view(e)).to_multiset() == old(
            entries,
        )@.map_values(|e: LineEntry| line_entry_view(e)).to_multiset(),
        forall|i: int, j: int|
            0 <= i < j < final(entries)@.len() ==> !key_less(
                line_entry_view(final(entries)@[j]),
                line_entry_view(final(entries)@[i]),
            ),
{
    entries.sort_by(|a, b| order_entries(a, b));
}

} // verus!
