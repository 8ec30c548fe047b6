//! Merging Rime dictionaries that were already turned into TSV (`word\tpinyin\tweight` per
//! line) into one Qingjian TSV: one line per (word, pinyin), keeping the largest weight,
//! sorted by word, then pinyin.
//!
//! A line is read as `str::lines` and `str::split('\t')` read it: lines end at `\n` (a `\r`
//! before it is dropped), the first field is the word, the second the pinyin, the third the
//! weight; a line without a second field is skipped, and a missing or unreadable weight is 1.
use vstd::prelude::*;

use crate::order::{chars_equal, key_less, lemma_key_less_order, same_key, sort_entries};
use crate::text::{chars_of, string_of, string_push};

verus! {

/// A merged dictionary entry.
pub struct RimeEntry {
    pub word: String,
    pub pinyin: String,
    pub weight: u32,
}

/// An entry as read from a line, its texts kept as characters.
pub struct LineEntry {
    pub word: Vec<char>,
    pub pinyin: Vec<char>,
    pub weight: u32,
}

pub open spec fn entry_view(entry: RimeEntry) -> (Seq<char>, Seq<char>, u32) {
    (entry.word@, entry.pinyin@, entry.weight)
}

pub open spec fn line_entry_view(entry: LineEntry) -> (Seq<char>, Seq<char>, u32) {
    (entry.word@, entry.pinyin@, entry.weight)
}

/// The first index at or after `from` where `text` holds `c`.
pub open spec fn next_index_of(text: Seq<char>, from: int, c: char) -> Option<int>
    decreases text.len() - from,
{
    if from < 0 || from >= text.len() {
        None
    } else if text[from] == c {
        Some(from)
    } else {
        next_index_of(text, from + 1, c)
    }
}

pub open spec fn is_digit(c: char) -> bool {
    '0' <= c && c <= '9'
}

/// The number a run of decimal digits writes.
pub open spec fn digits_value(digits: Seq<char>) -> nat
    decreases digits.len(),
{
    if digits.len() == 0 {
        0
    } else {
        digits_value(digits.drop_last()) * 10 + ((digits.last() as int - '0' as int) as nat)
    }
}

/// A number's text without its leading `+`, if it has one.
pub open spec fn without_plus(text: Seq<char>) -> Seq<char> {
    if text.len() > 0 && text[0] == '+' {
        text.drop_first()
    } else {
        text
    }
}

pub open spec fn all_digits(digits: Seq<char>) -> bool {
    forall|i: int| 0 <= i < digits.len() ==> is_digit(#[trigger] digits[i])
}

/// `u32::from_str`: an optional `+`, then one or more decimal digits whose value fits.
pub open spec fn spec_parse_u32(text: Seq<char>) -> Option<u32> {
    let digits = without_plus(text);
    if digits.len() == 0 || !all_digits(digits) {
        None
    } else if digits_value(digits) > u32::MAX {
        None
    } else {
        Some(digits_value(digits) as u32)
    }
}

/// The weight a weight field gives: its value, or 1 when it does not read as a `u32`.
pub open spec fn weight_of(field: Seq<char>) -> u32 {
    match spec_parse_u32(field) {
        Some(weight) => weight,
        None => 1,
    }
}

/// The entry a line gives: word, pinyin and weight from its first three tab-separated
/// fields; none when the line has no tab.
pub open spec fn entry_of_line(line: Seq<char>) -> Option<(Seq<char>, Seq<char>, u32)> {
    match next_index_of(line, 0, '\t') {
        None => None,
        Some(first) => {
            let word = line.subrange(0, first);
            match next_index_of(line, first + 1, '\t') {
                None => Some((word, line.subrange(first + 1, line.len() as int), 1u32)),
                Some(second) => {
                    let third_end = match next_index_of(line, second + 1, '\t') {
                        Some(third) => third,
                        None => line.len() as int,
                    };
                    Some(
                        (
                            word,
                            line.subrange(first + 1, second),
                            weight_of(line.subrange(second + 1, third_end)),
                        ),
                    )
                },
            }
        },
    }
}

/// A line with one trailing `\r` removed.
pub open spec fn strip_cr(line: Seq<char>) -> Seq<char> {
    if line.len() > 0 && line.last() == '\r' {
        line.drop_last()
    } else {
        line
    }
}

/// `next_index_of` finds the first match at or after `from`.
pub proof fn lemma_next_index_of(text: Seq<char>, from: int, c: char)
    ensures
        match next_index_of(text, from, c) {
            Some(i) => from <= i < text.len() && 0 <= from && text[i] == c && forall|j: int|
                from <= j < i ==> text[j] != c,
            None => 0 <= from ==> forall|j: int| from <= j < text.len() ==> text[j] != c,
        },
    decreases text.len() - from,
{
    if 0 <= from < text.len() && text[from] != c {
        lemma_next_index_of(text, from + 1, c);
    }
}

/// The entries of the lines of `text` from position `from` on.
pub open spec fn text_entries_from(text: Seq<char>, from: int) -> Seq<(Seq<char>, Seq<char>, u32)>
    decreases text.len() - from,
{
    if from < 0 || from >= text.len() {
        Seq::empty()
    } else {
        proof {
            lemma_next_index_of(text, from, '\n');
        }
        let (line, next) = match next_index_of(text, from, '\n') {
            Some(end) => (strip_cr(text.subrange(from, end)), end + 1),
            None => (text.subrange(from, text.len() as int), text.len() as int),
        };
        let here = match entry_of_line(line) {
            Some(entry) => seq![entry],
            None => Seq::empty(),
        };
        here + text_entries_from(text, next)
    }
}

/// The entries of all the texts, in order.
pub open spec fn all_entries(texts: Seq<Seq<char>>) -> Seq<(Seq<char>, Seq<char>, u32)>
    decreases texts.len(),
{
    if texts.len() == 0 {
        Seq::empty()
    } else {
        all_entries(texts.drop_last()) + text_entries_from(texts.last(), 0)
    }
}

/// The first index at or after `from` where `text` holds `c`.
fn find_char(text: &Vec<char>, from: usize, c: char) -> (result: Option<usize>)
    ensures
        match next_index_of(text@, from as int, c) {
            Some(i) => result == Some(i as usize),
            None => result is None,
        },
{
    let mut i: usize = from;
    while i < text.len() && text[i] != c
        invariant
            from <= i,
            next_index_of(text@, from as int, c) == next_index_of(text@, i as int, c),
        decreases text@.len() - i,
    {
        i = i + 1;
    }
    proof {
        lemma_next_index_of(text@, i as int, c);
    }
    if i < text.len() {
        Some(i)
    } else {
        None
    }
}

/// The characters of `text` in `from..to`.
fn slice_chars(text: &Vec<char>, from: usize, to: usize) -> (result: Vec<char>)
    requires
        from <= to <= text@.len(),
    ensures
        result@ == text@.subrange(from as int, to as int),
{
    let mut out: Vec<char> = Vec::new();
    let mut i: usize = from;
    while i < to
        invariant
            from <= i <= to <= text@.len(),
            out@ == text@.subrange(from as int, i as int),
        decreases to - i,
    {
        out.push(text[i]);
        i = i + 1;
    }
    out
}

/// `u32::from_str` on the characters `from..to` of `text`.
fn parse_u32(text: &Vec<char>, from: usize, to: usize) -> (result: Option<u32>)
    requires
        from <= to <= text@.len(),
    ensures
        result == spec_parse_u32(text@.subrange(from as int, to as int)),
{
    let ghost field = text@.subrange(from as int, to as int);
    let mut start: usize = from;
    if start < to && text[start] == '+' {
        start = start + 1;
    }
    let ghost digits = text@.subrange(start as int, to as int);
    assert(digits == without_plus(field));
    if start == to {
        return None;
    }
    let mut value: u64 = 0;
    let mut fits: bool = true;
    let mut i: usize = start;
    while i < to
        invariant
            start <= i <= to <= text@.len(),
            from <= start,
            digits == text@.subrange(start as int, to as int),
            field == text@.subrange(from as int, to as int),
            digits == without_plus(field),
            forall|k: int| start <= k < i ==> is_digit(#[trigger] text@[k]),
            fits ==> value == digits_value(text@.subrange(start as int, i as int)),
            fits ==> value <= u32::MAX,
            !fits ==> digits_value(text@.subrange(start as int, i as int)) > u32::MAX,
        decreases to - i,
    {
        let c = text[i];
        if !('0' <= c && c <= '9') {
            proof {
                assert(digits[i - start] == text@[i as int]);
                assert(!is_digit(digits[i - start]));
                assert(!all_digits(digits));
            }
            return None;
        }
        let digit: u64 = (c as u32 - '0' as u32) as u64;
        assert(text@.subrange(start as int, i + 1).drop_last() == text@.subrange(start as int, i as int));
        if fits {
            value = value * 10 + digit;
            if value > 0xffff_ffff {
                fits = false;
            }
        }
        i = i + 1;
    }
    proof {
        assert forall|k: int| 0 <= k < digits.len() implies is_digit(#[trigger] digits[k]) by {
            assert(digits[k] == text@[start + k]);
        }
    }
    if fits {
        Some(value as u32)
    } else {
        None
    }
}

/// The entry of one line, as [`entry_of_line`] reads it.
fn line_entry(line: &Vec<char>) -> (result: Option<LineEntry>)
    ensures
        match entry_of_line(line@) {
            Some(entry) => result is Some && line_entry_view(result->0) == entry,
            None => result is None,
        },
{
    let len = line.len();
    proof {
        lemma_next_index_of(line@, 0, '\t');
    }
    let first = match find_char(line, 0, '\t') {
        None => return None,
        Some(first) => first,
    };
    proof {
        lemma_next_index_of(line@, first + 1, '\t');
    }
    let word = slice_chars(line, 0, first);
    match find_char(line, first + 1, '\t') {
        None => Some(LineEntry { word, pinyin: slice_chars(line, first + 1, len), weight: 1 }),
        Some(second) => {
            proof {
                lemma_next_index_of(line@, second + 1, '\t');
            }
            let third_end = match find_char(line, second + 1, '\t') {
                Some(third) => third,
                None => len,
            };
            let weight = match parse_u32(line, second + 1, third_end) {
                Some(weight) => weight,
                None => 1,
            };
            Some(LineEntry { word, pinyin: slice_chars(line, first + 1, second), weight })
        },
    }
}

/// Append the entries of the lines of `text` to `entries`.
fn read_entries(text: &str, entries: &mut Vec<LineEntry>)
    ensures
        final(entries)@.map_values(|e: LineEntry| line_entry_view(e)) == old(entries)@.map_values(
            |e: LineEntry| line_entry_view(e),
        ) + text_entries_from(text@, 0),
{
    let chars = chars_of(text);
    let len = chars.len();
    let ghost start = entries@.map_values(|e: LineEntry| line_entry_view(e));
    let mut from: usize = 0;
    while from < len
        invariant
            len == chars@.len(),
            chars@ == text@,
            from <= len,
            start + text_entries_from(text@, 0) == entries@.map_values(|e: LineEntry| line_entry_view(e))
                + text_entries_from(text@, from as int),
        decreases len - from,
    {
        proof {
            lemma_next_index_of(chars@, from as int, '\n');
        }
        let ghost before = entries@.map_values(|e: LineEntry| line_entry_view(e));
        let (mut line, next) = match find_char(&chars, from, '\n') {
            Some(end) => (slice_chars(&chars, from, end), end + 1),
            None => (slice_chars(&chars, from, len), len),
        };
        let ended = next <= len && next > 0 && next - 1 < len && chars[next - 1] == '\n';
        if ended && line.len() > 0 && line[line.len() - 1] == '\r' {
            line.pop();
        }
        proof {
            match next_index_of(chars@, from as int, '\n') {
                Some(end) => {
                    assert(ended);
                    let raw = chars@.subrange(from as int, end);
                    if raw.len() > 0 && raw.last() == '\r' {
                        assert(line@ =~= raw.drop_last());
                    }
                    assert(line@ == strip_cr(raw));
                },
                None => {
                    assert(next == len);
                    if ended {
                        assert(chars@[len - 1] == '\n');
                    }
                    assert(!ended);
                },
            }
        }
        match line_entry(&line) {
            Some(entry) => {
                entries.push(entry);
            },
            None => {},
        }
        proof {
            let after = entries@.map_values(|e: LineEntry| line_entry_view(e));
            let here = match entry_of_line(line@) {
                Some(entry) => seq![entry],
                None => Seq::<(Seq<char>, Seq<char>, u32)>::empty(),
            };
            assert(after =~= before + here);
            assert(text_entries_from(text@, from as int) == here + text_entries_from(text@, next as int));
            assert(before + text_entries_from(text@, from as int) =~= after + text_entries_from(text@, next as int));
        }
        from = next;
    }
    assert(text_entries_from(text@, from as int) =~= Seq::<(Seq<char>, Seq<char>, u32)>::empty());
}

/// The keys of `out` strictly increase.
pub open spec fn keys_increasing(out: Seq<(Seq<char>, Seq<char>, u32)>) -> bool {
    forall|i: int, j: int| 0 <= i < j < out.len() ==> key_less(#[trigger] out[i], #[trigger] out[j])
}

/// Each entry of `out` occurs in `entries`.
pub open spec fn drawn_from(
    out: Seq<(Seq<char>, Seq<char>, u32)>,
    entries: Seq<(Seq<char>, Seq<char>, u32)>,
) -> bool {
    forall|k: int| 0 <= k < out.len() ==> entries.contains(#[trigger] out[k])
}

/// No entry of `entries` outweighs the entry of `out` with its key.
pub open spec fn heaviest(
    out: Seq<(Seq<char>, Seq<char>, u32)>,
    entries: Seq<(Seq<char>, Seq<char>, u32)>,
) -> bool {
    forall|k: int, m: int|
        0 <= k < out.len() && 0 <= m < entries.len() && #[trigger] same_key(entries[m], out[k])
            ==> entries[m].2 <= out[k].2
}

/// `out` has an entry with the key of `entry`.
pub open spec fn has_key(out: Seq<(Seq<char>, Seq<char>, u32)>, entry: (Seq<char>, Seq<char>, u32)) -> bool {
    exists|k: int| 0 <= k < out.len() && #[trigger] same_key(out[k], entry)
}

/// Every key of `entries` has an entry in `out`.
#[verifier::opaque]
pub open spec fn covers(
    out: Seq<(Seq<char>, Seq<char>, u32)>,
    entries: Seq<(Seq<char>, Seq<char>, u32)>,
) -> bool {
    forall|m: int| 0 <= m < entries.len() ==> has_key(out, #[trigger] entries[m])
}

/// `out` merges `entries`: its keys strictly increase, each of its entries occurs in
/// `entries` with the largest weight of its key there, and every key of `entries` is in it.
pub open spec fn is_merge_of(
    out: Seq<(Seq<char>, Seq<char>, u32)>,
    entries: Seq<(Seq<char>, Seq<char>, u32)>,
) -> bool {
    &&& keys_increasing(out)
    &&& drawn_from(out, entries)
    &&& heaviest(out, entries)
    &&& covers(out, entries)
}

/// No entry of `entries` sorts before one in front of it.
pub open spec fn is_sorted(entries: Seq<(Seq<char>, Seq<char>, u32)>) -> bool {
    forall|i: int, j: int| 0 <= i < j < entries.len() ==> !key_less(#[trigger] entries[j], #[trigger] entries[i])
}

/// A merge of some entries is a merge of any rearrangement of them.
proof fn lemma_merge_rearranged(
    out: Seq<(Seq<char>, Seq<char>, u32)>,
    sorted: Seq<(Seq<char>, Seq<char>, u32)>,
    entries: Seq<(Seq<char>, Seq<char>, u32)>,
)
    requires
        is_merge_of(out, sorted),
        sorted.to_multiset() == entries.to_multiset(),
    ensures
        is_merge_of(out, entries),
{
    broadcast use vstd::seq_lib::to_multiset_contains;

    reveal(covers);
    assert forall|x: (Seq<char>, Seq<char>, u32)| entries.contains(x) <==> sorted.contains(x) by {
        assert(sorted.contains(x) <==> sorted.to_multiset().count(x) > 0);
        assert(entries.contains(x) <==> entries.to_multiset().count(x) > 0);
    }
    assert(drawn_from(out, entries)) by {
        assert forall|k: int| 0 <= k < out.len() implies entries.contains(#[trigger] out[k]) by {
            assert(sorted.contains(out[k]));
        }
    }
    assert(heaviest(out, entries)) by {
        assert forall|k: int, m: int|
            0 <= k < out.len() && 0 <= m < entries.len() && #[trigger] same_key(entries[m], out[k]) implies
            entries[m].2 <= out[k].2 by {
            assert(entries.contains(entries[m]));
            assert(sorted.contains(entries[m]));
            let n = choose|n: int| 0 <= n < sorted.len() && sorted[n] == entries[m];
            assert(same_key(sorted[n], out[k]));
        }
    }
    assert(covers(out, entries)) by {
        assert forall|m: int| 0 <= m < entries.len() implies has_key(out, #[trigger] entries[m]) by {
            assert(entries.contains(entries[m]));
            assert(sorted.contains(entries[m]));
            let n = choose|n: int| 0 <= n < sorted.len() && sorted[n] == entries[m];
            assert(sorted[n] == entries[m]);
            let k = choose|k: int| 0 <= k < out.len() && #[trigger] same_key(out[k], sorted[n]);
            assert(same_key(out[k], entries[m]));
        }
    }
}

/// `out` merges the first `done` entries of the sorted `s`, and every key it holds sorts before
/// the remaining entries.
pub open spec fn merges_prefix(
    out: Seq<(Seq<char>, Seq<char>, u32)>,
    s: Seq<(Seq<char>, Seq<char>, u32)>,
    done: int,
) -> bool {
    &&& 0 <= done <= s.len()
    &&& is_merge_of(out, s.take(done))
    &&& forall|k: int, m: int| 0 <= k < out.len() && done <= m < s.len() ==> key_less(#[trigger] out[k], #[trigger] s[m])
}

/// Closing the group `i..j` of equal keys, represented by its heaviest entry `best`, extends
/// the merge from `i` to `j`.
proof fn lemma_merge_group(
    out: Seq<(Seq<char>, Seq<char>, u32)>,
    s: Seq<(Seq<char>, Seq<char>, u32)>,
    i: int,
    j: int,
    best: int,
)
    requires
        is_sorted(s),
        0 <= i <= best < j <= s.len(),
        forall|m: int| i <= m < j ==> #[trigger] same_key(s[m], s[i]),
        forall|m: int| i <= m < j ==> #[trigger] s[m].2 <= s[best].2,
        j == s.len() || !same_key(s[i], s[j]),
        merges_prefix(out, s, i),
    ensures
        merges_prefix(out.push(s[best]), s, j),
{
    reveal(covers);
    let here = s[i];
    let next = out.push(s[best]);
    let before = s.take(i);
    let after = s.take(j);
    assert(same_key(s[best], here));
    assert forall|m: int| j <= m < s.len() implies key_less(here, #[trigger] s[m]) by {
        lemma_key_less_order(here, s[j], s[m]);
        lemma_key_less_order(s[j], s[m], here);
        if m > j {
            assert(!key_less(s[m], s[j]));
        }
    }
    assert(keys_increasing(next)) by {
        assert forall|a: int, b: int| 0 <= a < b < next.len() implies key_less(#[trigger] next[a], #[trigger] next[b]) by {
            if b == out.len() {
                assert(key_less(out[a], s[i]));
            } else {
                assert(next[a] == out[a] && next[b] == out[b]);
            }
        }
    }
    assert(drawn_from(next, after)) by {
        assert forall|k: int| 0 <= k < next.len() implies after.contains(#[trigger] next[k]) by {
            if k < out.len() {
                assert(next[k] == out[k]);
                assert(before.contains(out[k]));
                let x = choose|x: int| 0 <= x < before.len() && before[x] == out[k];
                assert(after[x] == out[k]);
            } else {
                assert(after[best] == next[k]);
            }
        }
    }
    assert(heaviest(next, after)) by {
        assert forall|k: int, m: int|
            0 <= k < next.len() && 0 <= m < after.len() && #[trigger] same_key(after[m], next[k]) implies
            after[m].2 <= next[k].2 by {
            assert(after[m] == s[m]);
            if k < out.len() {
                assert(next[k] == out[k]);
                if m >= i {
                    assert(key_less(out[k], s[m]));
                    lemma_key_less_order(out[k], s[m], s[m]);
                } else {
                    assert(before[m] == s[m]);
                    assert(same_key(before[m], out[k]));
                }
            } else {
                if m < i {
                    assert(before[m] == s[m]);
                    let k2 = choose|k2: int| 0 <= k2 < out.len() && #[trigger] same_key(out[k2], before[m]);
                    assert(key_less(out[k2], here));
                    lemma_key_less_order(here, here, here);
                }
            }
        }
    }
    assert(covers(next, after)) by {
        assert forall|m: int| 0 <= m < after.len() implies has_key(next, #[trigger] after[m]) by {
            assert(after[m] == s[m]);
            if m < i {
                assert(before[m] == s[m]);
                let k2 = choose|k2: int| 0 <= k2 < out.len() && #[trigger] same_key(out[k2], before[m]);
                assert(next[k2] == out[k2]);
                assert(same_key(next[k2], after[m]));
            } else {
                assert(same_key(s[m], s[i]));
                assert(same_key(next[out.len() as int], after[m]));
            }
        }
    }
    assert forall|k: int, m: int| 0 <= k < next.len() && j <= m < s.len() implies key_less(
        #[trigger] next[k],
        #[trigger] s[m],
    ) by {
        if k == out.len() {
            assert(key_less(here, s[m]));
        } else {
            assert(next[k] == out[k]);
        }
    }
}

/// Merge sorted entries: one entry per key, with the largest weight of that key.
fn merge_sorted(sorted: &Vec<LineEntry>) -> (result: Vec<RimeEntry>)
    requires
        is_sorted(sorted@.map_values(|e: LineEntry| line_entry_view(e))),
    ensures
        is_merge_of(
            result@.map_values(|e: RimeEntry| entry_view(e)),
            sorted@.map_values(|e: LineEntry| line_entry_view(e)),
        ),
{
    let ghost s = sorted@.map_values(|e: LineEntry| line_entry_view(e));
    let n = sorted.len();
    let mut out: Vec<RimeEntry> = Vec::new();
    let mut i: usize = 0;
    assert(s.take(0) =~= Seq::<(Seq<char>, Seq<char>, u32)>::empty());
    proof {
        reveal(covers);
    }
    assert(merges_prefix(out@.map_values(|e: RimeEntry| entry_view(e)), s, 0));
    while i < n
        invariant
            n == s.len(),
            s == sorted@.map_values(|e: LineEntry| line_entry_view(e)),
            is_sorted(s),
            i <= n,
            merges_prefix(out@.map_values(|e: RimeEntry| entry_view(e)), s, i as int),
        decreases n - i,
    {
        let mut weight: u32 = sorted[i].weight;
        let ghost mut best: int = i as int;
        let mut j: usize = i + 1;
        while j < n && chars_equal(&sorted[i].word, &sorted[j].word) && chars_equal(
            &sorted[i].pinyin,
            &sorted[j].pinyin,
        )
            invariant
                n == s.len(),
                s == sorted@.map_values(|e: LineEntry| line_entry_view(e)),
                i < j <= n,
                i <= best < j,
                s[best].2 == weight,
                forall|m: int| i <= m < j ==> #[trigger] same_key(s[m], s[i as int]),
                forall|m: int| i <= m < j ==> #[trigger] s[m].2 <= weight,
            decreases n - j,
        {
            if sorted[j].weight > weight {
                weight = sorted[j].weight;
                proof {
                    best = j as int;
                }
            }
            j = j + 1;
        }
        let entry = RimeEntry {
            word: string_of(&sorted[i].word),
            pinyin: string_of(&sorted[i].pinyin),
            weight,
        };
        let ghost before = out@.map_values(|e: RimeEntry| entry_view(e));
        proof {
            assert(j == n || !same_key(s[i as int], s[j as int]));
            lemma_merge_group(before, s, i as int, j as int, best);
            assert(same_key(s[best], s[i as int]));
            assert(s[i as int].0 == sorted@[i as int].word@);
            assert(s[i as int].1 == sorted@[i as int].pinyin@);
            assert(entry_view(entry) == s[best]);
        }
        out.push(entry);
        assert(out@.map_values(|e: RimeEntry| entry_view(e)) =~= before.push(s[best]));
        i = j;
    }
    assert(s.take(n as int) =~= s);
    out
}

/// The entries of the lines of all `texts`, in order.
fn read_all(texts: &Vec<String>) -> (result: Vec<LineEntry>)
    ensures
        result@.map_values(|e: LineEntry| line_entry_view(e)) == all_entries(texts@.map_values(|t: String| t@)),
{
    let ghost views = texts@.map_values(|t: String| t@);
    let mut entries: Vec<LineEntry> = Vec::new();
    let mut i: usize = 0;
    assert(entries@.map_values(|e: LineEntry| line_entry_view(e)) =~= all_entries(views.take(0)));
    while i < texts.len()
        invariant
            i <= texts@.len(),
            views == texts@.map_values(|t: String| t@),
            entries@.map_values(|e: LineEntry| line_entry_view(e)) == all_entries(views.take(i as int)),
        decreases texts@.len() - i,
    {
        assert(views.take(i + 1).drop_last() =~= views.take(i as int));
        assert(views.take(i + 1).last() == texts@[i as int]@);
        read_entries(texts[i].as_str(), &mut entries);
        i = i + 1;
    }
    assert(views.take(texts@.len() as int) =~= views);
    entries
}

/// Merge TSV dictionaries: one entry per (word, pinyin) found in any line of `texts`, with the
/// largest weight it has there, sorted by word, then pinyin.
pub fn merge_tsv(texts: &Vec<String>) -> (result: Vec<RimeEntry>)
    ensures
        is_merge_of(
            result@.map_values(|e: RimeEntry| entry_view(e)),
            all_entries(texts@.map_values(|t: String| t@)),
        ),
{
    let mut entries = read_all(texts);
    let ghost unsorted = entries@.map_values(|e: LineEntry| line_entry_view(e));
    sort_entries(&mut entries);
    let merged = merge_sorted(&entries);
    proof {
        lemma_merge_rearranged(
            merged@.map_values(|e: RimeEntry| entry_view(e)),
            entries@.map_values(|e: LineEntry| line_entry_view(e)),
            unsorted,
        );
    }
    merged
}

/// The first line of a merged dictionary.
pub const TSV_HEADER: &'static str = "# 由 qingjian-dict-convert rime 从 Rime .dict.yaml 生成（雾凇拼音 iDvel/rime-ice，GPL-3.0-only）。开发测试词库，不随产品发布。词\\t音节\\t权重";

/// The character of decimal digit `digit`.
pub open spec fn digit_char(digit: nat) -> char {
    (digit + 48) as char
}

/// The decimal text of `n`, without leading zeros.
pub open spec fn decimal(n: nat) -> Seq<char>
    decreases n,
{
    if n < 10 {
        seq![digit_char(n)]
    } else {
        decimal(n / 10) + seq![digit_char(n % 10)]
    }
}

/// The line of one merged entry: `word\tpinyin\tweight\n`.
pub open spec fn entry_line(entry: (Seq<char>, Seq<char>, u32)) -> Seq<char> {
    entry.0 + seq!['\t'] + entry.1 + seq!['\t'] + decimal(entry.2 as nat) + seq!['\n']
}

/// The lines of all entries, in order.
pub open spec fn entry_lines(entries: Seq<(Seq<char>, Seq<char>, u32)>) -> Seq<char>
    decreases entries.len(),
{
    if entries.len() == 0 {
        Seq::empty()
    } else {
        entry_lines(entries.drop_last()) + entry_line(entries.last())
    }
}

/// Append the decimal text of `n`.
fn push_decimal(text: &mut String, n: u32)
    ensures
        final(text)@ == old(text)@ + decimal(n as nat),
    decreases n,
{
    if n >= 10 {
        push_decimal(text, n / 10);
    }
    let digit: u8 = (n % 10) as u8;
    let character = (digit + 48) as char;
    string_push(text, character);
    assert(character == digit_char((n % 10) as nat));
}

/// The merged dictionary as TSV text: the header line, then one line per entry.
pub fn render_tsv(entries: &Vec<RimeEntry>) -> (result: String)
    ensures
        result@ == TSV_HEADER@ + seq!['\n'] + entry_lines(entries@.map_values(|e: RimeEntry| entry_view(e))),
{
    let ghost views = entries@.map_values(|e: RimeEntry| entry_view(e));
    let mut text = String::new();
    text.append(TSV_HEADER);
    string_push(&mut text, '\n');
    let ghost head = text@;
    let mut i: usize = 0;
    assert(views.take(0) =~= Seq::<(Seq<char>, Seq<char>, u32)>::empty());
    while i < entries.len()
        invariant
            i <= entries@.len(),
            views == entries@.map_values(|e: RimeEntry| entry_view(e)),
            head == TSV_HEADER@ + seq!['\n'],
            text@ == head + entry_lines(views.take(i as int)),
        decreases entries@.len() - i,
    {
        let entry = &entries[i];
        text.append(entry.word.as_str());
        string_push(&mut text, '\t');
        text.append(entry.pinyin.as_str());
        string_push(&mut text, '\t');
        push_decimal(&mut text, entry.weight);
        string_push(&mut text, '\n');
        assert(views.take(i + 1).drop_last() =~= views.take(i as int));
        assert(views.take(i + 1).last() == entry_view(*entry));
        assert(text@ =~= head + entry_lines(views.take(i + 1)));
        i = i + 1;
    }
    assert(views.take(entries@.len() as int) =~= views);
    text
}

/// Two sequences with strictly increasing keys and the same elements are equal.
proof fn lemma_increasing_same_elements(a: Seq<(Seq<char>, Seq<char>, u32)>, b: Seq<(Seq<char>, Seq<char>, u32)>)
    requires
        keys_increasing(a),
        keys_increasing(b),
        forall|x: (Seq<char>, Seq<char>, u32)| a.contains(x) <==> b.contains(x),
    ensures
        a =~= b,
    decreases a.len(),
{
    if a.len() == 0 {
        if b.len() > 0 {
            assert(b.contains(b[0]));
        }
    } else if b.len() == 0 {
        assert(a.contains(a[0]));
    } else {
        assert(a.contains(a[0]));
        assert(b.contains(b[0]));
        let j = choose|j: int| 0 <= j < b.len() && b[j] == a[0];
        let i = choose|i: int| 0 <= i < a.len() && a[i] == b[0];
        lemma_key_less_order(a[0], b[0], a[0]);
        if j > 0 {
            assert(key_less(b[0], b[j]));
            if i > 0 {
                assert(key_less(a[0], a[i]));
            }
        }
        assert(a[0] == b[0]);
        let ra = a.drop_first();
        let rb = b.drop_first();
        assert forall|x: (Seq<char>, Seq<char>, u32)| ra.contains(x) <==> rb.contains(x) by {
            if ra.contains(x) {
                let k = choose|k: int| 0 <= k < ra.len() && ra[k] == x;
                assert(a[k + 1] == x);
                assert(key_less(a[0], a[k + 1]));
                lemma_key_less_order(x, x, x);
                assert(a.contains(x));
                let m = choose|m: int| 0 <= m < b.len() && b[m] == x;
                assert(m != 0);
                assert(rb[m - 1] == x);
            }
            if rb.contains(x) {
                let k = choose|k: int| 0 <= k < rb.len() && rb[k] == x;
                assert(b[k + 1] == x);
                assert(key_less(b[0], b[k + 1]));
                lemma_key_less_order(x, x, x);
                assert(b.contains(x));
                let m = choose|m: int| 0 <= m < a.len() && a[m] == x;
                assert(m != 0);
                assert(ra[m - 1] == x);
            }
        }
        assert(keys_increasing(ra)) by {
            assert forall|p: int, q: int| 0 <= p < q < ra.len() implies key_less(#[trigger] ra[p], #[trigger] ra[q]) by {
                assert(ra[p] == a[p + 1] && ra[q] == a[q + 1]);
            }
        }
        assert(keys_increasing(rb)) by {
            assert forall|p: int, q: int| 0 <= p < q < rb.len() implies key_less(#[trigger] rb[p], #[trigger] rb[q]) by {
                assert(rb[p] == b[p + 1] && rb[q] == b[q + 1]);
            }
        }
        lemma_increasing_same_elements(ra, rb);
        assert(a =~= seq![a[0]] + ra);
        assert(b =~= seq![b[0]] + rb);
    }
}

/// Law: the merge is fixed by which entries occur, whatever their order or repetition: two
/// merges of entry sequences holding the same elements are equal.
pub proof fn law_merge_determined_by_entries(
    out1: Seq<(Seq<char>, Seq<char>, u32)>,
    entries1: Seq<(Seq<char>, Seq<char>, u32)>,
    out2: Seq<(Seq<char>, Seq<char>, u32)>,
    entries2: Seq<(Seq<char>, Seq<char>, u32)>,
)
    requires
        is_merge_of(out1, entries1),
        is_merge_of(out2, entries2),
        forall|x: (Seq<char>, Seq<char>, u32)| entries1.contains(x) <==> entries2.contains(x),
    ensures
        out1 == out2,
{
    assert forall|x: (Seq<char>, Seq<char>, u32)| out1.contains(x) implies out2.contains(x) by {
        lemma_merged_entry_in_other(out1, entries1, out2, entries2, x);
    }
    assert forall|x: (Seq<char>, Seq<char>, u32)| out2.contains(x) implies out1.contains(x) by {
        lemma_merged_entry_in_other(out2, entries2, out1, entries1, x);
    }
    lemma_increasing_same_elements(out1, out2);
}

/// An entry of one merge is an entry of the other merge of the same elements.
proof fn lemma_merged_entry_in_other(
    out1: Seq<(Seq<char>, Seq<char>, u32)>,
    entries1: Seq<(Seq<char>, Seq<char>, u32)>,
    out2: Seq<(Seq<char>, Seq<char>, u32)>,
    entries2: Seq<(Seq<char>, Seq<char>, u32)>,
    x: (Seq<char>, Seq<char>, u32),
)
    requires
        is_merge_of(out1, entries1),
        is_merge_of(out2, entries2),
        forall|y: (Seq<char>, Seq<char>, u32)| entries1.contains(y) <==> entries2.contains(y),
        out1.contains(x),
    ensures
        out2.contains(x),
{
    let k1 = choose|k: int| 0 <= k < out1.len() && out1[k] == x;
    assert(entries1.contains(out1[k1]));
    assert(entries2.contains(x));
    let m2 = choose|m: int| 0 <= m < entries2.len() && entries2[m] == x;
    assert(has_key(out2, entries2[m2])) by {
        reveal(covers);
    }
    let k2 = choose|k: int| 0 <= k < out2.len() && #[trigger] same_key(out2[k], entries2[m2]);
    let y = out2[k2];
    // `y` weighs at least `x`: `x` occurs in `entries2` with its key.
    assert(same_key(entries2[m2], out2[k2]));
    assert(x.2 <= y.2);
    // `x` weighs at least `y`: `y` occurs in `entries1` with its key.
    assert(entries2.contains(out2[k2]));
    assert(entries1.contains(y));
    let m1 = choose|m: int| 0 <= m < entries1.len() && entries1[m] == y;
    assert(same_key(entries1[m1], out1[k1]));
    assert(y.2 <= x.2);
    assert(y == x);
    assert(out2[k2] == x);
}

/// Law: merging dictionaries does not depend on their order, and a dictionary given twice
/// counts once.
pub proof fn law_merge_ignores_order_and_repetition(
    a: Seq<char>,
    b: Seq<char>,
    out_ab: Seq<(Seq<char>, Seq<char>, u32)>,
    out_ba: Seq<(Seq<char>, Seq<char>, u32)>,
    out_aa: Seq<(Seq<char>, Seq<char>, u32)>,
    out_a: Seq<(Seq<char>, Seq<char>, u32)>,
)
    requires
        is_merge_of(out_ab, all_entries(seq![a, b])),
        is_merge_of(out_ba, all_entries(seq![b, a])),
        is_merge_of(out_aa, all_entries(seq![a, a])),
        is_merge_of(out_a, all_entries(seq![a])),
    ensures
        out_ab == out_ba,
        out_aa == out_a,
{
    let ta = text_entries_from(a, 0);
    let tb = text_entries_from(b, 0);
    assert(seq![a, b].drop_last() =~= seq![a]);
    assert(seq![b, a].drop_last() =~= seq![b]);
    assert(seq![a, a].drop_last() =~= seq![a]);
    assert(seq![a].drop_last() =~= Seq::<Seq<char>>::empty());
    assert(seq![b].drop_last() =~= Seq::<Seq<char>>::empty());
    assert(seq![a].last() == a);
    assert(seq![b].last() == b);
    assert(seq![a, b].last() == b);
    assert(seq![b, a].last() == a);
    assert(seq![a, a].last() == a);
    assert(all_entries(Seq::<Seq<char>>::empty()) =~= Seq::<(Seq<char>, Seq<char>, u32)>::empty());
    assert(all_entries(seq![a]) =~= ta);
    assert(all_entries(seq![b]) =~= tb);
    assert(all_entries(seq![a, b]) =~= ta + tb);
    assert(all_entries(seq![b, a]) =~= tb + ta);
    assert(all_entries(seq![a, a]) =~= ta + ta);
    assert forall|x: (Seq<char>, Seq<char>, u32)| (ta + tb).contains(x) <==> (tb + ta).contains(x) by {
        lemma_concat_contains(ta, tb, x);
        lemma_concat_contains(tb, ta, x);
    }
    assert forall|x: (Seq<char>, Seq<char>, u32)| (ta + ta).contains(x) <==> ta.contains(x) by {
        lemma_concat_contains(ta, ta, x);
    }
    law_merge_determined_by_entries(out_ab, ta + tb, out_ba, tb + ta);
    law_merge_determined_by_entries(out_aa, ta + ta, out_a, ta);
}

/// An element of a concatenation lies in one of its parts.
proof fn lemma_concat_contains(
    s: Seq<(Seq<char>, Seq<char>, u32)>,
    t: Seq<(Seq<char>, Seq<char>, u32)>,
    x: (Seq<char>, Seq<char>, u32),
)
    ensures
        (s + t).contains(x) <==> (s.contains(x) || t.contains(x)),
{
    if (s + t).contains(x) {
        let k = choose|k: int| 0 <= k < (s + t).len() && (s + t)[k] == x;
        if k < s.len() {
            assert(s[k] == x);
        } else {
            assert(t[k - s.len()] == x);
        }
    }
    if s.contains(x) {
        let k = choose|k: int| 0 <= k < s.len() && s[k] == x;
        assert((s + t)[k] == x);
    }
    if t.contains(x) {
        let k = choose|k: int| 0 <= k < t.len() && t[k] == x;
        assert((s + t)[s.len() + k] == x);
    }
}

/// `at` is the first `c` at or after `from` when it holds `c` and nothing before it does.
proof fn lemma_next_index_at(text: Seq<char>, from: int, at: int, c: char)
    requires
        0 <= from <= at < text.len(),
        text[at] == c,
        forall|j: int| from <= j < at ==> text[j] != c,
    ensures
        next_index_of(text, from, c) == Some(at),
{
    lemma_next_index_of(text, from, c);
    match next_index_of(text, from, c) {
        Some(i) => {
            if i > at {
                assert(text[at] != c);
            }
        },
        None => {
            assert(text[at] != c);
        },
    }
}

/// No `c` at or after `from`: nothing is found.
proof fn lemma_next_index_none(text: Seq<char>, from: int, c: char)
    requires
        0 <= from,
        forall|j: int| from <= j < text.len() ==> text[j] != c,
    ensures
        next_index_of(text, from, c) is None,
{
    lemma_next_index_of(text, from, c);
}

/// The lines of `b` read after a prefix `a` are the lines of `b` read alone.
proof fn lemma_entries_after_prefix(a: Seq<char>, b: Seq<char>, k: int)
    requires
        0 <= k,
    ensures
        text_entries_from(a + b, a.len() + k) == text_entries_from(b, k),
    decreases b.len() - k,
{
    let t = a + b;
    let from = a.len() + k;
    if k < b.len() {
        lemma_next_index_of(b, k, '\n');
        match next_index_of(b, k, '\n') {
            Some(end) => {
                assert forall|j: int| from <= j < a.len() + end implies t[j] != '\n' by {
                    assert(t[j] == b[j - a.len()]);
                }
                lemma_next_index_at(t, from, a.len() + end, '\n');
                assert(t.subrange(from, a.len() + end) =~= b.subrange(k, end));
                lemma_entries_after_prefix(a, b, end + 1);
            },
            None => {
                assert forall|j: int| from <= j < t.len() implies t[j] != '\n' by {
                    assert(t[j] == b[j - a.len()]);
                }
                lemma_next_index_none(t, from, '\n');
                assert(t.subrange(from, t.len() as int) =~= b.subrange(k, b.len() as int));
                assert(text_entries_from(t, t.len() as int) =~= Seq::<(Seq<char>, Seq<char>, u32)>::empty());
                assert(text_entries_from(b, b.len() as int) =~= Seq::<(Seq<char>, Seq<char>, u32)>::empty());
            },
        }
    }
}

/// From a position inside `a`, which is empty or ends in a newline, the lines of `a + b` are
/// those of `a` from there, then those of `b`.
proof fn lemma_entries_split(a: Seq<char>, b: Seq<char>, i: int)
    requires
        0 <= i <= a.len(),
        a.len() == 0 || a.last() == '\n',
    ensures
        text_entries_from(a + b, i) == text_entries_from(a, i) + text_entries_from(b, 0),
    decreases a.len() - i,
{
    let t = a + b;
    if i == a.len() {
        lemma_entries_after_prefix(a, b, 0);
        assert(text_entries_from(a, i) =~= Seq::<(Seq<char>, Seq<char>, u32)>::empty());
        assert(text_entries_from(a, i) + text_entries_from(b, 0) =~= text_entries_from(b, 0));
    } else {
        lemma_next_index_of(a, i, '\n');
        assert(a[a.len() - 1] == '\n');
        let end = next_index_of(a, i, '\n')->0;
        assert forall|j: int| i <= j < end implies t[j] != '\n' by {
            assert(t[j] == a[j]);
        }
        lemma_next_index_at(t, i, end, '\n');
        assert(t.subrange(i, end) =~= a.subrange(i, end));
        lemma_entries_split(a, b, end + 1);
        let line = strip_cr(a.subrange(i, end));
        let here = match entry_of_line(line) {
            Some(entry) => seq![entry],
            None => Seq::<(Seq<char>, Seq<char>, u32)>::empty(),
        };
        assert(text_entries_from(t, i) == here + text_entries_from(t, end + 1));
        assert(text_entries_from(a, i) == here + text_entries_from(a, end + 1));
        assert(here + (text_entries_from(a, end + 1) + text_entries_from(b, 0)) =~= (here
            + text_entries_from(a, end + 1)) + text_entries_from(b, 0));
    }
}

/// The entry a text without a newline gives, as a sequence of at most one entry.
pub open spec fn line_entries(line: Seq<char>) -> Seq<(Seq<char>, Seq<char>, u32)> {
    match entry_of_line(line) {
        Some(entry) => seq![entry],
        None => Seq::empty(),
    }
}

/// A text without a newline is one line, whether or not anything follows it.
proof fn lemma_entries_single_line(t: Seq<char>)
    requires
        forall|j: int| 0 <= j < t.len() ==> t[j] != '\n',
    ensures
        text_entries_from(t, 0) == line_entries(t),
{
    if t.len() > 0 {
        lemma_next_index_none(t, 0, '\n');
        assert(t.subrange(0, t.len() as int) =~= t);
        assert(text_entries_from(t, t.len() as int) =~= Seq::<(Seq<char>, Seq<char>, u32)>::empty());
        assert(line_entries(t) + Seq::<(Seq<char>, Seq<char>, u32)>::empty() =~= line_entries(t));
    } else {
        assert(entry_of_line(t) is None);
        assert(text_entries_from(t, 0) =~= line_entries(t));
    }
}

/// Law: two texts joined where the first one ends a line (it is empty or ends in a newline)
/// give the entries of the first, then those of the second.
pub proof fn law_lines_concatenate(a: Seq<char>, b: Seq<char>)
    requires
        a.len() == 0 || a.last() == '\n',
    ensures
        text_entries_from(a + b, 0) == text_entries_from(a, 0) + text_entries_from(b, 0),
{
    lemma_entries_split(a, b, 0);
}

/// Law: the last line of a text is read like any other line, whether a newline ends it or not:
/// after whole lines `s` (empty, or ending in a newline), a last line `t` without a newline
/// adds exactly the entry it gives, and a merge of that text holds it.
pub proof fn law_last_line_read(s: Seq<char>, t: Seq<char>)
    requires
        s.len() == 0 || s.last() == '\n',
        forall|j: int| 0 <= j < t.len() ==> t[j] != '\n',
    ensures
        text_entries_from(s + t, 0) == text_entries_from(s, 0) + line_entries(t),
        text_entries_from(s + t + seq!['\n'], 0) == text_entries_from(s, 0) + line_entries(strip_cr(t)),
        entry_of_line(t) matches Some(entry) ==> all_entries(seq![s + t]).contains(entry),
{
    lemma_entries_split(s, t, 0);
    lemma_entries_single_line(t);
    let u = t + seq!['\n'];
    assert(s + t + seq!['\n'] =~= s + u);
    lemma_entries_split(s, u, 0);
    lemma_next_index_at(u, 0, t.len() as int, '\n');
    assert(u.subrange(0, t.len() as int) =~= t);
    assert(text_entries_from(u, u.len() as int) =~= Seq::<(Seq<char>, Seq<char>, u32)>::empty());
    assert(text_entries_from(u, 0) =~= line_entries(strip_cr(t)));
    assert(seq![s + t].drop_last() =~= Seq::<Seq<char>>::empty());
    assert(seq![s + t].last() == s + t);
    assert(all_entries(Seq::<Seq<char>>::empty()) =~= Seq::<(Seq<char>, Seq<char>, u32)>::empty());
    assert(all_entries(seq![s + t]) =~= text_entries_from(s + t, 0));
    if entry_of_line(t) is Some {
        let entry = entry_of_line(t)->0;
        let all = text_entries_from(s, 0) + line_entries(t);
        assert(all[text_entries_from(s, 0).len() as int] == entry);
    }
}

/// Law: a line `word<TAB>pinyin<TAB>weight` gives its word, its pinyin and the weight its
/// third field reads as; a line `word<TAB>pinyin` gives weight 1; a line without a tab gives
/// none; the line alone, with no newline after it or with `\r\n`, gives exactly that entry.
pub proof fn law_line_fields(word: Seq<char>, pinyin: Seq<char>, weight: Seq<char>)
    requires
        forall|j: int| 0 <= j < word.len() ==> word[j] != '\t' && word[j] != '\n',
        forall|j: int| 0 <= j < pinyin.len() ==> pinyin[j] != '\t' && pinyin[j] != '\n',
        forall|j: int| 0 <= j < weight.len() ==> weight[j] != '\t' && weight[j] != '\n',
    ensures
        entry_of_line(word + seq!['\t'] + pinyin + seq!['\t'] + weight) == Some(
            (word, pinyin, weight_of(weight)),
        ),
        entry_of_line(word + seq!['\t'] + pinyin) == Some((word, pinyin, 1u32)),
        text_entries_from(word + seq!['\t'] + pinyin + seq!['\t'] + weight, 0) == seq![
            (word, pinyin, weight_of(weight)),
        ],
        text_entries_from(word + seq!['\t'] + pinyin + seq!['\t'] + weight + seq!['\r', '\n'], 0) == seq![
            (word, pinyin, weight_of(weight)),
        ],
        entry_of_line(word) is None,
{
    lemma_three_fields(word, pinyin, weight);
    lemma_two_fields(word, pinyin);
    lemma_next_index_none(word, 0, '\t');
    let line = word + seq!['\t'] + pinyin + seq!['\t'] + weight;
    lemma_entries_single_line(line);
    lemma_crlf_line(line);
    assert(line_entries(line) == seq![(word, pinyin, weight_of(weight))]);
}

/// A line ended by `\r\n` reads as the line alone.
proof fn lemma_crlf_line(line: Seq<char>)
    requires
        forall|j: int| 0 <= j < line.len() ==> line[j] != '\n',
    ensures
        text_entries_from(line + seq!['\r', '\n'], 0) == line_entries(line),
{
    let ended = line + seq!['\r'];
    assert forall|j: int| 0 <= j < ended.len() implies ended[j] != '\n' by {
        if j < line.len() {
            assert(ended[j] == line[j]);
        }
    }
    law_last_line_read(Seq::<char>::empty(), ended);
    assert(Seq::<char>::empty() + ended + seq!['\n'] =~= line + seq!['\r', '\n']);
    assert(strip_cr(ended) =~= line);
    assert(text_entries_from(Seq::<char>::empty(), 0) =~= Seq::<(Seq<char>, Seq<char>, u32)>::empty());
    assert(Seq::<(Seq<char>, Seq<char>, u32)>::empty() + line_entries(line) =~= line_entries(line));
}

/// The fields of a line with three fields, which holds no newline.
proof fn lemma_three_fields(word: Seq<char>, pinyin: Seq<char>, weight: Seq<char>)
    requires
        forall|j: int| 0 <= j < word.len() ==> word[j] != '\t' && word[j] != '\n',
        forall|j: int| 0 <= j < pinyin.len() ==> pinyin[j] != '\t' && pinyin[j] != '\n',
        forall|j: int| 0 <= j < weight.len() ==> weight[j] != '\t' && weight[j] != '\n',
    ensures
        entry_of_line(word + seq!['\t'] + pinyin + seq!['\t'] + weight) == Some(
            (word, pinyin, weight_of(weight)),
        ),
        forall|j: int|
            0 <= j < (word + seq!['\t'] + pinyin + seq!['\t'] + weight).len() ==> (word + seq!['\t'] + pinyin
                + seq!['\t'] + weight)[j] != '\n',
{
    let a = word.len() as int;
    let b = pinyin.len() as int;
    let line = word + seq!['\t'] + pinyin + seq!['\t'] + weight;
    assert forall|j: int| 0 <= j < a implies line[j] != '\t' by {
        assert(line[j] == word[j]);
    }
    lemma_next_index_at(line, 0, a, '\t');
    assert forall|j: int| a + 1 <= j < a + 1 + b implies line[j] != '\t' by {
        assert(line[j] == pinyin[j - a - 1]);
    }
    lemma_next_index_at(line, a + 1, a + 1 + b, '\t');
    assert forall|j: int| a + b + 2 <= j < line.len() implies line[j] != '\t' by {
        assert(line[j] == weight[j - a - b - 2]);
    }
    lemma_next_index_none(line, a + b + 2, '\t');
    assert(line.subrange(0, a) =~= word);
    assert(line.subrange(a + 1, a + 1 + b) =~= pinyin);
    assert(line.subrange(a + b + 2, line.len() as int) =~= weight);
    assert forall|j: int| 0 <= j < line.len() implies line[j] != '\n' by {
        if j < a {
            assert(line[j] == word[j]);
        } else if j == a {
        } else if j < a + 1 + b {
            assert(line[j] == pinyin[j - a - 1]);
        } else if j == a + 1 + b {
        } else {
            assert(line[j] == weight[j - a - b - 2]);
        }
    }
}

/// The fields of a line with two fields.
proof fn lemma_two_fields(word: Seq<char>, pinyin: Seq<char>)
    requires
        forall|j: int| 0 <= j < word.len() ==> word[j] != '\t',
        forall|j: int| 0 <= j < pinyin.len() ==> pinyin[j] != '\t',
    ensures
        entry_of_line(word + seq!['\t'] + pinyin) == Some((word, pinyin, 1u32)),
{
    let a = word.len() as int;
    let short = word + seq!['\t'] + pinyin;
    assert forall|j: int| 0 <= j < a implies short[j] != '\t' by {
        assert(short[j] == word[j]);
    }
    lemma_next_index_at(short, 0, a, '\t');
    assert forall|j: int| a + 1 <= j < short.len() implies short[j] != '\t' by {
        assert(short[j] == pinyin[j - a - 1]);
    }
    lemma_next_index_none(short, a + 1, '\t');
    assert(short.subrange(0, a) =~= word);
    assert(short.subrange(a + 1, short.len() as int) =~= pinyin);
}

/// A field that stays one field of one line: it holds no tab and no line break.
pub open spec fn plain_field(field: Seq<char>) -> bool {
    forall|j: int| 0 <= j < field.len() ==> field[j] != '\t' && field[j] != '\n'
}

/// The decimal text of `n` is a run of digits that reads back as `n`.
proof fn lemma_decimal_reads_back(n: nat)
    ensures
        decimal(n).len() > 0,
        all_digits(decimal(n)),
        digits_value(decimal(n)) == n,
    decreases n,
{
    if n < 10 {
        let d = decimal(n);
        assert(digit_char(n) as int == n + 48);
        assert('0' as int == 48);
        assert(d.drop_last() =~= Seq::<char>::empty());
        assert(digits_value(d.drop_last()) == 0);
        assert(d.last() == digit_char(n));
        assert(digits_value(d) == digits_value(d.drop_last()) * 10 + ((d.last() as int - '0' as int) as nat));
        assert(digits_value(d) == n);
    } else {
        lemma_decimal_reads_back(n / 10);
        let d = decimal(n);
        assert(d.drop_last() =~= decimal(n / 10));
        assert(d.last() == digit_char(n % 10));
        assert(digit_char(n % 10) as int == n % 10 + 48);
        assert('0' as int == 48);
        assert(digits_value(d) == digits_value(d.drop_last()) * 10 + ((d.last() as int - '0' as int) as nat));
        assert(n == (n / 10) * 10 + n % 10) by (nonlinear_arith);
        assert(digits_value(d.drop_last()) == n / 10);
        assert((d.last() as int - '0' as int) as nat == n % 10);
        assert(digits_value(d) == n);
        assert forall|j: int| 0 <= j < decimal(n).len() implies is_digit(#[trigger] decimal(n)[j]) by {
            if j < decimal(n / 10).len() {
                assert(decimal(n)[j] == decimal(n / 10)[j]);
            }
        }
    }
}

/// The weight field of a rendered line reads back as the weight.
proof fn lemma_weight_reads_back(weight: u32)
    ensures
        weight_of(decimal(weight as nat)) == weight,
        plain_field(decimal(weight as nat)),
        decimal(weight as nat).last() != '\r',
{
    lemma_decimal_reads_back(weight as nat);
    let digits = decimal(weight as nat);
    assert(is_digit(digits[0]));
    assert(without_plus(digits) == digits);
    assert forall|j: int| 0 <= j < digits.len() implies digits[j] != '\t' && digits[j] != '\n' by {
        assert(is_digit(digits[j]));
    }
    assert(is_digit(digits[digits.len() - 1]));
}

/// Rendered lines are empty or end in a newline.
proof fn lemma_entry_lines_end(entries: Seq<(Seq<char>, Seq<char>, u32)>)
    ensures
        entry_lines(entries).len() == 0 || entry_lines(entries).last() == '\n',
    decreases entries.len(),
{
    if entries.len() > 0 {
        let line = entry_line(entries.last());
        assert(entry_lines(entries) == entry_lines(entries.drop_last()) + line);
        assert(line.last() == '\n');
    }
}

/// Reading one rendered line gives back its entry.
proof fn lemma_entry_line_reads_back(entry: (Seq<char>, Seq<char>, u32))
    requires
        plain_field(entry.0),
        plain_field(entry.1),
    ensures
        text_entries_from(entry_line(entry), 0) == seq![entry],
{
    let (word, pinyin, weight) = entry;
    let digits = decimal(weight as nat);
    lemma_weight_reads_back(weight);
    law_line_fields(word, pinyin, digits);
    let line = word + seq!['\t'] + pinyin + seq!['\t'] + digits;
    let a = word.len() as int;
    let b = pinyin.len() as int;
    assert forall|j: int| 0 <= j < line.len() implies line[j] != '\n' by {
        if j < a {
            assert(line[j] == word[j]);
        } else if j == a {
        } else if j < a + 1 + b {
            assert(line[j] == pinyin[j - a - 1]);
        } else if j == a + 1 + b {
        } else {
            assert(line[j] == digits[j - a - b - 2]);
        }
    }
    assert(line.last() == digits.last());
    assert(strip_cr(line) == line);
    law_last_line_read(Seq::<char>::empty(), line);
    assert(Seq::<char>::empty() + line =~= line);
    assert(entry_line(entry) =~= line + seq!['\n']);
    assert(text_entries_from(Seq::<char>::empty(), 0) =~= Seq::<(Seq<char>, Seq<char>, u32)>::empty());
    assert(line_entries(line) =~= seq![entry]);
    assert(Seq::<(Seq<char>, Seq<char>, u32)>::empty() + seq![entry] =~= seq![entry]);
}

/// Reading rendered entry lines gives back the entries.
proof fn lemma_entry_lines_read_back(entries: Seq<(Seq<char>, Seq<char>, u32)>)
    requires
        forall|k: int| 0 <= k < entries.len() ==> plain_field(#[trigger] entries[k].0) && plain_field(entries[k].1),
    ensures
        text_entries_from(entry_lines(entries), 0) == entries,
    decreases entries.len(),
{
    if entries.len() == 0 {
        assert(entry_lines(entries) =~= Seq::<char>::empty());
        assert(text_entries_from(entry_lines(entries), 0) =~= entries);
    } else {
        let prefix = entries.drop_last();
        assert forall|k: int| 0 <= k < prefix.len() implies plain_field(#[trigger] prefix[k].0) && plain_field(
            prefix[k].1,
        ) by {
            assert(prefix[k] == entries[k]);
        }
        lemma_entry_lines_read_back(prefix);
        lemma_entry_lines_end(prefix);
        let last = entries.last();
        assert(plain_field(entries[entries.len() - 1].0));
        lemma_entry_line_reads_back(last);
        law_lines_concatenate(entry_lines(prefix), entry_line(last));
        assert(entries =~= prefix + seq![last]);
    }
}

/// The header line gives no entry.
proof fn lemma_header_gives_nothing()
    ensures
        text_entries_from(TSV_HEADER@ + seq!['\n'], 0) == Seq::<(Seq<char>, Seq<char>, u32)>::empty(),
{
    let header = TSV_HEADER@;
    reveal_strlit("# 由 qingjian-dict-convert rime 从 Rime .dict.yaml 生成（雾凇拼音 iDvel/rime-ice，GPL-3.0-only）。开发测试词库，不随产品发布。词\\t音节\\t权重");
    assert(plain_field(header));
    lemma_next_index_none(header, 0, '\t');
    assert(entry_of_line(header) is None);
    law_last_line_read(Seq::<char>::empty(), header);
    assert(Seq::<char>::empty() + header =~= header);
    assert(strip_cr(header) == header);
    assert(text_entries_from(Seq::<char>::empty(), 0) =~= Seq::<(Seq<char>, Seq<char>, u32)>::empty());
    assert(line_entries(header) =~= Seq::<(Seq<char>, Seq<char>, u32)>::empty());
}

/// Law: reading a rendered dictionary gives back its entries, in order, when no word or pinyin
/// holds a tab or a line break: the header line gives no entry, and each entry line gives its
/// entry, weight included.
pub proof fn law_render_reads_back(entries: Seq<(Seq<char>, Seq<char>, u32)>)
    requires
        forall|k: int| 0 <= k < entries.len() ==> plain_field(#[trigger] entries[k].0) && plain_field(entries[k].1),
    ensures
        text_entries_from(entry_lines(entries), 0) == entries,
        text_entries_from(TSV_HEADER@ + seq!['\n'] + entry_lines(entries), 0) == entries,
{
    lemma_entry_lines_read_back(entries);
    lemma_header_gives_nothing();
    law_lines_concatenate(TSV_HEADER@ + seq!['\n'], entry_lines(entries));
    assert(Seq::<(Seq<char>, Seq<char>, u32)>::empty() + entries =~= entries);
}

/// Law: fields after the third are ignored: `word<TAB>pinyin<TAB>weight<TAB>rest` gives the
/// same entry as `word<TAB>pinyin<TAB>weight`, whatever `rest` holds.
pub proof fn law_extra_fields_ignored(word: Seq<char>, pinyin: Seq<char>, weight: Seq<char>, rest: Seq<char>)
    requires
        forall|j: int| 0 <= j < word.len() ==> word[j] != '\t',
        forall|j: int| 0 <= j < pinyin.len() ==> pinyin[j] != '\t',
        forall|j: int| 0 <= j < weight.len() ==> weight[j] != '\t',
    ensures
        entry_of_line(word + seq!['\t'] + pinyin + seq!['\t'] + weight + seq!['\t'] + rest) == Some(
            (word, pinyin, weight_of(weight)),
        ),
{
    let a = word.len() as int;
    let b = pinyin.len() as int;
    let c = weight.len() as int;
    let line = word + seq!['\t'] + pinyin + seq!['\t'] + weight + seq!['\t'] + rest;
    assert forall|j: int| 0 <= j < a implies line[j] != '\t' by {
        assert(line[j] == word[j]);
    }
    lemma_next_index_at(line, 0, a, '\t');
    assert forall|j: int| a + 1 <= j < a + 1 + b implies line[j] != '\t' by {
        assert(line[j] == pinyin[j - a - 1]);
    }
    lemma_next_index_at(line, a + 1, a + 1 + b, '\t');
    assert forall|j: int| a + b + 2 <= j < a + b + 2 + c implies line[j] != '\t' by {
        assert(line[j] == weight[j - a - b - 2]);
    }
    lemma_next_index_at(line, a + b + 2, a + b + 2 + c, '\t');
    assert(line.subrange(0, a) =~= word);
    assert(line.subrange(a + 1, a + 1 + b) =~= pinyin);
    assert(line.subrange(a + b + 2, a + b + 2 + c) =~= weight);
}

} // verus!
