//! Text helpers shared by the session and the dictionary merge.
use vstd::prelude::*;

verus! {

/// `String::push` from std: appends one character.
#[verifier::external_body]
pub(crate) fn string_push(text: &mut String, character: char)
    ensures
        final(text)@ == old(text)@.push(character),
{
    text.push(character);
}

/// Text as the C side receives it: a text holding a NUL character cannot cross as a
/// C string and becomes empty.
pub open spec fn spec_c_text(text: Seq<char>) -> Seq<char> {
    if text.contains('\0') {
        Seq::empty()
    } else {
        text
    }
}

/// Whether `text` holds the character `needle`.
pub fn contains_char(text: &str, needle: char) -> (result: bool)
    ensures
        result == text@.contains(needle),
{
    let len = text.unicode_len();
    let mut i: usize = 0;
    while i < len
        invariant
            len == text@.len(),
            i <= len,
            forall|j: int| 0 <= j < i ==> text@[j] != needle,
        decreases len - i,
    {
        if text.get_char(i) == needle {
            return true;
        }
        i = i + 1;
    }
    false
}

/// The text that crosses to the C side: `text`, or empty when it holds a NUL.
pub fn c_text(text: &str) -> (result: String)
    ensures
        result@ == spec_c_text(text@),
{
    if contains_char(text, '\0') {
        String::new()
    } else {
        text.to_owned()
    }
}

/// The characters of `text`, in order.
pub fn chars_of(text: &str) -> (result: Vec<char>)
    ensures
        result@ == text@,
{
    let mut out: Vec<char> = Vec::new();
    for c in iter: text.chars()
        invariant
            out@ == iter.seq().take(iter.index() as int),
            iter.seq() == text@,
    {
        out.push(c);
    }
    out
}

/// The text of a sequence of characters.
pub fn string_of(chars: &Vec<char>) -> (result: String)
    ensures
        result@ == chars@,
{
    let mut text = String::new();
    let mut i: usize = 0;
    while i < chars.len()
        invariant
            i <= chars@.len(),
            text@ == chars@.take(i as int),
        decreases chars@.len() - i,
    {
        string_push(&mut text, chars[i]);
        assert(chars@.take(i + 1) =~= chars@.take(i as int).push(chars@[i as int]));
        i = i + 1;
    }
    assert(chars@.take(chars@.len() as int) =~= chars@);
    text
}

} // verus!
