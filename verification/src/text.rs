//! Building strings from characters.

use vstd::prelude::*;

verus! {

/// Calls `String::push`, which appends `c` to `text`.
#[verifier::external_body]
pub(crate) fn push_char(text: &mut String, c: char)
    ensures
        final(text)@ == old(text)@.push(c),
{
    text.push(c);
}

/// The string made of `chars`.
pub(crate) fn string_of(chars: &Vec<char>) -> (text: String)
    ensures
        text@ == chars@,
{
    let mut text = String::new();
    let mut at: usize = 0;
    while at < chars.len()
        invariant
            at <= chars.len(),
            text@ == chars@.take(at as int),
        decreases chars.len() - at,
    {
        push_char(&mut text, chars[at]);
        at += 1;
        assert(text@ =~= chars@.take(at as int));
    }
    assert(chars@.take(at as int) =~= chars@);
    text
}

/// What each of `strings` holds.
pub open spec fn texts(strings: Seq<String>) -> Seq<Seq<char>> {
    Seq::new(strings.len(), |at: int| strings[at]@)
}

} // verus!
