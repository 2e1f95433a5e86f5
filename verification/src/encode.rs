//! The escaping of paths for a playlist line.
//!
//! A path is written into a playlist with its ASCII control characters and
//! its square brackets percent-encoded. Every other character, those outside
//! ASCII included, is written as it is.

use vstd::prelude::*;
use vstd::string::StringExecFns;
use percent_encoding::{percent_encode_byte, utf8_percent_encode, CONTROLS};
use crate::text::push_char;

verus! {

/// Whether `c` is an ASCII control character.
pub open spec fn is_control(c: char) -> bool {
    c as u32 <= 0x1f || c as u32 == 0x7f
}

/// Whether `c` is escaped in a playlist line: the ASCII control characters
/// and the two square brackets are.
pub open spec fn is_escaped(c: char) -> bool {
    is_control(c) || c == '[' || c == ']'
}

/// The upper-case hexadecimal digit for `value`, which is below 16.
pub open spec fn hex_digit(value: int) -> char {
    if value < 10 {
        ('0' as int + value) as char
    } else {
        ('A' as int + value - 10) as char
    }
}

/// The percent-encoding of `byte`: a percent sign and the two upper-case
/// hexadecimal digits of the byte.
pub open spec fn escape(byte: u8) -> Seq<char> {
    seq!['%', hex_digit(byte as int / 16), hex_digit(byte as int % 16)]
}

/// What stands for `c` in a playlist line.
pub open spec fn encoded_char(c: char) -> Seq<char> {
    if is_escaped(c) {
        escape(c as u8)
    } else {
        seq![c]
    }
}

/// What stands for `path` in a playlist line: what stands for each of its
/// characters, in their order.
pub open spec fn encoded(path: Seq<char>) -> Seq<char>
    decreases path.len(),
{
    if path.len() == 0 {
        Seq::empty()
    } else {
        encoded(path.drop_last()) + encoded_char(path.last())
    }
}

/// `percent_encoding::percent_encode_byte` gives the percent-encoding of any
/// byte: a percent sign and the byte's two hexadecimal digits, in upper case.
pub assume_specification[ percent_encoding::percent_encode_byte ](byte: u8) -> (text: &'static str)
    ensures
        text@ == escape(byte),
;

/// Calls `percent_encoding::utf8_percent_encode` on the one-character text
/// `c`, with the crate's set `CONTROLS`, which holds the bytes 0x00 to 0x1F
/// and 0x7F. An ASCII character in the set comes back percent-encoded as
/// `percent_encode_byte` encodes it, any other ASCII character unchanged.
#[verifier::external_body]
fn encode_controls(c: char) -> (text: String)
    requires
        c as u32 <= 0x7f,
    ensures
        text@ == if is_control(c) {
            escape(c as u8)
        } else {
            seq![c]
        },
{
    let mut buffer = [0u8; 4];
    utf8_percent_encode(c.encode_utf8(&mut buffer), CONTROLS).to_string()
}

/// Escapes `path` for a playlist line. The line holds no control character
/// and no square bracket, so in particular no line break.
pub fn encode_path(path: &str) -> (line: String)
    ensures
        line@ == encoded(path@),
        forall|at: int| 0 <= at < line@.len() ==> !is_escaped(#[trigger] line@[at]),
        !line@.contains('\n'),
{
    let mut line = String::new();
    for c in it: path.chars()
        invariant
            it.seq() == path@,
            line@ == encoded(path@.take(it.index() as int)),
    {
        proof {
            assert(path@.take(it.index() + 1).drop_last() =~= path@.take(it.index() as int));
        }
        let ghost before = line@;
        if c == '[' || c == ']' {
            line.append(percent_encode_byte(c as u8));
        } else if c as u32 <= 0x7f {
            let text = encode_controls(c);
            line.append(text.as_str());
        } else {
            push_char(&mut line, c);
        }
        assert(line@ =~= before + encoded_char(c));
    }
    proof {
        assert(path@.take(path@.len() as int) =~= path@);
        lemma_encoded_is_clean(path@);
    }
    line
}

/// An encoded path holds no character that is escaped.
pub proof fn lemma_encoded_is_clean(path: Seq<char>)
    ensures
        forall|at: int| 0 <= at < encoded(path).len() ==> !is_escaped(#[trigger] encoded(path)[at]),
        !encoded(path).contains('\n'),
    decreases path.len(),
{
    if path.len() > 0 {
        lemma_encoded_is_clean(path.drop_last());
        let c = path.last();
        assert(forall|value: int| 0 <= value < 16 ==> !is_escaped(#[trigger] hex_digit(value)));
        assert(0 <= (c as u8) as int / 16 < 16 && 0 <= (c as u8) as int % 16 < 16);
    }
    assert(is_escaped('\n'));
}

} // verus!
