//! The text of a playlist: one entry on each line.
//!
//! A playlist is written with a line break between its entries and none
//! after the last. It is read line by line; a line ends at a line break, and
//! a carriage return just before the line break counts to the break. Text
//! after the last line break is a line too, unless there is none.

use vstd::prelude::*;
use vstd::string::StringExecFns;
use crate::text::{string_of, texts};

verus! {

/// A playlist to write: the name of its file and the text in it.
#[derive(Clone, Debug, PartialEq, Eq)]
pub struct Playlist {
    pub name: String,
    pub content: String,
}

/// What a `Playlist` holds.
pub struct PlaylistText {
    pub name: Seq<char>,
    pub content: Seq<char>,
}

impl View for Playlist {
    type V = PlaylistText;

    open spec fn view(&self) -> PlaylistText {
        PlaylistText { name: self.name@, content: self.content@ }
    }
}

/// What each of `slices` holds.
pub open spec fn slice_texts(slices: Seq<&str>) -> Seq<Seq<char>> {
    Seq::new(slices.len(), |at: int| slices[at]@)
}

/// `lines` with a line break between each two of them.
pub open spec fn joined(lines: Seq<Seq<char>>) -> Seq<char>
    decreases lines.len(),
{
    if lines.len() == 0 {
        Seq::empty()
    } else if lines.len() == 1 {
        lines[0]
    } else {
        joined(lines.drop_last()) + seq!['\n'] + lines.last()
    }
}

/// The number of characters of `text` before its first line break, or of all
/// of it where it has none.
pub open spec fn first_line_len(text: Seq<char>) -> nat
    decreases text.len(),
{
    if text.len() == 0 || text[0] == '\n' {
        0
    } else {
        1 + first_line_len(text.skip(1))
    }
}

/// `line` without the carriage return at its end, if it has one there.
pub open spec fn without_cr(line: Seq<char>) -> Seq<char> {
    if line.len() > 0 && line.last() == '\r' {
        line.drop_last()
    } else {
        line
    }
}

/// The lines of `text`. A line ends before a line break, and before the
/// carriage return that stands just before the break, if one does. What
/// follows the last line break is a line too, unless nothing follows it.
pub open spec fn split(text: Seq<char>) -> Seq<Seq<char>>
    decreases text.len(),
{
    let len = first_line_len(text);
    if text.len() == 0 {
        Seq::empty()
    } else if len >= text.len() {
        seq![text]
    } else {
        seq![without_cr(text.take(len as int))] + split(text.skip(len as int + 1))
    }
}

/// Writes `lines` as the text of a playlist.
pub fn join_lines(lines: &[&str]) -> (text: String)
    ensures
        text@ == joined(slice_texts(lines@)),
{
    let ghost all = slice_texts(lines@);
    let mut text = String::new();
    let mut at: usize = 0;
    while at < lines.len()
        invariant
            at <= lines.len(),
            all == slice_texts(lines@),
            text@ == joined(all.take(at as int)),
        decreases lines.len() - at,
    {
        proof {
            reveal_strlit("\n");
            assert(all.take(at + 1).drop_last() =~= all.take(at as int));
            assert("\n"@ =~= seq!['\n']);
        }
        if at > 0 {
            text.append("\n");
        }
        text.append(lines[at]);
        at += 1;
    }
    proof {
        assert(all.take(at as int) =~= all);
    }
    text
}

/// Writes `lines` as the text of a playlist, as `join_lines` does.
pub fn join_strings(lines: &Vec<String>) -> (text: String)
    ensures
        text@ == joined(texts(lines@)),
{
    let mut slices: Vec<&str> = Vec::new();
    let mut at: usize = 0;
    while at < lines.len()
        invariant
            at <= lines.len(),
            slices@.len() == at,
            forall|done: int| 0 <= done < at ==> (#[trigger] slices@[done])@ == lines@[done]@,
        decreases lines.len() - at,
    {
        slices.push(lines[at].as_str());
        at += 1;
    }
    assert(slice_texts(slices@) =~= texts(lines@));
    join_lines(slices.as_slice())
}

/// The first line of a text ends where its first line break stands, or where
/// the text ends.
pub proof fn lemma_first_line_len(text: Seq<char>, len: int)
    requires
        0 <= len <= text.len(),
        forall|at: int| 0 <= at < len ==> text[at] != '\n',
        len < text.len() ==> text[len] == '\n',
    ensures
        first_line_len(text) == len,
    decreases len,
{
    if len > 0 {
        lemma_first_line_len(text.skip(1), len - 1);
    }
}

/// A text without a line break, if it is not empty, is one line.
pub proof fn lemma_split_one_line(text: Seq<char>)
    requires
        text.len() > 0,
        !text.contains('\n'),
    ensures
        split(text) == seq![text],
{
    lemma_first_line_len(text, text.len() as int);
}

/// A text with one line break, at its end, is one line: the text before the
/// break, without the carriage return that may end it.
pub proof fn lemma_split_ended_line(line: Seq<char>)
    requires
        !line.contains('\n'),
    ensures
        split(line.push('\n')) == seq![without_cr(line)],
{
    let text = line.push('\n');
    lemma_first_line_len(text, line.len() as int);
    assert(text.take(line.len() as int) =~= line);
    assert(split(text.skip(line.len() as int + 1)) =~= Seq::empty());
    assert(seq![without_cr(line)] + Seq::<Seq<char>>::empty() =~= seq![without_cr(line)]);
}

/// After a line break the lines of a text are those of what follows.
pub proof fn lemma_split_add(first: Seq<char>, second: Seq<char>)
    requires
        first.len() == 0 || first.last() == '\n',
    ensures
        split(first + second) == split(first) + split(second),
    decreases first.len(),
{
    if first.len() == 0 {
        assert(first + second =~= second);
        assert(split(first) + split(second) =~= split(second));
    } else {
        let whole = first + second;
        let len = first_line_len(first);
        lemma_first_line(first);
        assert(len < first.len()) by {
            if len == first.len() {
                assert(first[first.len() - 1] != '\n');
            }
        }
        lemma_first_line_len(whole, len as int);
        assert(whole.take(len as int) =~= first.take(len as int));
        assert(whole.skip(len as int + 1) =~= first.skip(len as int + 1) + second);
        lemma_split_add(first.skip(len as int + 1), second);
        assert(split(whole) =~= split(first) + split(second));
    }
}

/// No line break stands in the first line of a text, and one ends it unless
/// the text does.
pub proof fn lemma_first_line(text: Seq<char>)
    ensures
        first_line_len(text) <= text.len(),
        forall|at: int| 0 <= at < first_line_len(text) ==> text[at] != '\n',
        first_line_len(text) < text.len() ==> text[first_line_len(text) as int] == '\n',
    decreases text.len(),
{
    if text.len() > 0 && text[0] != '\n' {
        lemma_first_line(text.skip(1));
        assert forall|at: int| 0 <= at < first_line_len(text) implies text[at] != '\n' by {
            if at > 0 {
                assert(text.skip(1)[at - 1] == text[at]);
            }
        }
    }
}

/// Reads the text of a playlist into its lines.
pub fn split_lines(text: &str) -> (lines: Vec<String>)
    ensures
        texts(lines@) == split(text@),
{
    let mut lines: Vec<String> = Vec::new();
    let mut line: Vec<char> = Vec::new();
    let ghost start: int = 0;
    proof {
        assert(texts(lines@) =~= split(text@.take(0)));
    }
    for c in it: text.chars()
        invariant
            it.seq() == text@,
            0 <= start <= it.index(),
            start == 0 || text@[start - 1] == '\n',
            texts(lines@) == split(text@.take(start)),
            line@ == text@.subrange(start, it.index() as int),
            !line@.contains('\n'),
    {
        let ghost at = it.index() as int;
        if c == '\n' {
            let ghost ended = line@;
            let len = line.len();
            if len > 0 && line[len - 1] == '\r' {
                line.pop();
            }
            assert(line@ == without_cr(ended));
            let ghost before = texts(lines@);
            lines.push(string_of(&line));
            line.clear();
            proof {
                lemma_split_ended_line(ended);
                lemma_split_add(text@.take(start), ended.push('\n'));
                assert(text@.take(start) + ended.push('\n') =~= text@.take(at + 1));
                assert(texts(lines@) =~= before + seq![without_cr(ended)]);
                start = at + 1;
                assert(line@ =~= text@.subrange(start, at + 1));
            }
        } else {
            line.push(c);
            proof {
                assert(line@ =~= text@.subrange(start, at + 1));
                assert forall|k: int| 0 <= k < line@.len() implies line@[k] != '\n' by {
                    if k < line@.len() - 1 {
                        assert(text@.subrange(start, at).contains(line@[k]));
                    }
                }
            }
        }
    }
    let ghost rest = line@;
    let ghost before = texts(lines@);
    proof {
        lemma_split_add(text@.take(start), rest);
        assert(text@.take(start) + rest =~= text@);
    }
    if line.len() > 0 {
        lines.push(string_of(&line));
        proof {
            lemma_split_one_line(rest);
            assert(texts(lines@) =~= before + seq![rest]);
        }
    } else {
        proof {
            assert(before + split(rest) =~= before);
        }
    }
    lines
}

/// Whether `lines` are read back from the text that they are written as:
/// none holds a line break, none but the last ends in a carriage return, and
/// the last is not empty.
pub open spec fn reads_back(lines: Seq<Seq<char>>) -> bool {
    &&& forall|at: int| 0 <= at < lines.len() ==> !(#[trigger] lines[at]).contains('\n')
    &&& forall|at: int| 0 <= at < lines.len() - 1 ==> without_cr(#[trigger] lines[at]) == lines[at]
    &&& lines.len() > 0 ==> lines.last().len() > 0
}

/// Each of `lines` without the carriage return at its end.
pub open spec fn all_without_cr(lines: Seq<Seq<char>>) -> Seq<Seq<char>> {
    Seq::new(lines.len(), |at: int| without_cr(lines[at]))
}

/// No line that is read holds a line break.
pub proof fn lemma_split_has_no_break(text: Seq<char>)
    ensures
        forall|at: int|
            0 <= at < split(text).len() ==> !(#[trigger] split(text)[at]).contains('\n'),
    decreases text.len(),
{
    let len = first_line_len(text);
    lemma_first_line(text);
    if text.len() > 0 && len < text.len() {
        let rest = split(text.skip(len as int + 1));
        lemma_split_has_no_break(text.skip(len as int + 1));
        assert forall|at: int| 0 <= at < split(text).len() implies !(#[trigger] split(
            text,
        )[at]).contains('\n') by {
            if at > 0 {
                assert(split(text)[at] == rest[at - 1]);
            }
        }
    }
}

/// Lines without a line break, written with a line break after each, are
/// read as those lines, each without the carriage return at its end.
proof fn lemma_split_joined_ended(lines: Seq<Seq<char>>)
    requires
        lines.len() > 0,
        forall|at: int| 0 <= at < lines.len() ==> !(#[trigger] lines[at]).contains('\n'),
    ensures
        split(joined(lines).push('\n')) == all_without_cr(lines),
    decreases lines.len(),
{
    let last = lines.last();
    lemma_split_ended_line(last);
    if lines.len() == 1 {
        assert(seq![without_cr(last)] =~= all_without_cr(lines));
    } else {
        let earlier = lines.drop_last();
        lemma_split_joined_ended(earlier);
        lemma_split_add(joined(earlier).push('\n'), last.push('\n'));
        assert(joined(earlier).push('\n') + last.push('\n') =~= joined(lines).push('\n'));
        assert(all_without_cr(earlier) + seq![without_cr(last)] =~= all_without_cr(lines));
    }
}

/// Lines that are written as the text of a playlist and read again are the
/// same lines. This holds of the lines that `reads_back` describes, and of no
/// others.
pub proof fn lemma_round_trip(lines: Seq<Seq<char>>)
    ensures
        reads_back(lines) ==> split(joined(lines)) == lines,
        split(joined(lines)) == lines ==> reads_back(lines),
{
    let text = joined(lines);
    lemma_split_has_no_break(text);
    if lines.len() == 0 {
        assert(split(text) =~= lines);
    } else if lines.len() == 1 {
        if split(text) == lines {
            assert(!split(text)[0].contains('\n'));
        }
        if lines[0].len() > 0 && !lines[0].contains('\n') {
            lemma_split_one_line(lines[0]);
            assert(seq![lines[0]] =~= lines);
        }
    } else {
        let earlier = lines.drop_last();
        let last = lines.last();
        assert(joined(earlier).push('\n') + last =~= text);
        assert(earlier + seq![last] =~= lines);
        if split(text) == lines {
            assert forall|at: int| 0 <= at < lines.len() implies !(#[trigger] lines[at]).contains(
                '\n',
            ) by {
                assert(!split(text)[at].contains('\n'));
            }
        }
        if forall|at: int| 0 <= at < lines.len() ==> !(#[trigger] lines[at]).contains('\n') {
            assert forall|at: int| 0 <= at < earlier.len() implies !(#[trigger] earlier[at])
                .contains('\n') by {
                assert(earlier[at] == lines[at]);
            }
            lemma_split_joined_ended(earlier);
            lemma_split_add(joined(earlier).push('\n'), last);
            if last.len() > 0 {
                lemma_split_one_line(last);
                assert(split(text) == all_without_cr(earlier) + seq![last]);
                if split(text) == lines {
                    assert forall|at: int| 0 <= at < lines.len() - 1 implies without_cr(
                        #[trigger] lines[at],
                    ) == lines[at] by {
                        assert(split(text)[at] == all_without_cr(earlier)[at]);
                    }
                }
                if reads_back(lines) {
                    assert(all_without_cr(earlier) =~= earlier);
                }
            } else {
                assert(split(last) =~= Seq::empty());
                assert(split(text).len() == lines.len() - 1);
            }
        }
    }
}

} // verus!
