//! Cutting text into lines.
//!
//! A line ends at a line feed. A carriage return that stands directly
//! before that line feed belongs to the line ending, not to the line. The
//! last line needs no line ending, and a line ending at the very end of the
//! text opens no further line.

use crate::encoding::{
    lemma_absent_byte_absent_char, lemma_bytes_of_chars, lemma_cut_at_ascii_byte,
    lemma_last_ascii_char_is_last_byte,
};
use vstd::prelude::*;
use vstd::string::*;
use vstd::utf8::*;

verus! {

/// The number of characters that stand before the first line feed of
/// `text`; the length of `text` where it has none.
pub open spec fn first_break(text: Seq<char>) -> nat
    decreases text.len(),
{
    if text.len() == 0 || text[0] == '\n' {
        0
    } else {
        1 + first_break(text.drop_first())
    }
}

/// `line` without the carriage return at its end, if it has one.
pub open spec fn trim_carriage_return(line: Seq<char>) -> Seq<char> {
    if line.len() > 0 && line.last() == '\r' {
        line.drop_last()
    } else {
        line
    }
}

/// The first line of `text`, without its line ending.
pub open spec fn first_line(text: Seq<char>) -> Seq<char> {
    let at = first_break(text) as int;
    if at < text.len() {
        trim_carriage_return(text.subrange(0, at))
    } else {
        text
    }
}

/// What follows the first line of `text` and its line ending.
pub open spec fn after_first_line(text: Seq<char>) -> Seq<char> {
    let at = first_break(text) as int;
    if at < text.len() {
        text.subrange(at + 1, text.len() as int)
    } else {
        Seq::empty()
    }
}

/// The lines of `text`, in order. The empty text has no lines.
pub open spec fn lines(text: Seq<char>) -> Seq<Seq<char>>
    decreases text.len(),
{
    if text.len() == 0 {
        Seq::empty()
    } else {
        seq![first_line(text)] + lines(after_first_line(text))
    }
}

/// `first_break` is the position of the first line feed.
pub proof fn lemma_first_break(text: Seq<char>)
    ensures
        first_break(text) <= text.len(),
        forall|k: int| 0 <= k < first_break(text) ==> text[k] != '\n',
        first_break(text) < text.len() ==> text[first_break(text) as int] == '\n',
    decreases text.len(),
{
    if text.len() == 0 || text[0] == '\n' {
    } else {
        let rest = text.drop_first();
        lemma_first_break(rest);
        assert forall|k: int| 0 <= k < first_break(text) implies text[k] != '\n' by {
            if k > 0 {
                assert(text[k] == rest[k - 1]);
            }
        }
    }
}

/// The position before which no line feed stands, and at which one does or
/// the text ends, is `first_break`.
pub proof fn lemma_first_break_is(text: Seq<char>, at: int)
    requires
        0 <= at <= text.len(),
        forall|k: int| 0 <= k < at ==> text[k] != '\n',
        at < text.len() ==> text[at] == '\n',
    ensures
        first_break(text) == at,
{
    lemma_first_break(text);
    let found = first_break(text) as int;
    if found < at {
        assert(text[found] == '\n');
    } else if at < found {
        assert(text[at] == '\n');
    }
}

/// A text has at most as many lines as it has characters.
pub proof fn lemma_lines_len(text: Seq<char>)
    ensures
        lines(text).len() <= text.len(),
    decreases text.len(),
{
    if text.len() > 0 {
        lemma_first_break(text);
        lemma_lines_len(after_first_line(text));
    }
}

/// No line holds a line feed.
pub proof fn lemma_lines_hold_no_line_feed(text: Seq<char>)
    ensures
        forall|k: int, j: int|
            0 <= k < lines(text).len() && 0 <= j < lines(text)[k].len() ==> lines(text)[k][j]
                != '\n',
    decreases text.len(),
{
    if text.len() > 0 {
        lemma_first_break(text);
        lemma_lines_hold_no_line_feed(after_first_line(text));
        let first = first_line(text);
        let later = lines(after_first_line(text));
        assert forall|k: int, j: int|
            0 <= k < lines(text).len() && 0 <= j < lines(text)[k].len() implies lines(text)[k][j]
            != '\n' by {
            if k == 0 {
                assert(lines(text)[0] == first);
                assert(first[j] == text[j]);
            } else {
                assert(lines(text)[k] == later[k - 1]);
            }
        }
    }
}

/// The line ending of the last line is optional: a text that ends in
/// neither a line feed nor a carriage return has the same lines with a line
/// ending after it, be it a line feed or a carriage return and a line feed,
/// as without.
pub proof fn lemma_final_line_ending_is_optional(text: Seq<char>)
    requires
        text.len() > 0,
        text.last() != '\n',
        text.last() != '\r',
    ensures
        lines(text.push('\n')) == lines(text),
        lines(text.push('\r').push('\n')) == lines(text),
    decreases text.len(),
{
    let len = text.len() as int;
    let at = first_break(text) as int;
    let short = text.push('\n');
    let long = text.push('\r').push('\n');
    lemma_first_break(text);
    if at == len {
        lemma_first_break_is(short, len);
        lemma_first_break_is(long, len + 1);
        assert(short.subrange(0, len) =~= text);
        assert(long.subrange(0, len + 1) =~= text.push('\r'));
        assert(text.push('\r').drop_last() =~= text);
        assert(after_first_line(short) =~= Seq::<char>::empty());
        assert(after_first_line(long) =~= Seq::<char>::empty());
        assert(after_first_line(text) =~= Seq::<char>::empty());
    } else {
        let rest = after_first_line(text);
        lemma_first_break_is(short, at);
        lemma_first_break_is(long, at);
        assert(short.subrange(0, at) =~= text.subrange(0, at));
        assert(long.subrange(0, at) =~= text.subrange(0, at));
        assert(rest.len() > 0);
        assert(rest.last() == text.last());
        assert(after_first_line(short) =~= rest.push('\n'));
        assert(after_first_line(long) =~= rest.push('\r').push('\n'));
        lemma_final_line_ending_is_optional(rest);
    }
}

/// `line` without the carriage return at its end, if it has one.
fn strip_carriage_return<'a>(line: &'a str) -> (trimmed: &'a str)
    ensures
        trimmed@ == trim_carriage_return(line@),
{
    let bytes = line.as_bytes();
    let len: usize = bytes.len();
    proof {
        lemma_bytes_of_chars(line@);
    }
    if len > 0 && bytes[len - 1] == 0x0d {
        proof {
            lemma_cut_at_ascii_byte(bytes@, len - 1);
            assert(bytes@.subrange(len as int, len as int) =~= Seq::<u8>::empty());
            assert(line@ =~= decode_utf8(bytes@.subrange(0, len - 1)).push('\r'));
        }
        let (kept, _) = line.split_at(len - 1);
        proof {
            lemma_bytes_of_chars(kept@);
            assert(kept@ =~= line@.drop_last());
        }
        kept
    } else {
        proof {
            if line@.len() > 0 && line@.last() == '\r' {
                lemma_last_ascii_char_is_last_byte(line@);
            }
        }
        line
    }
}

/// Cuts the first line off `text`: returns that line without its line
/// ending, and the text that follows the line ending.
pub fn split_first_line<'a>(text: &'a str) -> (parts: (&'a str, &'a str))
    ensures
        parts.0@ == first_line(text@),
        parts.1@ == after_first_line(text@),
        text@.len() > 0 ==> parts.1@.len() < text@.len(),
{
    let bytes = text.as_bytes();
    let len: usize = bytes.len();
    let mut at: usize = 0;
    while at < len && bytes[at] != 0x0a
        invariant
            at <= len == bytes@.len(),
            forall|k: int| 0 <= k < at ==> bytes@[k] != 0x0a,
        decreases len - at,
    {
        at += 1;
    }
    proof {
        lemma_bytes_of_chars(text@);
        lemma_first_break(text@);
    }
    if at == len {
        proof {
            lemma_absent_byte_absent_char(text@, 0x0a);
            lemma_first_break_is(text@, text@.len() as int);
            reveal_strlit("");
            assert(""@ =~= Seq::<char>::empty());
        }
        (text, "")
    } else {
        proof {
            lemma_cut_at_ascii_byte(bytes@, at as int);
        }
        let (head, tail) = text.split_at(at);
        let (_, rest) = tail.split_at(1);
        proof {
            lemma_bytes_of_chars(head@);
            lemma_bytes_of_chars(rest@);
            assert(rest.spec_bytes() =~= bytes@.subrange(at + 1, len as int));
            assert(text@ == head@.push('\n') + rest@);
            lemma_absent_byte_absent_char(head@, 0x0a);
            assert forall|k: int| 0 <= k < head@.len() implies text@[k] != '\n' by {
                assert(text@[k] == head@[k]);
            }
            assert(text@[head@.len() as int] == '\n');
            let cut = head@.len() as int;
            lemma_first_break_is(text@, cut);
            assert(text@.subrange(0, cut) =~= head@);
            assert(text@.subrange(cut + 1, text@.len() as int) =~= rest@);
        }
        let line = strip_carriage_return(head);
        (line, rest)
    }
}

} // verus!
