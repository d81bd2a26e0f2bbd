//! From settings and text to the lines that a run prints.

use crate::config::Config;
use crate::search::{
    matching_lines, search, search_case_insensitive, LineMatch, MatchingLine,
};
use vstd::prelude::*;
use vstd::string::*;

verus! {

/// The character that stands for a single decimal digit.
pub open spec fn digit(value: nat) -> char
    recommends
        value < 10,
{
    seq!['0', '1', '2', '3', '4', '5', '6', '7', '8', '9'][value as int]
}

/// `value` in decimal notation, without sign or leading zeros.
pub open spec fn decimal(value: nat) -> Seq<char>
    decreases value,
{
    if value < 10 {
        seq![digit(value)]
    } else {
        decimal(value / 10).push(digit(value % 10))
    }
}

/// The printed form of an entry: its line number in decimal, a colon, a
/// space, and the line.
pub open spec fn rendered(entry: LineMatch) -> Seq<char> {
    decimal(entry.number) + seq![':', ' '] + entry.text
}

/// The printed forms of all entries, in order.
pub open spec fn rendered_all(entries: Seq<LineMatch>) -> Seq<Seq<char>> {
    Seq::new(entries.len(), |i: int| rendered(entries[i]))
}

/// The text of a single decimal digit.
fn digit_text(value: usize) -> (text: &'static str)
    requires
        value < 10,
    ensures
        text@ == seq![digit(value as nat)],
{
    proof {
        reveal_strlit("0");
        reveal_strlit("1");
        reveal_strlit("2");
        reveal_strlit("3");
        reveal_strlit("4");
        reveal_strlit("5");
        reveal_strlit("6");
        reveal_strlit("7");
        reveal_strlit("8");
        reveal_strlit("9");
    }
    let text = if value == 0 {
        "0"
    } else if value == 1 {
        "1"
    } else if value == 2 {
        "2"
    } else if value == 3 {
        "3"
    } else if value == 4 {
        "4"
    } else if value == 5 {
        "5"
    } else if value == 6 {
        "6"
    } else if value == 7 {
        "7"
    } else if value == 8 {
        "8"
    } else {
        "9"
    };
    assert(text@ =~= seq![digit(value as nat)]);
    text
}

/// Appends `value` in decimal notation to `out`.
fn push_decimal(out: &mut String, value: usize)
    ensures
        final(out)@ == old(out)@ + decimal(value as nat),
    decreases value,
{
    if value >= 10 {
        push_decimal(out, value / 10);
    }
    out.append(digit_text(value % 10));
    assert(final(out)@ =~= old(out)@ + decimal(value as nat));
}

/// The printed form of `entry`: `"<number>: <text>"`.
pub fn render(entry: &MatchingLine) -> (line: String)
    ensures
        line@ == rendered(entry@),
{
    let mut line = String::new();
    push_decimal(&mut line, entry.number);
    proof {
        reveal_strlit(": ");
    }
    line.append(": ");
    line.append(entry.text);
    assert(line@ =~= rendered(entry@));
    line
}

/// Searches `contents` as `config` asks and returns what is to be
/// printed: one line of output for each matching line, in the order of the
/// text.
pub fn run(config: &Config, contents: &str) -> (output: Vec<String>)
    ensures
        output.deep_view() == rendered_all(
            matching_lines(config.query@, contents@, config.case_sensitive),
        ),
{
    let results = if config.case_sensitive {
        search(config.query.as_str(), contents)
    } else {
        search_case_insensitive(config.query.as_str(), contents)
    };
    let mut output: Vec<String> = Vec::new();
    let mut i: usize = 0;
    while i < results.len()
        invariant
            i <= results.len(),
            output.len() == i,
            forall|k: int| 0 <= k < i ==> (#[trigger] output@[k])@ == rendered(results@[k]@),
        decreases results.len() - i,
    {
        output.push(render(&results[i]));
        i += 1;
    }
    assert(output.deep_view() =~= rendered_all(results.deep_view()));
    output
}

} // verus!
