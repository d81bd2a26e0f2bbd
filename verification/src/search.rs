//! The search itself: which lines of a text contain a query.

use crate::encoding::lemma_encode_len;
use crate::fold::{lowercase, to_lowercase};
use crate::lines::{after_first_line, first_line, lemma_lines_len, lines, split_first_line};
use crate::substring::{contains, has_substring};
use vstd::prelude::*;

verus! {

/// A line that contains the query. `text` borrows from the searched text.
pub struct MatchingLine<'a> {
    /// The position of the line in the text, counted from 1.
    pub number: usize,
    /// The line, without its line ending.
    pub text: &'a str,
}

/// What a `MatchingLine` stands for: a line number and the characters of
/// the line.
pub struct LineMatch {
    /// The position of the line in the text, counted from 1.
    pub number: nat,
    /// The characters of the line, without its line ending.
    pub text: Seq<char>,
}

impl<'a> View for MatchingLine<'a> {
    type V = LineMatch;

    open spec fn view(&self) -> LineMatch {
        LineMatch { number: self.number as nat, text: self.text@ }
    }
}

impl<'a> DeepView for MatchingLine<'a> {
    type V = LineMatch;

    open spec fn deep_view(&self) -> LineMatch {
        self@
    }
}

/// Whether `line` counts as containing `query`: as it stands where
/// `case_sensitive` holds, otherwise after both have been lowercased.
pub open spec fn line_matches(query: Seq<char>, line: Seq<char>, case_sensitive: bool) -> bool {
    if case_sensitive {
        has_substring(line, query)
    } else {
        has_substring(lowercase(line), lowercase(query))
    }
}

/// Each line together with its number: the first line has number 1, and
/// every further line the number of the line before it plus 1.
pub open spec fn numbered(lines: Seq<Seq<char>>) -> Seq<LineMatch> {
    Seq::new(lines.len(), |k: int| LineMatch { number: (k + 1) as nat, text: lines[k] })
}

/// The test that picks the numbered lines that match `query`.
pub open spec fn selects(query: Seq<char>, case_sensitive: bool) -> spec_fn(LineMatch) -> bool {
    |entry: LineMatch| line_matches(query, entry.text, case_sensitive)
}

/// The matching lines among `lines`, in order, each with the number that
/// it has among all of `lines`.
pub open spec fn matching_among(
    query: Seq<char>,
    lines: Seq<Seq<char>>,
    case_sensitive: bool,
) -> Seq<LineMatch> {
    numbered(lines).filter(selects(query, case_sensitive))
}

/// The result of a search: the lines of `contents` that match `query`, in
/// the order of the text, each with its line number.
pub open spec fn matching_lines(
    query: Seq<char>,
    contents: Seq<char>,
    case_sensitive: bool,
) -> Seq<LineMatch> {
    matching_among(query, lines(contents), case_sensitive)
}

/// How the matching lines grow when one more line is looked at.
proof fn lemma_matching_among_push(
    query: Seq<char>,
    seen: Seq<Seq<char>>,
    line: Seq<char>,
    case_sensitive: bool,
)
    ensures
        matching_among(query, seen.push(line), case_sensitive) == if line_matches(
            query,
            line,
            case_sensitive,
        ) {
            matching_among(query, seen, case_sensitive).push(
                LineMatch { number: seen.len() + 1, text: line },
            )
        } else {
            matching_among(query, seen, case_sensitive)
        },
{
    reveal(Seq::filter);
    assert(numbered(seen.push(line)).drop_last() =~= numbered(seen));
}

/// One step of the scan: the first line of `rest` joins the lines seen.
proof fn lemma_scan_step(contents: Seq<char>, seen: Seq<Seq<char>>, rest: Seq<char>)
    requires
        lines(contents) == seen + lines(rest),
        rest.len() > 0,
    ensures
        lines(contents) == seen.push(first_line(rest)) + lines(after_first_line(rest)),
{
    assert(seen + (seq![first_line(rest)] + lines(after_first_line(rest))) =~= seen.push(
        first_line(rest),
    ) + lines(after_first_line(rest)));
}

/// The lines of `contents` that contain `query` exactly as it is written,
/// in the order of the text, each with its 1-based line number.
pub fn search<'a>(query: &str, contents: &'a str) -> (results: Vec<MatchingLine<'a>>)
    ensures
        results.deep_view() == matching_lines(query@, contents@, true),
{
    let mut results: Vec<MatchingLine<'a>> = Vec::new();
    let mut line_number: usize = 0;
    let mut rest: &'a str = contents;
    // A text has no more lines than bytes, so the counter stays in range.
    let size: usize = contents.as_bytes().len();
    let ghost mut seen: Seq<Seq<char>> = Seq::empty();
    proof {
        lemma_encode_len(contents@);
        assert(lines(contents@) =~= seen + lines(rest@));
        reveal(Seq::filter);
        assert(results.deep_view() =~= matching_among(query@, seen, true));
    }
    while !rest.is_empty()
        invariant
            lines(contents@) == seen + lines(rest@),
            seen.len() == line_number,
            line_number + rest@.len() <= contents@.len() <= size,
            results.deep_view() == matching_among(query@, seen, true),
        decreases rest@.len(),
    {
        let (line, tail) = split_first_line(rest);
        line_number += 1;
        proof {
            lemma_scan_step(contents@, seen, rest@);
            lemma_matching_among_push(query@, seen, line@, true);
        }
        if contains(line, query) {
            let ghost before = results.deep_view();
            results.push(MatchingLine { number: line_number, text: line });
            assert(results.deep_view() =~= before.push(
                LineMatch { number: line_number as nat, text: line@ },
            ));
        }
        proof {
            seen = seen.push(line@);
        }
        rest = tail;
    }
    assert(seen + lines(rest@) =~= seen);
    results
}

/// The lines of `contents` whose lowercase form contains the lowercase
/// form of `query`, in the order of the text, each with its 1-based line
/// number.
pub fn search_case_insensitive<'a>(query: &str, contents: &'a str) -> (results: Vec<
    MatchingLine<'a>,
>)
    ensures
        results.deep_view() == matching_lines(query@, contents@, false),
{
    let folded_query = to_lowercase(query);
    let mut results: Vec<MatchingLine<'a>> = Vec::new();
    let mut line_number: usize = 0;
    let mut rest: &'a str = contents;
    // A text has no more lines than bytes, so the counter stays in range.
    let size: usize = contents.as_bytes().len();
    let ghost mut seen: Seq<Seq<char>> = Seq::empty();
    proof {
        lemma_encode_len(contents@);
        assert(lines(contents@) =~= seen + lines(rest@));
        reveal(Seq::filter);
        assert(results.deep_view() =~= matching_among(query@, seen, false));
    }
    while !rest.is_empty()
        invariant
            folded_query@ == lowercase(query@),
            lines(contents@) == seen + lines(rest@),
            seen.len() == line_number,
            line_number + rest@.len() <= contents@.len() <= size,
            results.deep_view() == matching_among(query@, seen, false),
        decreases rest@.len(),
    {
        let (line, tail) = split_first_line(rest);
        line_number += 1;
        proof {
            lemma_scan_step(contents@, seen, rest@);
            lemma_matching_among_push(query@, seen, line@, false);
        }
        let folded_line = to_lowercase(line);
        if contains(folded_line.as_str(), folded_query.as_str()) {
            let ghost before = results.deep_view();
            results.push(MatchingLine { number: line_number, text: line });
            assert(results.deep_view() =~= before.push(
                LineMatch { number: line_number as nat, text: line@ },
            ));
        }
        proof {
            seen = seen.push(line@);
        }
        rest = tail;
    }
    assert(seen + lines(rest@) =~= seen);
    results
}

/// Whether `found` holds an entry with the line number `number`.
pub open spec fn reports(found: Seq<LineMatch>, number: nat) -> bool {
    exists|i: int| 0 <= i < found.len() && (#[trigger] found[i]).number == number
}

/// What holds of the matching lines among any lines: every entry is a line
/// that matches, under its own number; the numbers rise; and every line
/// that matches has its entry.
pub proof fn lemma_matching_among(query: Seq<char>, lines: Seq<Seq<char>>, case_sensitive: bool)
    ensures
        ({
            let found = matching_among(query, lines, case_sensitive);
            &&& found.len() <= lines.len()
            &&& forall|i: int|
                0 <= i < found.len() ==> {
                    let entry = #[trigger] found[i];
                    &&& 1 <= entry.number <= lines.len()
                    &&& entry.text == lines[entry.number - 1]
                    &&& line_matches(query, entry.text, case_sensitive)
                }
            &&& forall|i: int, j: int|
                0 <= i < j < found.len() ==> (#[trigger] found[i]).number < (
                #[trigger] found[j]).number
            &&& forall|k: int|
                0 <= k < lines.len() ==> (line_matches(query, #[trigger] lines[k], case_sensitive)
                    <==> reports(found, (k + 1) as nat))
        }),
    decreases lines.len(),
{
    let found = matching_among(query, lines, case_sensitive);
    if lines.len() == 0 {
        reveal(Seq::filter);
        assert(found =~= Seq::<LineMatch>::empty());
    } else {
        let shorter = lines.drop_last();
        let line = lines.last();
        let before = matching_among(query, shorter, case_sensitive);
        let entry = LineMatch { number: lines.len(), text: line };
        assert(lines =~= shorter.push(line));
        lemma_matching_among(query, shorter, case_sensitive);
        lemma_matching_among_push(query, shorter, line, case_sensitive);
        assert forall|k: int| 0 <= k < lines.len() implies (line_matches(
            query,
            #[trigger] lines[k],
            case_sensitive,
        ) <==> reports(found, (k + 1) as nat)) by {
            if k < shorter.len() {
                assert(lines[k] == shorter[k]);
                if reports(before, (k + 1) as nat) {
                    let i = choose|i: int|
                        0 <= i < before.len() && (#[trigger] before[i]).number == k + 1;
                    assert(found[i] == before[i]);
                }
                if reports(found, (k + 1) as nat) {
                    let i = choose|i: int|
                        0 <= i < found.len() && (#[trigger] found[i]).number == k + 1;
                    if i < before.len() {
                        assert(found[i] == before[i]);
                    }
                }
            } else {
                if line_matches(query, line, case_sensitive) {
                    assert(found[before.len() as int] == entry);
                }
                if reports(found, (k + 1) as nat) {
                    let i = choose|i: int|
                        0 <= i < found.len() && (#[trigger] found[i]).number == k + 1;
                    if i < before.len() {
                        assert(found[i] == before[i]);
                    }
                }
            }
        }
    }
}

/// A search returns no more entries than the text has lines, and a text
/// has no more lines than characters.
pub proof fn lemma_no_more_matches_than_lines(
    query: Seq<char>,
    contents: Seq<char>,
    case_sensitive: bool,
)
    ensures
        matching_lines(query, contents, case_sensitive).len() <= lines(contents).len(),
        lines(contents).len() <= contents.len(),
{
    lemma_matching_among(query, lines(contents), case_sensitive);
    lemma_lines_len(contents);
}

/// In a case-sensitive search, the line with number `number` is reported
/// exactly when it contains the query as a contiguous run of characters,
/// each character equal to the one in the query.
pub proof fn lemma_case_sensitive_match(query: Seq<char>, contents: Seq<char>, number: nat)
    requires
        1 <= number <= lines(contents).len(),
    ensures
        reports(matching_lines(query, contents, true), number) <==> has_substring(
            lines(contents)[number - 1],
            query,
        ),
{
    lemma_matching_among(query, lines(contents), true);
    assert(line_matches(query, lines(contents)[number - 1], true) <==> reports(
        matching_lines(query, contents, true),
        ((number - 1) + 1) as nat,
    ));
}

/// In a case-insensitive search, the line with number `number` is
/// reported exactly when its lowercase form contains the lowercase form of
/// the query.
pub proof fn lemma_case_insensitive_match(query: Seq<char>, contents: Seq<char>, number: nat)
    requires
        1 <= number <= lines(contents).len(),
    ensures
        reports(matching_lines(query, contents, false), number) <==> has_substring(
            lowercase(lines(contents)[number - 1]),
            lowercase(query),
        ),
{
    lemma_matching_among(query, lines(contents), false);
    assert(line_matches(query, lines(contents)[number - 1], false) <==> reports(
        matching_lines(query, contents, false),
        ((number - 1) + 1) as nat,
    ));
}

/// Whether a line matches without regard to case depends on the lowercase
/// forms alone: queries that differ only in the case of their letters, and
/// lines that do, match alike.
pub proof fn lemma_case_of_letters_is_ignored(
    query: Seq<char>,
    other_query: Seq<char>,
    line: Seq<char>,
    other_line: Seq<char>,
)
    requires
        lowercase(query) == lowercase(other_query),
        lowercase(line) == lowercase(other_line),
    ensures
        line_matches(query, line, false) == line_matches(other_query, other_line, false),
{
}

/// Queries that differ only in the case of their letters give the same
/// result in a case-insensitive search.
pub proof fn lemma_case_of_query_is_ignored(
    query: Seq<char>,
    other_query: Seq<char>,
    contents: Seq<char>,
)
    requires
        lowercase(query) == lowercase(other_query),
    ensures
        matching_lines(query, contents, false) == matching_lines(other_query, contents, false),
{
    assert(selects(query, false) =~= selects(other_query, false));
}

/// Lines are numbered from 1 in steps of 1, whether they match or not: an
/// entry with number `n` holds the `n`-th line of the text, and the numbers
/// of the entries rise from each entry to the next.
pub proof fn lemma_line_numbers(query: Seq<char>, contents: Seq<char>, case_sensitive: bool)
    ensures
        numbered(lines(contents)).len() == lines(contents).len(),
        forall|k: int|
            0 <= k < lines(contents).len() ==> #[trigger] numbered(lines(contents))[k]
                == (LineMatch { number: (k + 1) as nat, text: lines(contents)[k] }),
        forall|i: int|
            0 <= i < matching_lines(query, contents, case_sensitive).len() ==> {
                let entry = #[trigger] matching_lines(query, contents, case_sensitive)[i];
                &&& 1 <= entry.number <= lines(contents).len()
                &&& entry.text == lines(contents)[entry.number - 1]
            },
        forall|i: int, j: int|
            0 <= i < j < matching_lines(query, contents, case_sensitive).len() ==> (
            #[trigger] matching_lines(query, contents, case_sensitive)[i]).number < (
            #[trigger] matching_lines(query, contents, case_sensitive)[j]).number,
{
    lemma_matching_among(query, lines(contents), case_sensitive);
}

/// Two searches with the same query, text and mode return the same
/// entries in the same order.
pub proof fn lemma_search_is_repeatable(
    first: Vec<MatchingLine>,
    second: Vec<MatchingLine>,
    query: Seq<char>,
    contents: Seq<char>,
    case_sensitive: bool,
)
    requires
        first.deep_view() == matching_lines(query, contents, case_sensitive),
        second.deep_view() == matching_lines(query, contents, case_sensitive),
    ensures
        first.len() == second.len(),
        forall|i: int|
            0 <= i < first.len() ==> (#[trigger] first[i]).number == second[i].number && first[i].text@
                == second[i].text@,
{
    assert(first.deep_view().len() == first.len());
    assert(second.deep_view().len() == second.len());
    assert forall|i: int| 0 <= i < first.len() implies (#[trigger] first[i]).number
        == second[i].number && first[i].text@ == second[i].text@ by {
        assert(first.deep_view()[i] == second.deep_view()[i]);
    }
}

} // verus!
