use minigrep::{search, search_case_insensitive, MatchingLine};

#[test]
fn case_sensitive() {
    let query = "duct";
    let contents = "\
Rust:
safe, fast, productive.
Pick three.
Duct tape";
    let matching_line = MatchingLine {
        number: 2,
        text: "safe, fast, productive.",
    };
    let result = search(query, contents);

    assert_eq!(matching_line.number, result[0].number);
    assert_eq!(matching_line.text, result[0].text);
}

#[test]
fn case_insensitive() {
    let query = "rUST";
    let contents = "\
Rust:
safe, fast, productive.
Pick three.
Trust me.";
    let matching_line = MatchingLine {
        number: 1,
        text: "Rust:",
    };
    let result = search_case_insensitive(query, contents);

    assert_eq!(matching_line.number, result[0].number);
    assert_eq!(matching_line.text, result[0].text);
}

fn pairs<'a>(found: &Vec<MatchingLine<'a>>) -> Vec<(usize, &'a str)> {
    found.iter().map(|entry| (entry.number, entry.text)).collect()
}

#[test]
fn case_sensitive_skips_line_with_capital() {
    let contents = "Rust:\nsafe, fast, productive.\nPick three.\nDuct tape";
    let found = search("duct", contents);
    assert_eq!(pairs(&found), vec![(2, "safe, fast, productive.")]);
}

#[test]
fn case_insensitive_finds_both_lines() {
    let contents = "Rust:\nsafe, fast, productive.\nPick three.\nTrust me.";
    let found = search_case_insensitive("rUST", contents);
    assert_eq!(pairs(&found), vec![(1, "Rust:"), (4, "Trust me.")]);
}

#[test]
fn case_insensitive_lowers_the_line_too() {
    let found = search_case_insensitive("tape", "DUCT TAPE\nduct tape\nDuct Tape");
    assert_eq!(
        pairs(&found),
        vec![(1, "DUCT TAPE"), (2, "duct tape"), (3, "Duct Tape")]
    );
    assert!(search("tape", "DUCT TAPE").is_empty());
}

#[test]
fn case_insensitive_beyond_ascii() {
    let found = search_case_insensitive("ÄPFEL", "rote äpfel\nBIRNEN\nÄpfel und Birnen");
    assert_eq!(pairs(&found), vec![(1, "rote äpfel"), (3, "Äpfel und Birnen")]);
}

#[test]
fn empty_contents_give_no_results() {
    assert!(search("duct", "").is_empty());
    assert!(search("", "").is_empty());
    assert!(search_case_insensitive("duct", "").is_empty());
    assert!(search_case_insensitive("", "").is_empty());
}

#[test]
fn empty_query_matches_every_line() {
    let found = search("", "one\n\nthree\n");
    assert_eq!(pairs(&found), vec![(1, "one"), (2, ""), (3, "three")]);
    let folded = search_case_insensitive("", "one\n\nthree\n");
    assert_eq!(pairs(&folded), vec![(1, "one"), (2, ""), (3, "three")]);
}

#[test]
fn numbers_count_lines_that_do_not_match() {
    let contents = "no\nno\nyes\nno\nyes\nno\nno\nno\nno\nno\nno\nyes";
    let found = search("yes", contents);
    assert_eq!(pairs(&found), vec![(3, "yes"), (5, "yes"), (12, "yes")]);
}

#[test]
fn a_line_is_reported_once() {
    let found = search("an", "banana\nbandana an");
    assert_eq!(pairs(&found), vec![(1, "banana"), (2, "bandana an")]);
}

#[test]
fn no_more_results_than_lines() {
    let texts = ["", "a", "a\n", "a\na\na", "\n\n\n", "b\nb", "a\r\na\r\n"];
    for contents in texts {
        let all = contents.lines().count();
        assert!(search("a", contents).len() <= all);
        assert!(search("", contents).len() <= all);
        assert!(search_case_insensitive("A", contents).len() <= all);
    }
}

#[test]
fn lines_are_those_of_the_standard_library() {
    let texts = [
        "",
        "\n",
        "\n\n",
        "a",
        "a\n",
        "a\nb",
        "a\nb\n",
        "a\n\nb",
        "a\r\nb",
        "a\r\nb\r\n",
        "a\r",
        "a\r\r\n",
        "\r\n",
        "\r",
        "a\rb\nc",
        "\n\r\n\r",
        "größe\nnaïve\r\n日本語\n",
        "😀\n😀😀\r\n\u{85}\u{2028}x",
    ];
    for contents in texts {
        let expected: Vec<(usize, &str)> = contents
            .lines()
            .enumerate()
            .map(|(index, line)| (index + 1, line))
            .collect();
        assert_eq!(pairs(&search("", contents)), expected, "in {:?}", contents);
    }
}

#[test]
fn matches_are_those_of_the_standard_library() {
    let texts = [
        "Rust:\nsafe, fast, productive.\nPick three.\nDuct tape",
        "aaa\naab\nbaa\nb\n",
        "größe\ngrosse\nGRÖSSE\n",
        "日本語のテキスト\n本\n日語",
    ];
    let queries = ["", "a", "aa", "ab", "duct", "ö", "本", "語の", "\u{b6}", "e.\n", "three."];
    for contents in texts {
        for query in queries {
            let expected: Vec<(usize, &str)> = contents
                .lines()
                .enumerate()
                .filter(|(_, line)| line.contains(query))
                .map(|(index, line)| (index + 1, line))
                .collect();
            assert_eq!(pairs(&search(query, contents)), expected);
            let folded: Vec<(usize, &str)> = contents
                .lines()
                .enumerate()
                .filter(|(_, line)| line.to_lowercase().contains(&query.to_lowercase()))
                .map(|(index, line)| (index + 1, line))
                .collect();
            assert_eq!(pairs(&search_case_insensitive(query, contents)), folded);
        }
    }
}

#[test]
fn a_query_never_matches_across_lines() {
    assert!(search("a\nb", "a\nb").is_empty());
    assert!(search("\n", "a\nb\n").is_empty());
}

#[test]
fn searching_twice_gives_the_same() {
    let contents = "Rust:\nsafe, fast, productive.\nPick three.\nTrust me.";
    assert_eq!(pairs(&search("st", contents)), pairs(&search("st", contents)));
    assert_eq!(
        pairs(&search_case_insensitive("RU", contents)),
        pairs(&search_case_insensitive("RU", contents))
    );
}

#[test]
fn case_of_the_query_is_ignored() {
    let contents = "Rust:\nsafe, fast, productive.\nPick three.\nTrust me.";
    let expected = vec![(1, "Rust:"), (4, "Trust me.")];
    for query in ["rust", "RUST", "Rust", "rUST", "rUsT"] {
        assert_eq!(pairs(&search_case_insensitive(query, contents)), expected);
    }
}

#[test]
fn results_borrow_from_the_contents() {
    let contents = String::from("first\nsecond\r\nthird");
    let found = search("second", &contents);
    assert_eq!(found.len(), 1);
    let start = found[0].text.as_ptr() as usize - contents.as_ptr() as usize;
    assert_eq!(start, 6);
    assert_eq!(&contents[start..start + 6], "second");
}

#[test]
fn lowercasing_is_that_of_the_standard_library() {
    assert_eq!(pairs(&search_case_insensitive("\u{3c3}", "\u{3a3}")), vec![(1, "\u{3a3}")]);
    assert_eq!(pairs(&search_case_insensitive("\u{3c2}", "\u{3c2}")), vec![(1, "\u{3c2}")]);
    assert!(search_case_insensitive("\u{3a3}", "\u{3c2}").is_empty());
    assert_eq!(pairs(&search_case_insensitive("\u{df}", "\u{df}")), vec![(1, "\u{df}")]);
    assert!(search_case_insensitive("SS", "\u{df}").is_empty());
    assert_eq!(
        pairs(&search_case_insensitive("i\u{307}", "\u{130}stanbul")),
        vec![(1, "\u{130}stanbul")]
    );
}
