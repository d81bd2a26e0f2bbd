use minigrep::{render, run, Config, MatchingLine};

fn config(query: &str, case_sensitive: bool) -> Config {
    Config {
        query: query.to_string(),
        filename: String::from("poem.txt"),
        case_sensitive,
    }
}

#[test]
fn render_puts_number_colon_space_text() {
    let entry = MatchingLine {
        number: 2,
        text: "safe, fast, productive.",
    };
    assert_eq!(render(&entry), "2: safe, fast, productive.");
}

#[test]
fn render_writes_the_number_in_decimal() {
    for number in [1, 9, 10, 11, 99, 100, 101, 1000, 65535, 4294967295, usize::MAX] {
        let entry = MatchingLine { number, text: "x" };
        assert_eq!(render(&entry), format!("{}: x", number));
    }
    let entry = MatchingLine { number: 120, text: "" };
    assert_eq!(render(&entry), "120: ");
}

#[test]
fn run_is_case_sensitive_when_asked() {
    let contents = "Rust:\nsafe, fast, productive.\nPick three.\nDuct tape";
    assert_eq!(
        run(&config("duct", true), contents),
        vec!["2: safe, fast, productive."]
    );
}

#[test]
fn run_ignores_case_when_asked() {
    let contents = "Rust:\nsafe, fast, productive.\nPick three.\nTrust me.";
    assert_eq!(
        run(&config("rUST", false), contents),
        vec!["1: Rust:", "4: Trust me."]
    );
    assert!(run(&config("rUST", true), contents).is_empty());
}

#[test]
fn run_prints_nothing_for_no_match() {
    assert!(run(&config("duct", true), "").is_empty());
    assert!(run(&config("duct", false), "Pick three.\n").is_empty());
}

#[test]
fn run_numbers_past_nine() {
    let contents = "a\nb\nc\nd\ne\nf\ng\nh\ni\nj\nk\nl\n";
    assert_eq!(run(&config("l", true), contents), vec!["12: l"]);
    assert_eq!(run(&config("J", false), contents), vec!["10: j"]);
}
