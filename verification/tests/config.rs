use minigrep::{Config, ConfigError, CASE_INSENSITIVE};

fn strings(words: &[&str]) -> Vec<String> {
    words.iter().map(|word| word.to_string()).collect()
}

fn variables(pairs: &[(&str, &str)]) -> Vec<(String, String)> {
    pairs
        .iter()
        .map(|(name, value)| (name.to_string(), value.to_string()))
        .collect()
}

#[test]
fn too_few_arguments_are_refused() {
    let environment = variables(&[]);
    for words in [&[][..], &["minigrep"][..], &["minigrep", "duct"][..]] {
        let built = Config::new(&strings(words), &environment);
        assert_eq!(built.unwrap_err(), ConfigError::InsufficientArguments);
    }
}

#[test]
fn too_few_arguments_are_refused_whatever_the_environment() {
    let environment = variables(&[("CASE_INSENSITIVE", "1")]);
    let built = Config::new(&strings(&["minigrep", "duct"]), &environment);
    assert_eq!(built.unwrap_err(), ConfigError::InsufficientArguments);
}

#[test]
fn query_and_filename_are_taken_in_order() {
    let built = Config::new(
        &strings(&["minigrep", "duct", "poem.txt"]),
        &variables(&[("HOME", "/root")]),
    )
    .unwrap();
    assert_eq!(built.query, "duct");
    assert_eq!(built.filename, "poem.txt");
    assert!(built.case_sensitive);
}

#[test]
fn further_arguments_are_ignored() {
    let built = Config::new(
        &strings(&["minigrep", "duct", "poem.txt", "more", "still more"]),
        &variables(&[]),
    )
    .unwrap();
    assert_eq!(built.query, "duct");
    assert_eq!(built.filename, "poem.txt");
}

#[test]
fn the_variable_switches_case_off_by_its_presence() {
    let args = strings(&["minigrep", "duct", "poem.txt"]);
    for value in ["1", "0", "false", ""] {
        let environment = variables(&[("PATH", "/bin"), ("CASE_INSENSITIVE", value)]);
        assert!(!Config::new(&args, &environment).unwrap().case_sensitive);
    }
}

#[test]
fn other_variables_do_not_switch_case_off() {
    let args = strings(&["minigrep", "duct", "poem.txt"]);
    let environment = variables(&[
        ("case_insensitive", "1"),
        ("CASE_INSENSITIVE_", "1"),
        ("CASE_SENSITIVE", "1"),
        ("X", "CASE_INSENSITIVE"),
    ]);
    assert!(Config::new(&args, &environment).unwrap().case_sensitive);
}

#[test]
fn the_variable_is_called_case_insensitive() {
    assert_eq!(CASE_INSENSITIVE, "CASE_INSENSITIVE");
}

#[test]
fn the_error_has_a_message() {
    assert_eq!(
        ConfigError::InsufficientArguments.message(),
        "Not enough arguments."
    );
}
