//! What a run is asked to do, as read from the command line and the
//! environment.

use vstd::prelude::*;
use vstd::string::*;

verus! {

/// The name of the environment variable that, when set to any value,
/// makes the search ignore case.
pub const CASE_INSENSITIVE: &'static str = "CASE_INSENSITIVE";

/// The settings of one run.
#[derive(Debug)]
pub struct Config {
    /// The text to look for.
    pub query: String,
    /// The path of the file to search.
    pub filename: String,
    /// Whether letters match only letters of the same case.
    pub case_sensitive: bool,
}

/// Why no `Config` could be built.
#[derive(Debug, Clone, Copy, PartialEq, Eq, Structural)]
pub enum ConfigError {
    /// The command line lacks the query, the file path, or both.
    InsufficientArguments,
}

/// Whether `environment` holds a variable called `name`, whatever its
/// value.
pub open spec fn is_set(environment: Seq<(String, String)>, name: Seq<char>) -> bool {
    exists|i: int| 0 <= i < environment.len() && (#[trigger] environment[i]).0@ == name
}

/// Whether `environment` holds a variable called `name`, whatever its
/// value.
fn lookup(environment: &Vec<(String, String)>, name: &str) -> (found: bool)
    ensures
        found == is_set(environment@, name@),
{
    let wanted = String::from_str(name);
    let mut i: usize = 0;
    while i < environment.len()
        invariant
            i <= environment.len(),
            wanted@ == name@,
            forall|k: int| 0 <= k < i ==> (#[trigger] environment@[k]).0@ != name@,
        decreases environment.len() - i,
    {
        if environment[i].0 == wanted {
            return true;
        }
        i += 1;
    }
    false
}

impl ConfigError {
    /// The message shown to the user.
    pub fn message(&self) -> (text: String)
        ensures
            text@ == "Not enough arguments."@,
    {
        String::from_str("Not enough arguments.")
    }
}

impl Config {
    /// Builds the settings from the command line and the environment.
    ///
    /// `args` is the command line as the program received it: the
    /// program's name, then the query, then the file path. Anything after
    /// these is ignored. `environment` lists the environment variables as
    /// pairs of name and value. The search is case-sensitive unless the
    /// variable `CASE_INSENSITIVE` is among them.
    pub fn new(args: &Vec<String>, environment: &Vec<(String, String)>) -> (built: Result<
        Config,
        ConfigError,
    >)
        ensures
            args.len() < 3 ==> built == Err::<Config, ConfigError>(
                ConfigError::InsufficientArguments,
            ),
            args.len() >= 3 ==> {
                &&& built matches Ok(config)
                &&& config.query@ == args[1]@
                &&& config.filename@ == args[2]@
                &&& config.case_sensitive == !is_set(environment@, CASE_INSENSITIVE@)
            },
    {
        if args.len() < 3 {
            return Err(ConfigError::InsufficientArguments);
        }
        let query = args[1].clone();
        let filename = args[2].clone();
        let case_sensitive = !lookup(environment, CASE_INSENSITIVE);
        Ok(Config { query, filename, case_sensitive })
    }
}

} // verus!
