//! Starting the program.

use vstd::prelude::*;
use crate::error::{fail, Fallible};
use crate::text;

verus! {

/// The configuration file that is read when none is given.
pub const DEFAULT_CONFIG_FILE: &'static str = "hashcards.toml";

/// The configuration file to read.
pub fn config_file(given: Option<&str>, default_path: &str) -> (result: String)
    ensures
        result@ == match given {
            Some(p) => p@,
            None => default_path@,
        },
{
    match given {
        Some(p) => p.to_owned(),
        None => default_path.to_owned(),
    }
}

/// What is wrong where the configuration file is not there. There is no way to
/// run without one.
pub open spec fn missing_config(given: Option<Seq<char>>) -> Seq<char> {
    match given {
        Some(p) => "Config file not found: "@ + p,
        None => "No configuration file found. Expected "@ + DEFAULT_CONFIG_FILE@
            + " in the current directory, or a path given with --config. See hashcards.example.toml for the format."@,
    }
}

/// Refuses to start without a configuration file.
pub fn check_config_file(given: Option<&str>, exists: bool) -> (result: Fallible<()>)
    ensures
        match result {
            Ok(_) => exists,
            Err(e) => !exists && e@ == missing_config(text::opt_str(given)),
        },
{
    if exists {
        return Ok(());
    }
    let message = match given {
        Some(p) => text::cat2("Config file not found: ", p),
        None => text::cat3(
            "No configuration file found. Expected ",
            DEFAULT_CONFIG_FILE,
            " in the current directory, or a path given with --config. See hashcards.example.toml for the format.",
        ),
    };
    fail(message.as_str())
}

/// A configuration that is missing is named.
pub proof fn law_missing_configurations_are_named(given: Seq<char>)
    ensures
        text::ends_with(missing_config(Some(given)), given),
        text::starts_with(
            missing_config(None),
            "No configuration file found. Expected "@ + DEFAULT_CONFIG_FILE@,
        ),
{
    text::law_beginnings_and_ends_are_found("Config file not found: "@, given, given);
    text::law_beginnings_and_ends_are_found(
        "No configuration file found. Expected "@ + DEFAULT_CONFIG_FILE@,
        " in the current directory, or a path given with --config. See hashcards.example.toml for the format."@,
        given,
    );
}

} // verus!
