//! The settings that the command line gives.

use vstd::prelude::*;

verus! {

/// The settings of one run of the exporter.
#[derive(Clone, Debug, PartialEq, Eq)]
pub struct Args {
    /// Path to the file that holds the environment.
    pub env_file: String,
    /// Socket address to bind the exporter to.
    pub bind: String,
}

/// The environment file that is read where none is named.
pub open spec fn default_env_file() -> Seq<char> {
    "./.env"@
}

/// The socket address that is bound where none is named.
pub open spec fn default_bind() -> Seq<char> {
    "0.0.0.0:9101"@
}

impl Args {
    /// The settings for what was given on the command line: each option as
    /// given, or its default where it was left out.
    pub fn get_params(env_file: Option<String>, bind: Option<String>) -> (r: Args)
        ensures
            r.env_file@ == match env_file {
                Some(path) => path@,
                None => default_env_file(),
            },
            r.bind@ == match bind {
                Some(address) => address@,
                None => default_bind(),
            },
    {
        Args {
            env_file: match env_file {
                Some(path) => path,
                None => "./.env".to_owned(),
            },
            bind: match bind {
                Some(address) => address,
                None => "0.0.0.0:9101".to_owned(),
            },
        }
    }
}

} // verus!
