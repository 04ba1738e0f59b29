//! Configuration from the environment: without an API key the program does not start.

use vstd::prelude::*;

use crate::error::AgentError;
use crate::text::{blank, concat2, is_blank, owned};

verus! {

broadcast use vstd::string::group_string_axioms;

/// The endpoint that is used where none is set.
pub const DEFAULT_BASE_URL: &'static str = "https://api.openai.com/v1";

/// The model that is used where none is set.
pub const DEFAULT_MODEL: &'static str = "gpt-4.1";

/// The configuration of the program.
#[derive(Debug)]
pub struct Config {
    pub api_key: String,
    pub base_url: String,
    pub model: String,
    pub workdir: String,
    pub skills_dir: String,
}

/// The variables of the environment that the configuration is made of, and the current directory.
#[derive(Debug)]
pub struct Environment {
    pub api_key: Option<String>,
    pub base_url: Option<String>,
    pub model: Option<String>,
    pub skills_dir: Option<String>,
    pub cwd: String,
}

fn or_default(value: Option<String>, default: &str) -> (r: String)
    ensures
        r@ == match value {
            Some(v) => v@,
            None => default@,
        },
{
    match value {
        Some(v) => v,
        None => owned(default),
    }
}

impl Config {
    /// The configuration that the environment describes.
    pub fn from_env(env: Environment) -> (r: Result<Self, AgentError>)
        ensures
            match env.api_key {
                None => r matches Err(AgentError::Validation(m)) && m@ == "OPENAI_API_KEY not set"@,
                Some(key) => if blank(key@) {
                    r matches Err(AgentError::Validation(m)) && m@ == "OPENAI_API_KEY is empty"@
                } else {
                    &&& r matches Ok(c)
                    &&& c.api_key@ == key@
                    &&& c.base_url@ == match env.base_url {
                        Some(v) => v@,
                        None => DEFAULT_BASE_URL@,
                    }
                    &&& c.model@ == match env.model {
                        Some(v) => v@,
                        None => DEFAULT_MODEL@,
                    }
                    &&& c.workdir@ == env.cwd@
                    &&& c.skills_dir@ == match env.skills_dir {
                        Some(v) => if blank(v@) {
                            env.cwd@ + "/skills"@
                        } else {
                            v@
                        },
                        None => env.cwd@ + "/skills"@,
                    }
                },
            },
    {
        let api_key = match env.api_key {
            None => {
                return Err(AgentError::Validation(owned("OPENAI_API_KEY not set")));
            },
            Some(key) => key,
        };
        if is_blank(api_key.as_str()) {
            return Err(AgentError::Validation(owned("OPENAI_API_KEY is empty")));
        }
        let base_url = or_default(env.base_url, DEFAULT_BASE_URL);
        let model = or_default(env.model, DEFAULT_MODEL);
        let skills_dir = match env.skills_dir {
            Some(v) => if is_blank(v.as_str()) {
                concat2(env.cwd.as_str(), "/skills")
            } else {
                v
            },
            None => concat2(env.cwd.as_str(), "/skills"),
        };
        Ok(Config { api_key, base_url, model, workdir: env.cwd, skills_dir })
    }
}

} // verus!
