//! The client's settings: which server to sync with.

use vstd::prelude::*;

verus! {

/// `~/.config/wanna/config.toml`; `WANNA_SERVER` and `WANNA_TOKEN` win
/// over the file.
#[derive(Debug, Default)]
pub struct Config {
    pub server: Option<String>,
    pub token: Option<String>,
}

impl Config {
    /// `(server, token)` when both are set.
    pub fn remote(&self) -> (r: Option<(&str, &str)>)
        ensures
            r is Some <==> (self.server is Some && self.token is Some),
            r matches Some((s, t)) ==> s@ == self.server->0@ && t@ == self.token->0@,
    {
        match (&self.server, &self.token) {
            (Some(s), Some(t)) => Some((s.as_str(), t.as_str())),
            _ => None,
        }
    }
}

} // verus!
