//! Runtime configuration: the store's connection settings, with built-in
//! defaults, file values and environment overrides in that order of
//! precedence (lowest first).

use vstd::prelude::*;

use crate::model::opt_view;

verus! {

/// The built-in store URL.
pub open spec fn default_url() -> Seq<char> {
    "http://127.0.0.1:8090"@
}

/// The built-in superuser email.
pub open spec fn default_email() -> Seq<char> {
    "admin@pricehunter.local"@
}

/// Store connection settings.
pub struct Pocketbase {
    pub url: String,
    pub email: String,
    pub password: Option<String>,
}

impl Default for Pocketbase {
    fn default() -> (r: Self)
        ensures
            r.url@ == default_url(),
            r.email@ == default_email(),
            r.password.is_none(),
    {
        Pocketbase {
            url: "http://127.0.0.1:8090".to_string(),
            email: "admin@pricehunter.local".to_string(),
            password: None,
        }
    }
}

/// All runtime settings.
pub struct Config {
    pub pocketbase: Pocketbase,
}

impl Default for Config {
    fn default() -> (r: Self)
        ensures
            r.pocketbase.url@ == default_url(),
            r.pocketbase.email@ == default_email(),
            r.pocketbase.password.is_none(),
    {
        Config { pocketbase: Pocketbase::default() }
    }
}

impl Config {
    /// The settings that a configuration file gives: each key it sets, the
    /// default for each key it leaves out.
    pub fn from_fields(url: Option<String>, email: Option<String>, password: Option<String>) -> (r: Self)
        ensures
            r.pocketbase.url@ == match url {
                Some(u) => u@,
                None => default_url(),
            },
            r.pocketbase.email@ == match email {
                Some(e) => e@,
                None => default_email(),
            },
            opt_view(r.pocketbase.password) == opt_view(password),
    {
        let d = Pocketbase::default();
        Config {
            pocketbase: Pocketbase {
                url: match url {
                    Some(u) => u,
                    None => d.url,
                },
                email: match email {
                    Some(e) => e,
                    None => d.email,
                },
                password,
            },
        }
    }

    /// Applies overrides (from the environment) on top of these settings:
    /// each value that is present replaces the one in place.
    pub fn with_overrides(self, url: Option<String>, email: Option<String>, password: Option<String>) -> (r: Self)
        ensures
            r.pocketbase.url@ == match url {
                Some(u) => u@,
                None => self.pocketbase.url@,
            },
            r.pocketbase.email@ == match email {
                Some(e) => e@,
                None => self.pocketbase.email@,
            },
            opt_view(r.pocketbase.password) == match password {
                Some(p) => Some(p@),
                None => opt_view(self.pocketbase.password),
            },
    {
        let pb = self.pocketbase;
        Config {
            pocketbase: Pocketbase {
                url: match url {
                    Some(u) => u,
                    None => pb.url,
                },
                email: match email {
                    Some(e) => e,
                    None => pb.email,
                },
                password: match password {
                    Some(p) => Some(p),
                    None => pb.password,
                },
            },
        }
    }

    /// The password to authenticate with, or `None` when unset or empty.
    pub fn password(&self) -> (r: Option<&str>)
        ensures
            match r {
                Some(p) => self.pocketbase.password matches Some(q) && q@ == p@ && p@.len() > 0,
                None => match self.pocketbase.password {
                    Some(q) => q@.len() == 0,
                    None => true,
                },
            },
    {
        match &self.pocketbase.password {
            Some(p) => if p.as_str().is_empty() {
                None
            } else {
                Some(p.as_str())
            },
            None => None,
        }
    }
}

} // verus!
