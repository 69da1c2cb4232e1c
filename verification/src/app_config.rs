//! The resolved configuration an invocation runs with.

use vstd::prelude::*;

use crate::args::ConfigArgs;
use crate::profile::Profile;

verus! {

/// Where the active profile's files are, and whether the profile exists.
#[derive(Debug, Clone)]
pub struct AppConfig {
    pub profile_path: String,
    pub db_path: String,
    pub profile_exists: bool,
}

impl AppConfig {
    /// Resolve the configuration: the database path comes from the profile
    /// when it names one, else from the platform default handed in; the
    /// profile's own path and existence carry over.
    pub fn from_args(
        _args: ConfigArgs,
        profile_path: &str,
        profile: Option<&Profile>,
        default_db_path: &str,
    ) -> (r: AppConfig)
        ensures
            r.profile_path@ == profile_path@,
            r.profile_exists == profile is Some,
            match profile {
                Some(p) => match p.db_path {
                    Some(d) => r.db_path@ == d@,
                    None => r.db_path@ == default_db_path@,
                },
                None => r.db_path@ == default_db_path@,
            },
    {
        let db_path = match profile {
            Some(p) => match &p.db_path {
                Some(d) => d.clone(),
                None => default_db_path.to_owned(),
            },
            None => default_db_path.to_owned(),
        };
        AppConfig {
            profile_exists: profile.is_some(),
            profile_path: profile_path.to_owned(),
            db_path,
        }
    }
}

} // verus!
