//! Profiles: the named configurations a device keeps, and where their
//! files live.
//!
//! Reading and writing the files, and discovering the platform's
//! configuration and data directories, happen outside; these functions
//! take the directories as plain values and assemble the paths.

use vstd::prelude::*;

verus! {

/// One profile's configuration: where its database lives and which tags
/// every new note gets.
#[derive(Debug, Clone)]
pub struct Profile {
    pub db_path: Option<String>,
    pub default_tags: Vec<String>,
}

impl Default for Profile {
    /// A profile with no database path of its own and no default tags.
    fn default() -> (r: Profile)
        ensures
            r.db_path is None,
            r.default_tags.deep_view() == Seq::<Seq<char>>::empty(),
    {
        let r = Profile { db_path: None, default_tags: Vec::new() };
        proof {
            assert(r.default_tags.deep_view() =~= Seq::<Seq<char>>::empty());
        }
        r
    }
}

/// Path of a profile's configuration file under the configuration
/// directory.
pub fn get_profile_config_path(config_dir: &str, profile_name: &str) -> (r: String)
    ensures
        r@ == config_dir@ + "/profiles/"@ + profile_name@ + ".toml"@,
{
    let mut r = config_dir.to_owned();
    r.append("/profiles/");
    r.append(profile_name);
    r.append(".toml");
    r
}

/// Path of a profile's note database under the data directory.
pub fn get_profile_db_path(data_dir: &str, profile_name: &str) -> (r: String)
    ensures
        r@ == data_dir@ + "/profiles/"@ + profile_name@ + "/notes.db"@,
{
    let mut r = data_dir.to_owned();
    r.append("/profiles/");
    r.append(profile_name);
    r.append("/notes.db");
    r
}

/// Path of the configuration file to use: the named profile's when one was
/// given, the current profile's otherwise.
pub fn get_profile_path(config_dir: &str, arg_profile: &Option<String>, current_name: &str) -> (r:
    String)
    ensures
        arg_profile matches Some(name) ==> r@ == config_dir@ + "/profiles/"@ + name@ + ".toml"@,
        arg_profile is None ==> r@ == config_dir@ + "/profiles/"@ + current_name@ + ".toml"@,
{
    match arg_profile {
        Some(name) => get_profile_config_path(config_dir, name.as_str()),
        None => get_profile_config_path(config_dir, current_name),
    }
}

} // verus!
