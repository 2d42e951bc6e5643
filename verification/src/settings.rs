//! Locally persisted user settings, and the placement of the profile
//! cache next to the settings file. Reading and writing the files
//! themselves is the caller's concern; this module only holds the data
//! and computes the cache path.

use vstd::prelude::*;
use vstd::string::StrSliceExecFns;
use vstd::string::StringExecFns;
use crate::seq_util::last_where;
use crate::strings::is_separator;

verus! {

/// The settings kept on disk between sessions: the access key for the
/// profile service and the name of the selected profile, if any.
pub struct LocalSettings {
    pub access_key: String,
    pub selected_config: Option<String>,
}

impl LocalSettings {
    /// Fresh settings: empty access key, no profile selected.
    pub fn new() -> (r: LocalSettings)
        ensures
            r.access_key@ == Seq::<char>::empty(),
            r.selected_config is None,
    {
        LocalSettings { access_key: String::new(), selected_config: None }
    }
}

/// The directory part of a path: everything up to and including the last
/// separator, or nothing when there is none.
pub open spec fn dir_prefix(s: Seq<char>) -> Seq<char> {
    s.subrange(0, last_where(s, |c: char| is_separator(c)) + 1)
}

/// The profile-cache path: the settings file's directory with the file
/// name replaced by `configs.json`.
pub open spec fn configs_path_spec(s: Seq<char>) -> Seq<char> {
    dir_prefix(s) + "configs.json"@
}

/// The path of the profile cache stored beside the settings file.
pub fn configs_path_from_settings(settings_path: &str) -> (r: String)
    ensures
        r@ == configs_path_spec(settings_path@),
{
    let len = settings_path.unicode_len();
    let mut cut: usize = 0;
    let mut i: usize = 0;
    while i < len
        invariant
            i <= len,
            cut <= i,
            len == settings_path@.len(),
            cut > 0 ==> is_separator(settings_path@[cut - 1]),
            forall|j: int| cut <= j < i ==> !is_separator(#[trigger] settings_path@[j]),
            cut == 0 ==> forall|j: int|
                0 <= j < i ==> !is_separator(#[trigger] settings_path@[j]),
        decreases len - i,
    {
        let c = settings_path.get_char(i);
        if c == '/' || c == '\\' {
            cut = i + 1;
        }
        i = i + 1;
    }
    proof {
        crate::seq_util::lemma_last_where_unique(
            settings_path@,
            |c: char| is_separator(c),
            cut - 1,
        );
    }
    let prefix = settings_path.substring_char(0, cut);
    prefix.to_owned().concat("configs.json")
}

} // verus!
