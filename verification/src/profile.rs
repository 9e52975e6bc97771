//! Which Personae profile Graphshell speaks as.
//!
//! The ladder: an explicit choice from the caller (a `--profile` flag), then
//! this application's own override in [`PROFILE_ENV`], then the family choice
//! that every Merely application honours. The first two rungs are decided
//! here; the family rung needs the opened vault and belongs to the host.

use vstd::prelude::*;

use crate::text::{chars_of, string_from_chars, trim, trim_chars};

verus! {

/// Environment override for the profile Graphshell speaks as, above the
/// family-wide choice.
pub const PROFILE_ENV: &'static str = "GRAPHSHELL_PROFILE";

/// This application's own override, from the value [`PROFILE_ENV`] holds:
/// the value trimmed, or nothing when it is unset or blank.
///
/// `None` means Graphshell has no opinion of its own and the family choice
/// decides, which is the ordinary case.
pub fn env_profile(value: Option<String>) -> (r: Option<String>)
    ensures
        match value {
            None => r.is_none(),
            Some(v) => if trim(v@).len() == 0 {
                r.is_none()
            } else {
                r matches Some(p) && p@ == trim(v@)
            },
        },
{
    match value {
        None => None,
        Some(v) => {
            let trimmed = trim_chars(&chars_of(v.as_str()));
            if trimmed.len() == 0 {
                None
            } else {
                Some(string_from_chars(&trimmed))
            }
        },
    }
}

/// The profile the first two rungs choose: the explicit one, else the
/// application's override read from [`PROFILE_ENV`]. `None` leaves the
/// choice to the family ladder.
pub fn resolve_selected_profile(explicit: Option<&str>, from_env: Option<String>) -> (r: Option<
    String,
>)
    ensures
        match explicit {
            Some(p) => r matches Some(q) && q@ == p@,
            None => match value_override(from_env) {
                Some(o) => r matches Some(q) && q@ == o,
                None => r.is_none(),
            },
        },
{
    match explicit {
        Some(p) => Some(p.to_owned()),
        None => env_profile(from_env),
    }
}

/// The override an environment value gives, as a sequence.
pub open spec fn value_override(value: Option<String>) -> Option<Seq<char>> {
    match value {
        None => None,
        Some(v) => if trim(v@).len() == 0 {
            None
        } else {
            Some(trim(v@))
        },
    }
}

} // verus!
