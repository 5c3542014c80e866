//! Parsing of textual key names into key identifiers.

use vstd::prelude::*;

verus! {

/// The key identifier a canonical key name parses to, or `None` for a name
/// the key-code table does not know. The result depends on the name alone.
pub uninterp spec fn parsed_key(name: Seq<char>) -> Option<u16>;

/// Relies on `livesplit_hotkey::KeyCode::from_str`: it maps a canonical key
/// name to the key code for that physical key, a pure function of the name,
/// and fails exactly on unrecognized names. The fieldless key-code enum is
/// carried as its discriminant value.
#[verifier::external_body]
pub(crate) fn parse_key_name(name: &str) -> (r: Option<u16>)
    ensures
        r == parsed_key(name@),
{
    match <livesplit_hotkey::KeyCode as core::str::FromStr>::from_str(name) {
        Ok(k) => Some(k as u16),
        Err(()) => None,
    }
}

} // verus!
