use vstd::prelude::*;
use crate::key::{AbsolutePackageKey, key_text, parse_key, valid_key};

verus! {

/// Carries package keys across the foreign-function boundary in their
/// canonical string form.
pub struct PackageKeyMarshaler;

impl PackageKeyMarshaler {
    /// The string handed to a foreign caller for a key.
    pub fn to_foreign(key: &AbsolutePackageKey) -> (r: String)
        ensures
            r@ == key_text(key@),
    {
        key.to_string()
    }

    /// The key a foreign caller's string names.
    pub fn from_foreign(s: &str) -> (r: Result<AbsolutePackageKey, ()>)
        ensures
            match r {
                Ok(k) => parse_key(s@) == Some(k@) && valid_key(k@) && key_text(k@) == s@,
                Err(_) => parse_key(s@) is None,
            },
    {
        AbsolutePackageKey::from_string(s)
    }
}

} // verus!
