//! The remote-store configuration record.  The surrounding program reads
//! and writes it; this module owns its shape and its validity rule.

use vstd::prelude::*;
use vstd::string::*;

verus! {

/// Credentials and endpoint of the remote object store.
#[derive(Debug, PartialEq, Eq)]
pub struct Config {
    pub access_key_id: String,
    pub secret_access_key: String,
    pub region: String,
    pub endpoint_url: String,
    pub bucket: String,
}

impl Config {
    /// The empty configuration: the shape written into a fresh
    /// configuration file for the user to fill in.
    pub fn new_empty() -> (r: Self)
        ensures
            r.access_key_id@.len() == 0,
            r.secret_access_key@.len() == 0,
            r.region@.len() == 0,
            r.endpoint_url@.len() == 0,
            r.bucket@.len() == 0,
    {
        Config {
            access_key_id: String::new(),
            secret_access_key: String::new(),
            region: String::new(),
            endpoint_url: String::new(),
            bucket: String::new(),
        }
    }

    /// A configuration is usable exactly when every field is filled in.
    pub fn is_valid(&self) -> (r: bool)
        ensures
            r == (self.access_key_id@.len() > 0 && self.secret_access_key@.len() > 0
                && self.region@.len() > 0 && self.endpoint_url@.len() > 0
                && self.bucket@.len() > 0),
    {
        !(self.access_key_id.as_str().is_empty() || self.secret_access_key.as_str().is_empty()
            || self.region.as_str().is_empty() || self.endpoint_url.as_str().is_empty()
            || self.bucket.as_str().is_empty())
    }
}

} // verus!
