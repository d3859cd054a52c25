//! The repository's own settings file.
use crate::text::{trim, trim_text};
use vstd::prelude::*;
use vstd::string::StringSliceAdditionalSpecFns;
use vstd::utf8::encode_utf8;

verus! {

/// The repository's settings file: the address of its registry contract.
#[derive(Debug)]
pub struct Config {
    pub repository_address: String,
}

impl Config {
    pub fn new(repository_address: String) -> (r: Config)
        ensures
            r.repository_address@ == repository_address@,
    {
        Config { repository_address }
    }

    /// Reads the settings file's text: the address, trimmed.
    pub fn from_content(content: &str) -> (r: Config)
        ensures
            r.repository_address@ == trim(content@),
    {
        Config { repository_address: trim_text(content) }
    }

    /// The bytes to write to the settings file.
    pub fn content(&self) -> (r: Vec<u8>)
        ensures
            r@ == encode_utf8(self.repository_address@),
    {
        let b = self.repository_address.as_str().as_bytes();
        assert(b@.subrange(0, b@.len() as int) =~= b@);
        crate::bytes::copy_range(b, 0, b.len())
    }
}

} // verus!
