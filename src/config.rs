//! Configuration: the repository's own settings file and the settings that
//! the environment supplies.
use crate::digest::is_hex_byte;
use vstd::prelude::*;
use vstd::string::StringSliceAdditionalSpecFns;

verus! {

/// Settings that come from the environment.
#[derive(Debug)]
pub struct Config {
    pub contract_address: Option<String>,
    pub pinata_api_key: String,
    pub pinata_secret_api_key: String,
    pub pk: String,
    pub rpc_url: String,
    pub ipfs_prefix: String,
}

impl Config {
    /// The registry contract's address: the environment's if it names one,
    /// else the repository's settings file's.
    pub fn get_contract_address(&self, stored: &crate::git_config::Config) -> (r: String)
        ensures
            r@ == match self.contract_address {
                Some(a) => a@,
                None => stored.repository_address@,
            },
    {
        match &self.contract_address {
            Some(a) => a.clone(),
            None => stored.repository_address.clone(),
        }
    }

    pub fn get_pinata_api_key(&self) -> (r: String)
        ensures
            r@ == self.pinata_api_key@,
    {
        self.pinata_api_key.clone()
    }

    pub fn get_pinata_secret_api_key(&self) -> (r: String)
        ensures
            r@ == self.pinata_secret_api_key@,
    {
        self.pinata_secret_api_key.clone()
    }

    pub fn pk(&self) -> (r: String)
        ensures
            r@ == self.pk@,
    {
        self.pk.clone()
    }

    pub fn rpc_url(&self) -> (r: String)
        ensures
            r@ == self.rpc_url@,
    {
        self.rpc_url.clone()
    }

    pub fn ipfs_prefix(&self) -> (r: String)
        ensures
            r@ == self.ipfs_prefix@,
    {
        self.ipfs_prefix.clone()
    }
}

/// `"0x"` and forty hex digits (either case) start at `i` in `b`.
pub open spec fn address_at(b: Seq<u8>, i: int) -> bool {
    &&& 0 <= i
    &&& i + 42 <= b.len()
    &&& b[i] == 48u8
    &&& b[i + 1] == 120u8
    &&& forall|j: int| 2 <= j < 42 ==> is_hex_byte(#[trigger] b[i + j])
}

/// Relies on regex::Regex::is_match with the pattern `0x[a-fA-F0-9]{40}`,
/// which is unanchored: it holds when the pattern occurs anywhere in the
/// text.  The pattern is a valid constant, so compiling it succeeds.
#[verifier::external_body]
fn contains_address(text: &str) -> (r: bool)
    ensures
        r == exists|i: int| address_at(text.spec_bytes(), i),
{
    match regex::Regex::new(r"0x[a-fA-F0-9]{40}") {
        Ok(re) => re.is_match(text),
        Err(_) => false,
    }
}

/// A registry contract address: exactly `"0x"` and forty hex digits.
pub open spec fn is_contract_address(b: Seq<u8>) -> bool {
    b.len() == 42 && address_at(b, 0)
}

/// Whether `address` is a registry contract address.
pub fn valid_contract_address(address: &str) -> (r: bool)
    ensures
        r == is_contract_address(address.spec_bytes()),
{
    let found = contains_address(address);
    let n = address.as_bytes().len();
    let ghost b = address.spec_bytes();
    assert(n == b.len());
    proof {
        if found && n == 42 {
            let i = choose|i: int| address_at(b, i);
            assert(address_at(b, i));
            assert(i == 0);
        }
        if is_contract_address(b) {
            assert(address_at(b, 0));
        }
    }
    found && n == 42
}

} // verus!
