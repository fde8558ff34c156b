//! Configuration defaults and the signing-key material. File reading,
//! environment lookups and the settings-file syntax live outside the
//! library; the values and their rules live here.

use vstd::prelude::*;

verus! {

/// Default listen address.
pub fn default_bind() -> (r: String)
    ensures
        r@ == "[::]:5000"@,
{
    "[::]:5000".to_owned()
}

/// Default worker count.
pub fn default_workers() -> (r: usize)
    ensures
        r == 4,
{
    4
}

/// Default connection-rate cap.
pub fn default_connection_rate() -> (r: usize)
    ensures
        r == 256,
{
    256
}

/// Default cache priority.
pub fn default_priority() -> (r: usize)
    ensures
        r == 30,
{
    30
}

/// Default virtual store prefix.
pub fn default_virtual_store() -> (r: String)
    ensures
        r@ == "/nix/store"@,
{
    "/nix/store".to_owned()
}

/// A named Ed25519 signing key: `key` is the 64-byte expanded secret,
/// the seed followed by the public half.
pub struct SigningKey {
    pub name: Vec<u8>,
    pub key: Vec<u8>,
}

impl SigningKey {
    /// Well-formedness: the secret is exactly 64 bytes.
    pub open spec fn wf(&self) -> bool {
        self.key@.len() == 64
    }
}

} // verus!
