//! Store facade: maps logical store paths to physical paths under an
//! optional chroot prefix. Pure byte-string manipulation.

use vstd::prelude::*;

use crate::text::{spec_starts_with, starts_with};

verus! {

/// The canonical logical store prefix. The store library the server
/// once initialized process-wide is gone from this crate: its only
/// effects the core relied on were these two constants, and a
/// relocated store lives in the `Store` facade instead.
pub fn get_store_dir() -> (r: String)
    ensures
        r@ == "/nix/store"@,
{
    "/nix/store".to_owned()
}

/// The canonical physical store prefix: identical to the logical one
/// unless a facade is configured with a separate real store.
pub fn get_real_store_dir() -> (r: String)
    ensures
        r@ == "/nix/store"@,
{
    "/nix/store".to_owned()
}

/// Two prefixes: `virtual_store` is what clients see, `real_store`,
/// when set, is where the bytes physically live.
pub struct Store {
    pub virtual_store: Vec<u8>,
    pub real_store: Option<Vec<u8>>,
}

impl Store {
    /// The physical root: the real store when set, else the virtual one.
    pub open spec fn spec_real_store(&self) -> Seq<u8> {
        match self.real_store {
            Some(r) => r@,
            None => self.virtual_store@,
        }
    }

    /// Rewrite of a logical path to a physical one: a leading
    /// `virtual_store` becomes `real_store`; any other path is kept.
    pub open spec fn spec_get_real_path(&self, p: Seq<u8>) -> Seq<u8> {
        if self.real_store is Some && spec_starts_with(p, self.virtual_store@) {
            self.real_store.unwrap()@ + p.skip(self.virtual_store@.len() as int)
        } else {
            p
        }
    }

    pub fn new(virtual_store: Vec<u8>, real_store: Option<Vec<u8>>) -> (r: Self)
        ensures
            r.virtual_store == virtual_store,
            r.real_store == real_store,
    {
        Self { virtual_store, real_store }
    }

    pub fn get_real_path(&self, virtual_path: &[u8]) -> (r: Vec<u8>)
        ensures
            r@ == self.spec_get_real_path(virtual_path@),
    {
        match &self.real_store {
            Some(rs) => {
                if starts_with(virtual_path, self.virtual_store.as_slice()) {
                    let mut out: Vec<u8> = Vec::new();
                    out.extend_from_slice(rs.as_slice());
                    let rest = vstd::slice::slice_subrange(
                        virtual_path,
                        self.virtual_store.len(),
                        virtual_path.len(),
                    );
                    out.extend_from_slice(rest);
                    proof {
                        assert(out@ =~= self.spec_get_real_path(virtual_path@));
                    }
                    out
                } else {
                    vstd::slice::slice_to_vec(virtual_path)
                }
            },
            None => vstd::slice::slice_to_vec(virtual_path),
        }
    }

    pub fn real_store(&self) -> (r: &Vec<u8>)
        ensures
            r@ == self.spec_real_store(),
    {
        match &self.real_store {
            Some(r) => r,
            None => &self.virtual_store,
        }
    }

    pub fn virtual_store(&self) -> (r: &Vec<u8>)
        ensures
            r@ == self.virtual_store@,
    {
        &self.virtual_store
    }
}

} // verus!
