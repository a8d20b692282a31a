//! Peer ids.
use vstd::prelude::*;

use crate::encoding::{hex_encode, hex_lower};
use crate::random::random_bytes_20;

verus! {

/// The 20-byte id a peer goes by.
pub struct PeerID(pub [u8; 20]);

impl PeerID {
    /// A random id.
    pub fn generate() -> (r: PeerID) {
        PeerID(random_bytes_20())
    }

    /// The id made of `bytes`, if there are exactly 20 of them.
    pub fn from_bytes(bytes: &[u8]) -> (r: Option<PeerID>)
        ensures
            bytes@.len() == 20 <==> r is Some,
            r matches Some(id) ==> id.0@ == bytes@,
    {
        if bytes.len() != 20 {
            return None;
        }
        let mut id = [0u8; 20];
        let mut i: usize = 0;
        while i < 20
            invariant
                bytes@.len() == 20,
                i <= 20,
                forall|j: int| 0 <= j < i ==> id@[j] == bytes@[j],
            decreases 20 - i,
        {
            id[i] = bytes[i];
            i += 1;
        }
        assert(id@ =~= bytes@);
        Some(PeerID(id))
    }

    /// The id in lowercase hex, two digits per byte.
    pub fn to_hex(&self) -> (r: String)
        ensures
            r@ == hex_lower(self.0@),
    {
        hex_encode(self.0.as_slice())
    }
}

} // verus!
