pub mod peer;
pub mod peer_id;
pub mod value;

pub use peer::{build_handshake, handshake_peer_id};
pub use value::{PeerError, PeerMessage, PeerMessageType};
