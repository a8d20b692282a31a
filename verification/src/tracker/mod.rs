pub mod tracker;
pub mod value;

pub use tracker::build_request;
pub use value::{PeerAddr, PEER_ID};
pub use value::TrackerRequest as Request;
pub use value::TrackerResponse as Response;
