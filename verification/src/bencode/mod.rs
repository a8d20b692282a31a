pub mod decode;
pub mod canonical;
pub mod dict;
pub mod encode;
pub mod grammar;
pub mod laws;
pub mod model;
pub mod value;

pub use decode::decode;
pub use encode::encode;
pub use model::{BencodeParseError, BencodeValue, ByteString, ParseError, Term};
