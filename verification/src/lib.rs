pub mod bencode;
pub mod digest;
pub mod encoding;
pub mod peer;
pub mod random;
pub mod text;
pub mod torrent;
pub mod tracker;
pub mod url_ops;
