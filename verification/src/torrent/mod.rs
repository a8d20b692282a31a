pub mod client;
pub mod value;

pub use client::{Client, ClientError, Torrent};
pub use value::{Info, MetaInfo, TorrentError};
