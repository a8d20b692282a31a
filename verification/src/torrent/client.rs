//! A client's state for one torrent.
use vstd::prelude::*;

use super::value::{spec_meta_info, MetaInfo, MetaSpec, TorrentError, TorrentFailure};
use crate::tracker::value::PEER_ID;

verus! {

/// A torrent being downloaded: its metainfo and the byte counts a tracker is
/// told.
pub struct Torrent {
    pub meta_info: MetaInfo,
    pub uploaded: usize,
    pub downloaded: usize,
    pub left: usize,
}

/// A client: the id it goes by and the torrent it works on.
pub struct Client {
    pub peer_id: [u8; 20],
    pub torrent: Torrent,
}

/// Why a client could not be set up.
#[derive(Debug)]
pub enum ClientError {
    ReadTorrent { path: String, source: std::io::Error },
    ParseTorrent(TorrentError),
}

impl Client {
    /// A client for the torrent whose metainfo is `bytes`: it goes by
    /// `PEER_ID`, and all its byte counts start at zero.
    pub fn from_torrent_bytes(bytes: &[u8]) -> (r: Result<Client, ClientError>)
        ensures
            match r {
                Ok(c) => {
                    &&& spec_meta_info(bytes@) == Ok::<MetaSpec, TorrentFailure>(c.torrent.meta_info@)
                    &&& c.peer_id@ == PEER_ID@
                    &&& c.torrent.uploaded == 0
                    &&& c.torrent.downloaded == 0
                    &&& c.torrent.left == 0
                },
                Err(ClientError::ParseTorrent(e)) => spec_meta_info(bytes@) == Err::<
                    MetaSpec,
                    TorrentFailure,
                >(e@),
                Err(_) => false,
            },
    {
        match MetaInfo::from_bytes(bytes) {
            Ok(meta_info) => Ok(
                Client {
                    peer_id: PEER_ID,
                    torrent: Torrent { meta_info, downloaded: 0, uploaded: 0, left: 0 },
                },
            ),
            Err(e) => Err(ClientError::ParseTorrent(e)),
        }
    }
}

} // verus!
