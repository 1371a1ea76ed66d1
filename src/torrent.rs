//! What the torrent metadata says, held in one value built at startup.
use vstd::prelude::*;

use crate::digest::{sha1_digest, sha1_of};

verus! {

/// Whether a torrent describes one file or several.
#[derive(Debug, Clone, Copy, PartialEq, Eq, Structural)]
pub enum TorrentMode {
    SingleFile,
    MultipleFile,
}

impl Default for TorrentMode {
    fn default() -> (r: Self)
        ensures
            r == TorrentMode::SingleFile,
    {
        TorrentMode::SingleFile
    }
}

/// The metadata of a torrent.
pub struct Torrent {
    pub announce: String,
    pub name: String,
    pub length: u32,
    pub piece_length: u32,
    /// The SHA-1 digests of the pieces, 20 bytes each, one after another.
    pub pieces: Vec<u8>,
    pub info_hash: [u8; 20],
    pub torrent_mode: TorrentMode,
}

impl Torrent {
    /// The digest list holds whole digests, and no more than fit a `u32` count.
    pub open spec fn wf(&self) -> bool {
        &&& self.pieces@.len() % 20 == 0
        &&& self.pieces@.len() / 20 <= u32::MAX
    }

    /// Builds the metadata from its fields, `info` being the bencoded info
    /// dictionary as it stands in the torrent file, whose SHA-1 digest is the
    /// info hash, and `num_files` the number of entries of its file list.
    /// Returns `None` where `pieces` is not a whole number of digests.
    pub fn new(
        announce: String,
        name: String,
        length: u32,
        piece_length: u32,
        pieces: Vec<u8>,
        info: &[u8],
        num_files: usize,
    ) -> (r: Option<Torrent>)
        ensures
            r is Some <==> (pieces@.len() % 20 == 0 && pieces@.len() / 20 <= u32::MAX),
            r matches Some(t) ==> {
                &&& t.wf()
                &&& t.announce@ == announce@
                &&& t.name@ == name@
                &&& t.length == length
                &&& t.piece_length == piece_length
                &&& t.pieces@ == pieces@
                &&& t.info_hash@ == sha1_of(info@)
                &&& t.torrent_mode == if num_files > 0 {
                    TorrentMode::MultipleFile
                } else {
                    TorrentMode::SingleFile
                }
            },
    {
        if pieces.len() % 20 != 0 || pieces.len() / 20 > u32::MAX as usize {
            return None;
        }
        let info_hash = sha1_digest(info);
        let torrent_mode = if num_files > 0 {
            TorrentMode::MultipleFile
        } else {
            TorrentMode::SingleFile
        };
        Some(Torrent { announce, name, length, piece_length, pieces, info_hash, torrent_mode })
    }
}

/// The 20-byte SHA-1 digest of the info dictionary, which names the swarm.
pub fn get_info_hash(t: &Torrent) -> (r: [u8; 20])
    ensures
        r == t.info_hash,
{
    t.info_hash
}

/// The tracker's URL.
pub fn get_tracker_url(t: &Torrent) -> (r: &String)
    ensures
        r@ == t.announce@,
{
    &t.announce
}

/// The name of the file.
pub fn get_file_name(t: &Torrent) -> (r: &String)
    ensures
        r@ == t.name@,
{
    &t.name
}

/// The length of each piece, in bytes.
pub fn get_piece_length(t: &Torrent) -> (r: u32)
    ensures
        r == t.piece_length,
{
    t.piece_length
}

/// The number of pieces: one per digest.
pub fn get_number_of_pieces(t: &Torrent) -> (r: u32)
    requires
        t.wf(),
    ensures
        r == t.pieces@.len() / 20,
{
    (t.pieces.len() / 20) as u32
}

/// The digests of all pieces, 20 bytes each.
pub fn get_pieces(t: &Torrent) -> (r: &Vec<u8>)
    ensures
        r@ == t.pieces@,
{
    &t.pieces
}

/// The length of the file, in bytes.
pub fn get_file_length(t: &Torrent) -> (r: u32)
    ensures
        r == t.length,
{
    t.length
}

/// The expected digest of piece `index`; `None` beyond the last piece.
pub fn get_piece_hash(t: &Torrent, index: usize) -> (r: Option<[u8; 20]>)
    requires
        t.wf(),
    ensures
        r is Some <==> index < t.pieces@.len() / 20,
        r matches Some(h) ==> h@ == t.pieces@.subrange(20 * index, 20 * index + 20),
{
    if index >= t.pieces.len() / 20 {
        return None;
    }
    let plen = t.pieces.len();
    let start = 20 * index;
    let mut h: [u8; 20] = [0u8; 20];
    let mut i: usize = 0;
    while i < 20
        invariant
            i <= 20,
            start == 20 * index,
            plen == t.pieces@.len(),
            start + 20 <= plen,
            h@.len() == 20,
            forall|j: int| 0 <= j < i ==> h@[j] == t.pieces@[start + j],
        decreases 20 - i,
    {
        h[i] = t.pieces[start + i];
        i = i + 1;
    }
    assert(h@ =~= t.pieces@.subrange(20 * index, 20 * index + 20));
    Some(h)
}

} // verus!
