//! The data model the protocol exchanges: box and file metadata, wire
//! messages, peer addresses, and the control-plane request/response pairs.
//!
//! Paths travel as byte strings relative to the box root; receivers re-root
//! them under a directory of their choice.

use vstd::prelude::*;

verus! {

/// What one file of a box looks like on the wire: its relative path, its
/// byte length, and the expected 16-byte digest of each of its pieces.
pub struct FileMetadata {
    pub path: Vec<u8>,
    pub size: usize,
    pub pieces: Vec<[u8; 16]>,
}

/// A box's name and its files, in directory order.
pub struct CardboardMetadata {
    pub name: Vec<u8>,
    pub files: Vec<FileMetadata>,
}

/// Mathematical image of a `FileMetadata`.
#[verifier::ext_equal]
pub ghost struct FileMetaView {
    pub path: Seq<u8>,
    pub size: nat,
    pub pieces: Seq<Seq<u8>>,
}

/// Mathematical image of a `CardboardMetadata`.
#[verifier::ext_equal]
pub ghost struct MetaView {
    pub name: Seq<u8>,
    pub files: Seq<FileMetaView>,
}

impl View for FileMetadata {
    type V = FileMetaView;

    open spec fn view(&self) -> FileMetaView {
        FileMetaView {
            path: self.path@,
            size: self.size as nat,
            pieces: self.pieces@.map_values(|h: [u8; 16]| h@),
        }
    }
}

impl View for CardboardMetadata {
    type V = MetaView;

    open spec fn view(&self) -> MetaView {
        MetaView { name: self.name@, files: self.files@.map_values(|f: FileMetadata| f@) }
    }
}

/// A file description that the codec can carry: lengths and sizes fit in 64
/// bits and every piece hash is 16 bytes.  Every `FileMetadata` value
/// satisfies this by construction.
pub open spec fn file_meta_wf(f: FileMetaView) -> bool {
    &&& f.path.len() <= u64::MAX
    &&& f.size <= usize::MAX
    &&& f.pieces.len() <= u64::MAX
    &&& forall|i: int| 0 <= i < f.pieces.len() ==> (#[trigger] f.pieces[i]).len() == 16
}

/// A box description that the codec can carry.
pub open spec fn meta_wf(m: MetaView) -> bool {
    &&& m.name.len() <= u64::MAX
    &&& m.files.len() <= u64::MAX
    &&& forall|i: int| 0 <= i < m.files.len() ==> file_meta_wf(#[trigger] m.files[i])
}

impl Clone for FileMetadata {
    /// An exact copy: the view is preserved.
    fn clone(&self) -> (res: Self)
        ensures
            res@ == self@,
    {
        let mut pieces: Vec<[u8; 16]> = Vec::new();
        let mut i: usize = 0;
        while i < self.pieces.len()
            invariant
                i <= self.pieces@.len(),
                pieces@ == self.pieces@.subrange(0, i as int),
            decreases self.pieces@.len() - i,
        {
            pieces.push(self.pieces[i]);
            assert(pieces@ =~= self.pieces@.subrange(0, i + 1));
            i += 1;
        }
        assert(pieces@ =~= self.pieces@);
        let res = FileMetadata { path: clone_bytes(&self.path), size: self.size, pieces };
        assert(res@ =~= self@);
        res
    }
}

impl Clone for CardboardMetadata {
    /// An exact copy: the view is preserved.
    fn clone(&self) -> (res: Self)
        ensures
            res@ == self@,
    {
        let mut files: Vec<FileMetadata> = Vec::new();
        let mut i: usize = 0;
        while i < self.files.len()
            invariant
                i <= self.files@.len(),
                files@.len() == i,
                forall|j: int| 0 <= j < i ==> (#[trigger] files@[j])@ == self.files@[j]@,
            decreases self.files@.len() - i,
        {
            files.push(self.files[i].clone());
            i += 1;
        }
        let res = CardboardMetadata { name: clone_bytes(&self.name), files };
        assert(res@.files =~= self@.files);
        assert(res@ =~= self@);
        res
    }
}

/// An exact copy of a byte string.
pub fn clone_bytes(v: &Vec<u8>) -> (r: Vec<u8>)
    ensures
        r@ == v@,
{
    let mut r: Vec<u8> = Vec::new();
    let mut i: usize = 0;
    while i < v.len()
        invariant
            i <= v@.len(),
            r@ == v@.subrange(0, i as int),
        decreases v@.len() - i,
    {
        r.push(v[i]);
        assert(r@ =~= v@.subrange(0, i + 1));
        i += 1;
    }
    assert(r@ =~= v@);
    r
}

/// An IP address in either family, as its numeric value.
#[derive(Clone, Copy, Debug, PartialEq, Eq, Structural)]
pub enum IpAddress {
    V4(u32),
    V6(u128),
}

/// A peer: an IP address and a UDP port.
#[derive(Clone, Copy, Debug, PartialEq, Eq, Structural)]
pub struct PeerAddr {
    pub ip: IpAddress,
    pub port: u16,
}

/// A message of the wire protocol; the closed set of things peers say to
/// each other.
pub enum Message {
    SearchingForPeers,
    ImHere,
    FindMetadata([u8; 24]),
    GotMetadata([u8; 24], CardboardMetadata),
    FindPiece { id: [u8; 24], file_index: usize, piece_index: usize },
    GotPiece { id: [u8; 24], file_index: usize, piece_index: usize },
    StartDownload { id: [u8; 24], file_index: usize, piece_index: usize },
    Upload {
        id: [u8; 24],
        file_index: usize,
        piece_index: usize,
        chunk_index: usize,
        buf: Vec<u8>,
    },
}

/// Mathematical image of a `Message`.
#[verifier::ext_equal]
pub ghost enum MessageView {
    SearchingForPeers,
    ImHere,
    FindMetadata { id: Seq<u8> },
    GotMetadata { id: Seq<u8>, meta: MetaView },
    FindPiece { id: Seq<u8>, file_index: nat, piece_index: nat },
    GotPiece { id: Seq<u8>, file_index: nat, piece_index: nat },
    StartDownload { id: Seq<u8>, file_index: nat, piece_index: nat },
    Upload { id: Seq<u8>, file_index: nat, piece_index: nat, chunk_index: nat, buf: Seq<u8> },
}

impl View for Message {
    type V = MessageView;

    open spec fn view(&self) -> MessageView {
        match self {
            Message::SearchingForPeers => MessageView::SearchingForPeers,
            Message::ImHere => MessageView::ImHere,
            Message::FindMetadata(id) => MessageView::FindMetadata { id: id@ },
            Message::GotMetadata(id, meta) => MessageView::GotMetadata { id: id@, meta: meta@ },
            Message::FindPiece { id, file_index, piece_index } => MessageView::FindPiece {
                id: id@,
                file_index: *file_index as nat,
                piece_index: *piece_index as nat,
            },
            Message::GotPiece { id, file_index, piece_index } => MessageView::GotPiece {
                id: id@,
                file_index: *file_index as nat,
                piece_index: *piece_index as nat,
            },
            Message::StartDownload { id, file_index, piece_index } => MessageView::StartDownload {
                id: id@,
                file_index: *file_index as nat,
                piece_index: *piece_index as nat,
            },
            Message::Upload { id, file_index, piece_index, chunk_index, buf } => MessageView::Upload {
                id: id@,
                file_index: *file_index as nat,
                piece_index: *piece_index as nat,
                chunk_index: *chunk_index as nat,
                buf: buf@,
            },
        }
    }
}

/// A message that the codec can carry.
pub open spec fn msg_wf(m: MessageView) -> bool {
    match m {
        MessageView::SearchingForPeers => true,
        MessageView::ImHere => true,
        MessageView::FindMetadata { id } => id.len() == 24,
        MessageView::GotMetadata { id, meta } => id.len() == 24 && meta_wf(meta),
        MessageView::FindPiece { id, file_index, piece_index } => id.len() == 24 && file_index
            <= usize::MAX && piece_index <= usize::MAX,
        MessageView::GotPiece { id, file_index, piece_index } => id.len() == 24 && file_index
            <= usize::MAX && piece_index <= usize::MAX,
        MessageView::StartDownload { id, file_index, piece_index } => id.len() == 24 && file_index
            <= usize::MAX && piece_index <= usize::MAX,
        MessageView::Upload { id, file_index, piece_index, chunk_index, buf } => id.len() == 24
            && file_index <= usize::MAX && piece_index <= usize::MAX && chunk_index <= usize::MAX
            && buf.len() <= u64::MAX,
    }
}

/// Per-file download progress: the re-rooted path, how many pieces are in,
/// and how many the file has in total.
pub struct FileState {
    pub path: Vec<u8>,
    pub pieces_downloaded: usize,
    pub total_pieces: usize,
}

/// Download progress of one box, file by file.
pub struct BoxState {
    pub name: Vec<u8>,
    pub box_hash: [u8; 24],
    pub files: Vec<FileState>,
}

/// A control-plane request from a local client.
pub enum IPCCall {
    CreateBox(Vec<u8>, Vec<u8>),
    DownloadBox([u8; 24], Vec<u8>),
    GetBoxState([u8; 24]),
    GetAllPeers,
    GetAllBoxes,
}

/// A control-plane response.  `Accepted` acknowledges a request with no
/// payload; `OneBox` carries the state of a single box.
pub enum IPCResponse {
    Accepted,
    NotFound,
    BoxCreated([u8; 24]),
    Peers(Vec<PeerAddr>),
    OneBox(BoxState),
    Boxes(Vec<BoxState>),
}

} // verus!
