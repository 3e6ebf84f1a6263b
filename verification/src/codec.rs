//! The wire codec: a stable, self-describing binary encoding for box
//! metadata and protocol messages.
//!
//! All integers are 64-bit little-endian; byte strings are length-prefixed;
//! piece hashes are raw 16-byte runs; messages carry a single leading tag
//! byte and must consume their buffer exactly.  Decoding is the exact
//! inverse of encoding, which is proved below.

use crate::types::{
    CardboardMetadata, FileMetaView, FileMetadata, Message, MessageView, MetaView, file_meta_wf,
    meta_wf, msg_wf,
};
use vstd::bytes::{spec_u64_from_le_bytes, spec_u64_to_le_bytes};
use vstd::prelude::*;

verus! {

// ---------------------------------------------------------------------------
// Specification-level encoding
// ---------------------------------------------------------------------------
/// A 64-bit little-endian run.
pub open spec fn enc_u64(n: nat) -> Seq<u8> {
    spec_u64_to_le_bytes(n as u64)
}

/// A length-prefixed byte string.
pub open spec fn enc_bytes(b: Seq<u8>) -> Seq<u8> {
    enc_u64(b.len()) + b
}

/// Piece hashes, raw and back to back.
pub open spec fn enc_pieces(ps: Seq<Seq<u8>>) -> Seq<u8>
    decreases ps.len(),
{
    if ps.len() == 0 {
        Seq::empty()
    } else {
        ps[0] + enc_pieces(ps.drop_first())
    }
}

/// One file: path, size, piece count, then the piece hashes.
pub open spec fn enc_file(f: FileMetaView) -> Seq<u8> {
    enc_bytes(f.path) + enc_u64(f.size) + enc_u64(f.pieces.len()) + enc_pieces(f.pieces)
}

/// The files of a box, back to back.
pub open spec fn enc_files(fs: Seq<FileMetaView>) -> Seq<u8>
    decreases fs.len(),
{
    if fs.len() == 0 {
        Seq::empty()
    } else {
        enc_file(fs[0]) + enc_files(fs.drop_first())
    }
}

/// A whole box description: name, file count, then the files.
pub open spec fn enc_meta(m: MetaView) -> Seq<u8> {
    enc_bytes(m.name) + enc_u64(m.files.len()) + enc_files(m.files)
}

/// A whole message: one tag byte, then the variant's fields.
pub open spec fn enc_msg(m: MessageView) -> Seq<u8> {
    match m {
        MessageView::SearchingForPeers => seq![0u8],
        MessageView::ImHere => seq![1u8],
        MessageView::FindMetadata { id } => seq![2u8] + id,
        MessageView::GotMetadata { id, meta } => seq![3u8] + id + enc_meta(meta),
        MessageView::FindPiece { id, file_index, piece_index } => seq![4u8] + id + enc_u64(
            file_index,
        ) + enc_u64(piece_index),
        MessageView::GotPiece { id, file_index, piece_index } => seq![5u8] + id + enc_u64(
            file_index,
        ) + enc_u64(piece_index),
        MessageView::StartDownload { id, file_index, piece_index } => seq![6u8] + id + enc_u64(
            file_index,
        ) + enc_u64(piece_index),
        MessageView::Upload { id, file_index, piece_index, chunk_index, buf } => seq![7u8] + id
            + enc_u64(file_index) + enc_u64(piece_index) + enc_u64(chunk_index) + enc_bytes(buf),
    }
}

// ---------------------------------------------------------------------------
// Specification-level parsing (positional; exact inverse of encoding)
// ---------------------------------------------------------------------------
/// Read a 64-bit little-endian run at `pos`.
pub open spec fn dec_u64(b: Seq<u8>, pos: int) -> Option<(nat, int)> {
    if 0 <= pos && pos + 8 <= b.len() {
        Some((spec_u64_from_le_bytes(b.subrange(pos, pos + 8)) as nat, pos + 8))
    } else {
        None
    }
}

/// Read a length-prefixed byte string at `pos`.
pub open spec fn dec_bytes(b: Seq<u8>, pos: int) -> Option<(Seq<u8>, int)> {
    match dec_u64(b, pos) {
        Some((n, p1)) => if p1 + n <= b.len() {
            Some((b.subrange(p1, p1 + n), p1 + n))
        } else {
            None
        },
        None => None,
    }
}

/// Read `k` raw bytes at `pos`.
pub open spec fn dec_raw(b: Seq<u8>, pos: int, k: int) -> Option<(Seq<u8>, int)> {
    if 0 <= pos && pos + k <= b.len() {
        Some((b.subrange(pos, pos + k), pos + k))
    } else {
        None
    }
}

/// Read `n` raw 16-byte piece hashes at `pos`.
pub open spec fn dec_pieces(b: Seq<u8>, pos: int, n: nat) -> Option<(Seq<Seq<u8>>, int)>
    decreases n,
{
    if n == 0 {
        Some((Seq::empty(), pos))
    } else {
        match dec_raw(b, pos, 16) {
            Some((h, p1)) => match dec_pieces(b, p1, (n - 1) as nat) {
                Some((t, p2)) => Some((seq![h] + t, p2)),
                None => None,
            },
            None => None,
        }
    }
}

/// Read one file description at `pos`.
pub open spec fn dec_file(b: Seq<u8>, pos: int) -> Option<(FileMetaView, int)> {
    match dec_bytes(b, pos) {
        Some((path, p1)) => match dec_u64(b, p1) {
            Some((size, p2)) => if size <= usize::MAX {
                match dec_u64(b, p2) {
                    Some((cnt, p3)) => match dec_pieces(b, p3, cnt) {
                        Some((ps, p4)) => Some((FileMetaView { path, size, pieces: ps }, p4)),
                        None => None,
                    },
                    None => None,
                }
            } else {
                None
            },
            None => None,
        },
        None => None,
    }
}

/// Read `n` file descriptions at `pos`.
pub open spec fn dec_files(b: Seq<u8>, pos: int, n: nat) -> Option<(Seq<FileMetaView>, int)>
    decreases n,
{
    if n == 0 {
        Some((Seq::empty(), pos))
    } else {
        match dec_file(b, pos) {
            Some((f, p1)) => match dec_files(b, p1, (n - 1) as nat) {
                Some((t, p2)) => Some((seq![f] + t, p2)),
                None => None,
            },
            None => None,
        }
    }
}

/// Read a whole box description at `pos`.
pub open spec fn dec_meta(b: Seq<u8>, pos: int) -> Option<(MetaView, int)> {
    match dec_bytes(b, pos) {
        Some((name, p1)) => match dec_u64(b, p1) {
            Some((cnt, p2)) => match dec_files(b, p2, cnt) {
                Some((fs, p3)) => Some((MetaView { name, files: fs }, p3)),
                None => None,
            },
            None => None,
        },
        None => None,
    }
}

/// Decode a buffer that holds exactly one box description.
pub open spec fn metadata_decoded(b: Seq<u8>) -> Option<MetaView> {
    match dec_meta(b, 0) {
        Some((m, p)) => if p == b.len() {
            Some(m)
        } else {
            None
        },
        None => None,
    }
}

/// Decode a buffer that holds exactly one message.  Unknown tags and
/// trailing bytes are rejected.
pub open spec fn message_decoded(b: Seq<u8>) -> Option<MessageView> {
    if b.len() < 1 {
        None
    } else {
        let tag = b[0];
        if tag == 0 {
            if b.len() == 1 {
                Some(MessageView::SearchingForPeers)
            } else {
                None
            }
        } else if tag == 1 {
            if b.len() == 1 {
                Some(MessageView::ImHere)
            } else {
                None
            }
        } else if tag == 2 {
            match dec_raw(b, 1, 24) {
                Some((id, p1)) => if p1 == b.len() {
                    Some(MessageView::FindMetadata { id })
                } else {
                    None
                },
                None => None,
            }
        } else if tag == 3 {
            match dec_raw(b, 1, 24) {
                Some((id, p1)) => match dec_meta(b, p1) {
                    Some((meta, p2)) => if p2 == b.len() {
                        Some(MessageView::GotMetadata { id, meta })
                    } else {
                        None
                    },
                    None => None,
                },
                None => None,
            }
        } else if tag == 4 || tag == 5 || tag == 6 {
            match dec_raw(b, 1, 24) {
                Some((id, p1)) => match dec_u64(b, p1) {
                    Some((file_index, p2)) => match dec_u64(b, p2) {
                        Some((piece_index, p3)) => if p3 == b.len() && file_index <= usize::MAX
                            && piece_index <= usize::MAX {
                            if tag == 4 {
                                Some(MessageView::FindPiece { id, file_index, piece_index })
                            } else if tag == 5 {
                                Some(MessageView::GotPiece { id, file_index, piece_index })
                            } else {
                                Some(MessageView::StartDownload { id, file_index, piece_index })
                            }
                        } else {
                            None
                        },
                        None => None,
                    },
                    None => None,
                },
                None => None,
            }
        } else if tag == 7 {
            match dec_raw(b, 1, 24) {
                Some((id, p1)) => match dec_u64(b, p1) {
                    Some((file_index, p2)) => match dec_u64(b, p2) {
                        Some((piece_index, p3)) => match dec_u64(b, p3) {
                            Some((chunk_index, p4)) => match dec_bytes(b, p4) {
                                Some((buf, p5)) => if p5 == b.len() && file_index <= usize::MAX
                                    && piece_index <= usize::MAX && chunk_index <= usize::MAX {
                                    Some(
                                        MessageView::Upload {
                                            id,
                                            file_index,
                                            piece_index,
                                            chunk_index,
                                            buf,
                                        },
                                    )
                                } else {
                                    None
                                },
                                None => None,
                            },
                            None => None,
                        },
                        None => None,
                    },
                    None => None,
                },
                None => None,
            }
        } else {
            None
        }
    }
}

// ---------------------------------------------------------------------------
// Executable encoding
// ---------------------------------------------------------------------------
/// Appending one encoding after another: hashes one at a time.
proof fn lemma_enc_pieces_snoc(ps: Seq<Seq<u8>>, x: Seq<u8>)
    ensures
        enc_pieces(ps.push(x)) == enc_pieces(ps) + x,
    decreases ps.len(),
{
    if ps.len() == 0 {
        let one = ps.push(x);
        assert(one.drop_first() =~= Seq::<Seq<u8>>::empty());
        assert(one[0] == x);
        assert(enc_pieces(one.drop_first()) =~= Seq::<u8>::empty());
        assert(enc_pieces(one) =~= x + enc_pieces(one.drop_first()));
        assert(enc_pieces(one) =~= x);
        assert(enc_pieces(ps) =~= Seq::<u8>::empty());
        assert(enc_pieces(ps) + x =~= x);
    } else {
        assert(ps.push(x).drop_first() =~= ps.drop_first().push(x));
        lemma_enc_pieces_snoc(ps.drop_first(), x);
        assert(enc_pieces(ps.push(x)) =~= enc_pieces(ps) + x);
    }
}

/// Appending one encoding after another: files one at a time.
proof fn lemma_enc_files_snoc(fs: Seq<FileMetaView>, x: FileMetaView)
    ensures
        enc_files(fs.push(x)) == enc_files(fs) + enc_file(x),
    decreases fs.len(),
{
    if fs.len() == 0 {
        let one = fs.push(x);
        assert(one.drop_first() =~= Seq::<FileMetaView>::empty());
        assert(one[0] == x);
        assert(enc_files(one.drop_first()) =~= Seq::<u8>::empty());
        assert(enc_files(one) =~= enc_file(x) + enc_files(one.drop_first()));
        assert(enc_files(one) =~= enc_file(x));
        assert(enc_files(fs) =~= Seq::<u8>::empty());
        assert(enc_files(fs) + enc_file(x) =~= enc_file(x));
    } else {
        assert(fs.push(x).drop_first() =~= fs.drop_first().push(x));
        lemma_enc_files_snoc(fs.drop_first(), x);
        assert(enc_files(fs.push(x)) =~= enc_files(fs) + enc_file(x));
    }
}

/// Append raw bytes to the output buffer.
pub(crate) fn push_bytes(out: &mut Vec<u8>, b: &[u8])
    ensures
        final(out)@ == old(out)@ + b@,
{
    let ghost start = out@;
    let mut i: usize = 0;
    while i < b.len()
        invariant
            i <= b@.len(),
            out@ == start + b@.subrange(0, i as int),
        decreases b@.len() - i,
    {
        out.push(*vstd::slice::slice_index_get(b, i));
        assert(out@ =~= start + b@.subrange(0, i + 1));
        i += 1;
    }
    assert(out@ =~= start + b@);
}

/// Append a 64-bit little-endian run.
fn encode_u64(out: &mut Vec<u8>, n: u64)
    ensures
        final(out)@ == old(out)@ + enc_u64(n as nat),
{
    let bytes = vstd::bytes::u64_to_le_bytes(n);
    push_bytes(out, bytes.as_slice());
}

/// Append a length-prefixed byte string.
fn encode_lp_bytes(out: &mut Vec<u8>, b: &Vec<u8>)
    ensures
        final(out)@ == old(out)@ + enc_bytes(b@),
        b@.len() <= u64::MAX,
{
    encode_u64(out, b.len() as u64);
    push_bytes(out, b.as_slice());
}

/// Append one file description.
fn encode_file(out: &mut Vec<u8>, f: &FileMetadata)
    ensures
        final(out)@ == old(out)@ + enc_file(f@),
        file_meta_wf(f@),
{
    let ghost start = out@;
    encode_lp_bytes(out, &f.path);
    encode_u64(out, f.size as u64);
    encode_u64(out, f.pieces.len() as u64);
    let ghost head = start + enc_bytes(f@.path) + enc_u64(f@.size) + enc_u64(f@.pieces.len());
    assert(out@ == head);
    let mut i: usize = 0;
    while i < f.pieces.len()
        invariant
            i <= f.pieces@.len(),
            f@.pieces == f.pieces@.map_values(|h: [u8; 16]| h@),
            head == start + enc_bytes(f@.path) + enc_u64(f@.size) + enc_u64(f@.pieces.len()),
            out@ == head + enc_pieces(f@.pieces.subrange(0, i as int)),
        decreases f.pieces@.len() - i,
    {
        let ghost done = f@.pieces.subrange(0, i as int);
        let h = &f.pieces[i];
        push_bytes(out, h.as_slice());
        proof {
            lemma_enc_pieces_snoc(done, h@);
            assert(done.push(h@) =~= f@.pieces.subrange(0, i + 1));
            assert(out@ =~= head + enc_pieces(f@.pieces.subrange(0, i + 1)));
        }
        i += 1;
    }
    proof {
        assert(f@.pieces.subrange(0, f.pieces@.len() as int) =~= f@.pieces);
        assert(out@ =~= start + enc_file(f@));
        assert(forall|k: int|
            0 <= k < f@.pieces.len() ==> (#[trigger] f@.pieces[k]).len() == 16);
    }
}

/// Encode a whole box description.
pub fn encode_metadata(m: &CardboardMetadata) -> (r: Vec<u8>)
    ensures
        r@ == enc_meta(m@),
        meta_wf(m@),
{
    let mut out: Vec<u8> = Vec::new();
    encode_lp_bytes(&mut out, &m.name);
    encode_u64(&mut out, m.files.len() as u64);
    let ghost head = enc_bytes(m@.name) + enc_u64(m@.files.len());
    assert(out@ =~= head);
    let mut i: usize = 0;
    while i < m.files.len()
        invariant
            i <= m.files@.len(),
            m@.files == m.files@.map_values(|f: FileMetadata| f@),
            head == enc_bytes(m@.name) + enc_u64(m@.files.len()),
            out@ == head + enc_files(m@.files.subrange(0, i as int)),
            forall|j: int| 0 <= j < i ==> file_meta_wf(#[trigger] m@.files[j]),
        decreases m.files@.len() - i,
    {
        let ghost done = m@.files.subrange(0, i as int);
        encode_file(&mut out, &m.files[i]);
        proof {
            lemma_enc_files_snoc(done, m@.files[i as int]);
            assert(done.push(m@.files[i as int]) =~= m@.files.subrange(0, i + 1));
            assert(out@ =~= head + enc_files(m@.files.subrange(0, i + 1)));
        }
        i += 1;
    }
    proof {
        assert(m@.files.subrange(0, m.files@.len() as int) =~= m@.files);
        assert(out@ =~= enc_meta(m@));
    }
    out
}

/// Encode a whole message.
pub fn encode_message(m: &Message) -> (r: Vec<u8>)
    ensures
        r@ == enc_msg(m@),
        msg_wf(m@),
{
    let mut out: Vec<u8> = Vec::new();
    match m {
        Message::SearchingForPeers => {
            out.push(0u8);
            assert(out@ =~= enc_msg(m@));
        },
        Message::ImHere => {
            out.push(1u8);
            assert(out@ =~= enc_msg(m@));
        },
        Message::FindMetadata(id) => {
            out.push(2u8);
            push_bytes(&mut out, id.as_slice());
            assert(out@ =~= enc_msg(m@));
        },
        Message::GotMetadata(id, meta) => {
            out.push(3u8);
            push_bytes(&mut out, id.as_slice());
            let body = encode_metadata(meta);
            push_bytes(&mut out, body.as_slice());
            assert(out@ =~= enc_msg(m@));
        },
        Message::FindPiece { id, file_index, piece_index } => {
            out.push(4u8);
            push_bytes(&mut out, id.as_slice());
            encode_u64(&mut out, *file_index as u64);
            encode_u64(&mut out, *piece_index as u64);
            assert(out@ =~= enc_msg(m@));
        },
        Message::GotPiece { id, file_index, piece_index } => {
            out.push(5u8);
            push_bytes(&mut out, id.as_slice());
            encode_u64(&mut out, *file_index as u64);
            encode_u64(&mut out, *piece_index as u64);
            assert(out@ =~= enc_msg(m@));
        },
        Message::StartDownload { id, file_index, piece_index } => {
            out.push(6u8);
            push_bytes(&mut out, id.as_slice());
            encode_u64(&mut out, *file_index as u64);
            encode_u64(&mut out, *piece_index as u64);
            assert(out@ =~= enc_msg(m@));
        },
        Message::Upload { id, file_index, piece_index, chunk_index, buf } => {
            out.push(7u8);
            push_bytes(&mut out, id.as_slice());
            encode_u64(&mut out, *file_index as u64);
            encode_u64(&mut out, *piece_index as u64);
            encode_u64(&mut out, *chunk_index as u64);
            encode_lp_bytes(&mut out, buf);
            assert(out@ =~= enc_msg(m@));
        },
    }
    out
}

// ---------------------------------------------------------------------------
// Executable decoding
// ---------------------------------------------------------------------------
/// Read a 64-bit little-endian run, as `dec_u64` describes.
fn read_u64(b: &[u8], pos: usize) -> (r: Option<(u64, usize)>)
    ensures
        match r {
            Some(v) => dec_u64(b@, pos as int) == Some((v.0 as nat, v.1 as int)) && v.1 <= b@.len(),
            None => dec_u64(b@, pos as int) is None,
        },
{
    if b.len() < 8 || pos > b.len() - 8 {
        return None;
    }
    let s = vstd::slice::slice_subrange(b, pos, pos + 8);
    let v = vstd::bytes::u64_from_le_bytes(s);
    Some((v, pos + 8))
}

/// Read a length-prefixed byte string, as `dec_bytes` describes.
fn read_lp_bytes(b: &[u8], pos: usize) -> (r: Option<(Vec<u8>, usize)>)
    ensures
        match r {
            Some(v) => dec_bytes(b@, pos as int) == Some((v.0@, v.1 as int)) && v.1 <= b@.len(),
            None => dec_bytes(b@, pos as int) is None,
        },
{
    match read_u64(b, pos) {
        None => None,
        Some((n, p1)) => {
            if n > (b.len() - p1) as u64 {
                return None;
            }
            let n_us = n as usize;
            let s = vstd::slice::slice_subrange(b, p1, p1 + n_us);
            let v = vstd::slice::slice_to_vec(s);
            Some((v, p1 + n_us))
        },
    }
}

/// Read 16 raw bytes, as `dec_raw` describes.
#[verifier::loop_isolation(false)]
fn read_raw16(b: &[u8], pos: usize) -> (r: Option<([u8; 16], usize)>)
    ensures
        match r {
            Some(v) => dec_raw(b@, pos as int, 16) == Some((v.0@, v.1 as int)) && v.1 <= b@.len(),
            None => dec_raw(b@, pos as int, 16) is None,
        },
{
    if b.len() < 16 || pos > b.len() - 16 {
        return None;
    }
    let mut h: [u8; 16] = vstd::array::array_fill_for_copy_types(0u8);
    let mut i: usize = 0;
    while i < 16
        invariant
            i <= 16,
            pos + 16 <= b@.len(),
            forall|j: int| 0 <= j < i ==> h@[j] == b@[pos + j],
        decreases 16 - i,
    {
        h.set(i, *vstd::slice::slice_index_get(b, pos + i));
        i += 1;
    }
    proof {
        assert(h@ =~= b@.subrange(pos as int, pos + 16));
    }
    Some((h, pos + 16))
}

/// Read 24 raw bytes, as `dec_raw` describes.
#[verifier::loop_isolation(false)]
fn read_raw24(b: &[u8], pos: usize) -> (r: Option<([u8; 24], usize)>)
    ensures
        match r {
            Some(v) => dec_raw(b@, pos as int, 24) == Some((v.0@, v.1 as int)) && v.1 <= b@.len(),
            None => dec_raw(b@, pos as int, 24) is None,
        },
{
    if b.len() < 24 || pos > b.len() - 24 {
        return None;
    }
    let mut h: [u8; 24] = vstd::array::array_fill_for_copy_types(0u8);
    let mut i: usize = 0;
    while i < 24
        invariant
            i <= 24,
            pos + 24 <= b@.len(),
            forall|j: int| 0 <= j < i ==> h@[j] == b@[pos + j],
        decreases 24 - i,
    {
        h.set(i, *vstd::slice::slice_index_get(b, pos + i));
        i += 1;
    }
    proof {
        assert(h@ =~= b@.subrange(pos as int, pos + 24));
    }
    Some((h, pos + 24))
}

/// Read one file description, as `dec_file` describes.
#[verifier::loop_isolation(false)]
fn read_file(b: &[u8], pos: usize) -> (r: Option<(FileMetadata, usize)>)
    ensures
        match r {
            Some(v) => dec_file(b@, pos as int) == Some((v.0@, v.1 as int)) && v.1 <= b@.len(),
            None => dec_file(b@, pos as int) is None,
        },
{
    let (path, p1) = match read_lp_bytes(b, pos) {
        None => {
            return None;
        },
        Some(v) => v,
    };
    let (size64, p2) = match read_u64(b, p1) {
        None => {
            return None;
        },
        Some(v) => v,
    };
    if size64 > usize::MAX as u64 {
        return None;
    }
    let size = size64 as usize;
    let (cnt, p3) = match read_u64(b, p2) {
        None => {
            return None;
        },
        Some(v) => v,
    };
    let mut pieces: Vec<[u8; 16]> = Vec::new();
    let mut cur: usize = p3;
    let mut i: u64 = 0;
    while i < cnt
        invariant
            i <= cnt,
            cur <= b@.len(),
            pieces@.len() == i,
            dec_pieces(b@, p3 as int, cnt as nat) == (match dec_pieces(
                b@,
                cur as int,
                (cnt - i) as nat,
            ) {
                Some(t) => Some(
                    (pieces@.map_values(|h: [u8; 16]| h@) + t.0, t.1),
                ),
                None => None::<(Seq<Seq<u8>>, int)>,
            }),
        decreases cnt - i,
    {
        let ghost done = pieces@.map_values(|h: [u8; 16]| h@);
        match read_raw16(b, cur) {
            None => {
                proof {
                    assert(dec_pieces(b@, cur as int, (cnt - i) as nat) is None);
                }
                return None;
            },
            Some((h, p)) => {
                proof {
                    let k = (cnt - i) as nat;
                    assert(dec_pieces(b@, cur as int, k) == (match dec_pieces(
                        b@,
                        p as int,
                        (k - 1) as nat,
                    ) {
                        Some(t) => Some((seq![h@] + t.0, t.1)),
                        None => None::<(Seq<Seq<u8>>, int)>,
                    }));
                }
                pieces.push(h);
                proof {
                    assert(pieces@.map_values(|h2: [u8; 16]| h2@) =~= done.push(h@));
                    assert(forall|t: Seq<Seq<u8>>|
                        done.push(h@) + t =~= done + (seq![h@] + t));
                }
                cur = p;
                i += 1;
            },
        }
    }
    proof {
        assert(dec_pieces(b@, cur as int, 0) == Some((Seq::<Seq<u8>>::empty(), cur as int)));
        assert(pieces@.map_values(|h: [u8; 16]| h@) + Seq::<Seq<u8>>::empty() =~= pieces@.map_values(
            |h: [u8; 16]| h@,
        ));
    }
    let f = FileMetadata { path, size, pieces };
    proof {
        assert(f@ =~= FileMetaView {
            path: f@.path,
            size: f@.size,
            pieces: f@.pieces,
        });
    }
    Some((f, cur))
}

/// Read one box description, as `dec_meta` describes.
#[verifier::loop_isolation(false)]
fn read_meta(b: &[u8], pos: usize) -> (r: Option<(CardboardMetadata, usize)>)
    ensures
        match r {
            Some(v) => dec_meta(b@, pos as int) == Some((v.0@, v.1 as int)) && v.1 <= b@.len(),
            None => dec_meta(b@, pos as int) is None,
        },
{
    let (name, p1) = match read_lp_bytes(b, pos) {
        None => {
            return None;
        },
        Some(v) => v,
    };
    let (cnt, p2) = match read_u64(b, p1) {
        None => {
            return None;
        },
        Some(v) => v,
    };
    let mut files: Vec<FileMetadata> = Vec::new();
    let mut cur: usize = p2;
    let mut i: u64 = 0;
    while i < cnt
        invariant
            i <= cnt,
            cur <= b@.len(),
            files@.len() == i,
            dec_files(b@, p2 as int, cnt as nat) == (match dec_files(
                b@,
                cur as int,
                (cnt - i) as nat,
            ) {
                Some(t) => Some(
                    (files@.map_values(|f: FileMetadata| f@) + t.0, t.1),
                ),
                None => None::<(Seq<FileMetaView>, int)>,
            }),
        decreases cnt - i,
    {
        let ghost done = files@.map_values(|f: FileMetadata| f@);
        match read_file(b, cur) {
            None => {
                proof {
                    assert(dec_files(b@, cur as int, (cnt - i) as nat) is None);
                }
                return None;
            },
            Some((f, p)) => {
                proof {
                    let k = (cnt - i) as nat;
                    assert(dec_files(b@, cur as int, k) == (match dec_files(
                        b@,
                        p as int,
                        (k - 1) as nat,
                    ) {
                        Some(t) => Some((seq![f@] + t.0, t.1)),
                        None => None::<(Seq<FileMetaView>, int)>,
                    }));
                }
                let ghost fv = f@;
                files.push(f);
                proof {
                    assert(files@.map_values(|f2: FileMetadata| f2@) =~= done.push(fv));
                    assert(forall|t: Seq<FileMetaView>|
                        done.push(fv) + t =~= done + (seq![fv] + t));
                }
                cur = p;
                i += 1;
            },
        }
    }
    proof {
        assert(dec_files(b@, cur as int, 0) == Some((Seq::<FileMetaView>::empty(), cur as int)));
        assert(files@.map_values(|f: FileMetadata| f@) + Seq::<FileMetaView>::empty()
            =~= files@.map_values(|f: FileMetadata| f@));
    }
    let m = CardboardMetadata { name, files };
    proof {
        assert(m@ =~= MetaView { name: m@.name, files: m@.files });
    }
    Some((m, cur))
}

/// Decode a buffer that holds exactly one box description, as
/// `metadata_decoded` describes.
pub fn decode_metadata(b: &[u8]) -> (r: Option<CardboardMetadata>)
    ensures
        match r {
            Some(m) => metadata_decoded(b@) == Some(m@),
            None => metadata_decoded(b@) is None,
        },
{
    match read_meta(b, 0) {
        None => None,
        Some((m, p)) => {
            if p == b.len() {
                Some(m)
            } else {
                None
            }
        },
    }
}

/// Decode a buffer that holds exactly one message, as `message_decoded`
/// describes.  Unknown tags and trailing bytes are rejected.
pub fn decode_message(b: &[u8]) -> (r: Option<Message>)
    ensures
        match r {
            Some(m) => message_decoded(b@) == Some(m@),
            None => message_decoded(b@) is None,
        },
{
    if b.len() < 1 {
        return None;
    }
    let tag = *vstd::slice::slice_index_get(b, 0);
    if tag == 0 {
        if b.len() == 1 {
            Some(Message::SearchingForPeers)
        } else {
            None
        }
    } else if tag == 1 {
        if b.len() == 1 {
            Some(Message::ImHere)
        } else {
            None
        }
    } else if tag == 2 {
        let (id, p1) = match read_raw24(b, 1) {
            None => {
                return None;
            },
            Some(v) => v,
        };
        if p1 == b.len() {
            Some(Message::FindMetadata(id))
        } else {
            None
        }
    } else if tag == 3 {
        let (id, p1) = match read_raw24(b, 1) {
            None => {
                return None;
            },
            Some(v) => v,
        };
        let (meta, p2) = match read_meta(b, p1) {
            None => {
                return None;
            },
            Some(v) => v,
        };
        if p2 == b.len() {
            Some(Message::GotMetadata(id, meta))
        } else {
            None
        }
    } else if tag == 4 || tag == 5 || tag == 6 {
        let (id, p1) = match read_raw24(b, 1) {
            None => {
                return None;
            },
            Some(v) => v,
        };
        let (fi, p2) = match read_u64(b, p1) {
            None => {
                return None;
            },
            Some(v) => v,
        };
        let (pi, p3) = match read_u64(b, p2) {
            None => {
                return None;
            },
            Some(v) => v,
        };
        if p3 != b.len() || fi > usize::MAX as u64 || pi > usize::MAX as u64 {
            return None;
        }
        let file_index = fi as usize;
        let piece_index = pi as usize;
        if tag == 4 {
            Some(Message::FindPiece { id, file_index, piece_index })
        } else if tag == 5 {
            Some(Message::GotPiece { id, file_index, piece_index })
        } else {
            Some(Message::StartDownload { id, file_index, piece_index })
        }
    } else if tag == 7 {
        let (id, p1) = match read_raw24(b, 1) {
            None => {
                return None;
            },
            Some(v) => v,
        };
        let (fi, p2) = match read_u64(b, p1) {
            None => {
                return None;
            },
            Some(v) => v,
        };
        let (pi, p3) = match read_u64(b, p2) {
            None => {
                return None;
            },
            Some(v) => v,
        };
        let (ci, p4) = match read_u64(b, p3) {
            None => {
                return None;
            },
            Some(v) => v,
        };
        let (buf, p5) = match read_lp_bytes(b, p4) {
            None => {
                return None;
            },
            Some(v) => v,
        };
        if p5 != b.len() || fi > usize::MAX as u64 || pi > usize::MAX as u64 || ci > usize::MAX
            as u64 {
            return None;
        }
        Some(
            Message::Upload {
                id,
                file_index: fi as usize,
                piece_index: pi as usize,
                chunk_index: ci as usize,
                buf,
            },
        )
    } else {
        None
    }
}

// ---------------------------------------------------------------------------
// Encoded lengths
// ---------------------------------------------------------------------------
/// The hash runs of `n` pieces occupy `16 * n` bytes.
pub proof fn lemma_enc_pieces_len(ps: Seq<Seq<u8>>)
    requires
        forall|i: int| 0 <= i < ps.len() ==> (#[trigger] ps[i]).len() == 16,
    ensures
        enc_pieces(ps).len() == 16 * ps.len(),
    decreases ps.len(),
{
    vstd::bytes::lemma_auto_spec_u64_to_from_le_bytes();
    if ps.len() > 0 {
        lemma_enc_pieces_len(ps.drop_first());
    }
}

/// One file's encoding is its fixed fields plus its path and hashes.
pub proof fn lemma_enc_file_len(f: FileMetaView)
    requires
        file_meta_wf(f),
    ensures
        enc_file(f).len() == 24 + f.path.len() + 16 * f.pieces.len(),
{
    vstd::bytes::lemma_auto_spec_u64_to_from_le_bytes();
    lemma_enc_pieces_len(f.pieces);
}

// ---------------------------------------------------------------------------
// Parsing an encoding yields the original value
// ---------------------------------------------------------------------------
/// A planted run gives pointwise knowledge of the buffer.
proof fn lemma_planted_pointwise(b: Seq<u8>, pos: int, e: Seq<u8>)
    requires
        0 <= pos,
        pos + e.len() <= b.len(),
        b.subrange(pos, pos + e.len() as int) == e,
    ensures
        forall|j: int| pos <= j < pos + e.len() ==> #[trigger] b[j] == e[j - pos],
{
    assert forall|j: int| pos <= j < pos + e.len() implies #[trigger] b[j] == e[j - pos] by {
        assert(b.subrange(pos, pos + e.len() as int)[j - pos] == e[j - pos]);
    }
}

/// A 64-bit run planted at `pos` parses back to its value.
proof fn lemma_dec_u64_of_enc(b: Seq<u8>, pos: int, n: nat)
    requires
        n <= u64::MAX,
        0 <= pos,
        pos + 8 <= b.len(),
        b.subrange(pos, pos + 8) == enc_u64(n),
    ensures
        dec_u64(b, pos) == Some((n, pos + 8)),
{
    vstd::bytes::lemma_auto_spec_u64_to_from_le_bytes();
}

/// A length-prefixed byte string planted at `pos` parses back to itself.
proof fn lemma_dec_bytes_of_enc(b: Seq<u8>, pos: int, s: Seq<u8>)
    requires
        s.len() <= u64::MAX,
        0 <= pos,
        pos + 8 + s.len() <= b.len(),
        b.subrange(pos, pos + 8 + s.len()) == enc_bytes(s),
    ensures
        dec_bytes(b, pos) == Some((s, pos + 8 + s.len())),
{
    vstd::bytes::lemma_auto_spec_u64_to_from_le_bytes();
    lemma_planted_pointwise(b, pos, enc_bytes(s));
    assert(b.subrange(pos, pos + 8) =~= enc_bytes(s).subrange(0, 8));
    assert(enc_bytes(s).subrange(0, 8) =~= enc_u64(s.len()));
    lemma_dec_u64_of_enc(b, pos, s.len());
    assert(b.subrange(pos + 8, pos + 8 + s.len()) =~= s);
}

/// Piece hashes planted at `pos` parse back to themselves.
proof fn lemma_dec_pieces_of_enc(b: Seq<u8>, pos: int, ps: Seq<Seq<u8>>)
    requires
        forall|i: int| 0 <= i < ps.len() ==> (#[trigger] ps[i]).len() == 16,
        0 <= pos,
        pos + 16 * ps.len() <= b.len(),
        b.subrange(pos, pos + 16 * ps.len()) == enc_pieces(ps),
    ensures
        dec_pieces(b, pos, ps.len()) == Some((ps, pos + 16 * ps.len())),
    decreases ps.len(),
{
    if ps.len() == 0 {
        assert(dec_pieces(b, pos, 0) == Some((Seq::<Seq<u8>>::empty(), pos)));
        assert(ps =~= Seq::<Seq<u8>>::empty());
    } else {
        let tail = ps.drop_first();
        lemma_enc_pieces_len(ps);
        lemma_enc_pieces_len(tail);
        lemma_planted_pointwise(b, pos, enc_pieces(ps));
        assert(b.subrange(pos, pos + 16) =~= ps[0]);
        assert(b.subrange(pos + 16, pos + 16 + 16 * tail.len()) =~= enc_pieces(tail));
        lemma_dec_pieces_of_enc(b, pos + 16, tail);
        assert(seq![ps[0]] + tail =~= ps);
    }
}

/// A file description planted at `pos` parses back to itself.
proof fn lemma_dec_file_of_enc(b: Seq<u8>, pos: int, f: FileMetaView)
    requires
        file_meta_wf(f),
        0 <= pos,
        pos + enc_file(f).len() <= b.len(),
        b.subrange(pos, pos + enc_file(f).len()) == enc_file(f),
    ensures
        dec_file(b, pos) == Some((f, pos + enc_file(f).len())),
{
    vstd::bytes::lemma_auto_spec_u64_to_from_le_bytes();
    lemma_enc_file_len(f);
    lemma_enc_pieces_len(f.pieces);
    let e = enc_file(f);
    lemma_planted_pointwise(b, pos, e);
    let p1 = pos + 8 + f.path.len();
    let p2 = p1 + 8;
    let p3 = p2 + 8;
    let p4 = p3 + 16 * f.pieces.len();
    assert(b.subrange(pos, pos + 8 + f.path.len()) =~= enc_bytes(f.path));
    lemma_dec_bytes_of_enc(b, pos, f.path);
    assert(b.subrange(p1, p1 + 8) =~= enc_u64(f.size));
    lemma_dec_u64_of_enc(b, p1, f.size);
    assert(b.subrange(p2, p2 + 8) =~= enc_u64(f.pieces.len()));
    lemma_dec_u64_of_enc(b, p2, f.pieces.len());
    assert(b.subrange(p3, p3 + 16 * f.pieces.len()) =~= enc_pieces(f.pieces));
    lemma_dec_pieces_of_enc(b, p3, f.pieces);
    assert(dec_file(b, pos) == Some((FileMetaView { path: f.path, size: f.size, pieces: f.pieces }, p4)));
    assert(FileMetaView { path: f.path, size: f.size, pieces: f.pieces } =~= f);
}

/// File descriptions planted at `pos` parse back to themselves.
proof fn lemma_dec_files_of_enc(b: Seq<u8>, pos: int, fs: Seq<FileMetaView>)
    requires
        forall|i: int| 0 <= i < fs.len() ==> file_meta_wf(#[trigger] fs[i]),
        0 <= pos,
        pos + enc_files(fs).len() <= b.len(),
        b.subrange(pos, pos + enc_files(fs).len()) == enc_files(fs),
    ensures
        dec_files(b, pos, fs.len()) == Some((fs, pos + enc_files(fs).len())),
    decreases fs.len(),
{
    if fs.len() == 0 {
        assert(fs =~= Seq::<FileMetaView>::empty());
    } else {
        let head = fs[0];
        let tail = fs.drop_first();
        lemma_planted_pointwise(b, pos, enc_files(fs));
        let hl = enc_file(head).len();
        assert(enc_files(fs).len() == hl + enc_files(tail).len());
        assert(b.subrange(pos, pos + hl) =~= enc_file(head));
        lemma_dec_file_of_enc(b, pos, head);
        assert(b.subrange(pos + hl, pos + hl + enc_files(tail).len()) =~= enc_files(tail));
        lemma_dec_files_of_enc(b, pos + hl, tail);
        assert(seq![head] + tail =~= fs);
    }
}

/// A box description planted at `pos` parses back to itself.
pub proof fn lemma_dec_meta_of_enc(b: Seq<u8>, pos: int, m: MetaView)
    requires
        meta_wf(m),
        0 <= pos,
        pos + enc_meta(m).len() <= b.len(),
        b.subrange(pos, pos + enc_meta(m).len()) == enc_meta(m),
    ensures
        dec_meta(b, pos) == Some((m, pos + enc_meta(m).len())),
{
    vstd::bytes::lemma_auto_spec_u64_to_from_le_bytes();
    lemma_planted_pointwise(b, pos, enc_meta(m));
    let p1 = pos + 8 + m.name.len();
    let p2 = p1 + 8;
    assert(b.subrange(pos, pos + 8 + m.name.len()) =~= enc_bytes(m.name));
    lemma_dec_bytes_of_enc(b, pos, m.name);
    assert(b.subrange(p1, p1 + 8) =~= enc_u64(m.files.len()));
    lemma_dec_u64_of_enc(b, p1, m.files.len());
    assert(b.subrange(p2, p2 + enc_files(m.files).len()) =~= enc_files(m.files));
    lemma_dec_files_of_enc(b, p2, m.files);
    assert(dec_meta(b, pos) == Some(
        (MetaView { name: m.name, files: m.files }, p2 + enc_files(m.files).len()),
    ));
    assert(MetaView { name: m.name, files: m.files } =~= m);
}

// ---------------------------------------------------------------------------
// Parsing is canonical: what a successful parse consumed is exactly the
// parsed value's encoding
// ---------------------------------------------------------------------------
/// A parsed 64-bit run re-encodes to the bytes it was read from.
proof fn lemma_dec_u64_canonical(b: Seq<u8>, pos: int)
    requires
        dec_u64(b, pos) is Some,
    ensures
        ({
            let (v, p) = dec_u64(b, pos).unwrap();
            &&& p == pos + 8
            &&& v <= u64::MAX
            &&& enc_u64(v) == b.subrange(pos, p)
        }),
{
    vstd::bytes::lemma_auto_spec_u64_to_from_le_bytes();
}

/// A parsed byte string re-encodes to the bytes it was read from.
proof fn lemma_dec_bytes_canonical(b: Seq<u8>, pos: int)
    requires
        dec_bytes(b, pos) is Some,
    ensures
        ({
            let (s, p) = dec_bytes(b, pos).unwrap();
            &&& pos + 8 <= p <= b.len()
            &&& s.len() <= u64::MAX
            &&& p == pos + 8 + s.len()
            &&& enc_bytes(s) == b.subrange(pos, p)
        }),
{
    lemma_dec_u64_canonical(b, pos);
    let (s, p) = dec_bytes(b, pos).unwrap();
    assert(enc_bytes(s) =~= b.subrange(pos, p));
}

/// Parsed piece hashes re-encode to the bytes they were read from.
proof fn lemma_dec_pieces_canonical(b: Seq<u8>, pos: int, n: nat)
    requires
        0 <= pos <= b.len(),
        dec_pieces(b, pos, n) is Some,
    ensures
        ({
            let (ps, p) = dec_pieces(b, pos, n).unwrap();
            &&& ps.len() == n
            &&& forall|i: int| 0 <= i < ps.len() ==> (#[trigger] ps[i]).len() == 16
            &&& p == pos + 16 * n
            &&& 0 <= pos <= p <= b.len()
            &&& enc_pieces(ps) == b.subrange(pos, p)
        }),
    decreases n,
{
    let (ps, p) = dec_pieces(b, pos, n).unwrap();
    if n == 0 {
        assert(ps =~= Seq::<Seq<u8>>::empty());
        assert(enc_pieces(ps) =~= b.subrange(pos, pos));
    } else {
        let (h, p1) = dec_raw(b, pos, 16).unwrap();
        lemma_dec_pieces_canonical(b, p1, (n - 1) as nat);
        let (t, _) = dec_pieces(b, p1, (n - 1) as nat).unwrap();
        assert(ps =~= seq![h] + t);
        assert(ps.drop_first() =~= t);
        assert(ps[0] == h);
        assert(enc_pieces(ps) =~= b.subrange(pos, p));
    }
}

/// A parsed file description re-encodes to the bytes it was read from, and
/// is well formed.
proof fn lemma_dec_file_canonical(b: Seq<u8>, pos: int)
    requires
        dec_file(b, pos) is Some,
    ensures
        ({
            let (f, p) = dec_file(b, pos).unwrap();
            &&& file_meta_wf(f)
            &&& 0 <= pos <= p <= b.len()
            &&& p - pos == enc_file(f).len()
            &&& enc_file(f) == b.subrange(pos, p)
        }),
{
    let (f, p) = dec_file(b, pos).unwrap();
    lemma_dec_bytes_canonical(b, pos);
    let (path, p1) = dec_bytes(b, pos).unwrap();
    lemma_dec_u64_canonical(b, p1);
    let (size, p2) = dec_u64(b, p1).unwrap();
    lemma_dec_u64_canonical(b, p2);
    let (cnt, p3) = dec_u64(b, p2).unwrap();
    lemma_dec_pieces_canonical(b, p3, cnt);
    assert(enc_file(f) =~= b.subrange(pos, p));
    lemma_enc_file_len(f);
}

/// Parsed file descriptions re-encode to the bytes they were read from.
proof fn lemma_dec_files_canonical(b: Seq<u8>, pos: int, n: nat)
    requires
        0 <= pos <= b.len(),
        dec_files(b, pos, n) is Some,
    ensures
        ({
            let (fs, p) = dec_files(b, pos, n).unwrap();
            &&& fs.len() == n
            &&& forall|i: int| 0 <= i < fs.len() ==> file_meta_wf(#[trigger] fs[i])
            &&& 0 <= pos <= p <= b.len()
            &&& enc_files(fs) == b.subrange(pos, p)
        }),
    decreases n,
{
    let (fs, p) = dec_files(b, pos, n).unwrap();
    if n == 0 {
        assert(fs =~= Seq::<FileMetaView>::empty());
        assert(enc_files(fs) =~= b.subrange(pos, pos));
    } else {
        lemma_dec_file_canonical(b, pos);
        let (f, p1) = dec_file(b, pos).unwrap();
        lemma_dec_files_canonical(b, p1, (n - 1) as nat);
        let (t, _) = dec_files(b, p1, (n - 1) as nat).unwrap();
        assert(fs =~= seq![f] + t);
        assert(fs.drop_first() =~= t);
        assert(fs[0] == f);
        assert(enc_files(fs) =~= b.subrange(pos, p));
    }
}

/// A parsed box description re-encodes to the bytes it was read from, and
/// is well formed.
proof fn lemma_dec_meta_canonical(b: Seq<u8>, pos: int)
    requires
        dec_meta(b, pos) is Some,
    ensures
        ({
            let (m, p) = dec_meta(b, pos).unwrap();
            &&& meta_wf(m)
            &&& 0 <= pos <= p <= b.len()
            &&& enc_meta(m) == b.subrange(pos, p)
        }),
{
    let (m, p) = dec_meta(b, pos).unwrap();
    lemma_dec_bytes_canonical(b, pos);
    let (name, p1) = dec_bytes(b, pos).unwrap();
    lemma_dec_u64_canonical(b, p1);
    let (cnt, p2) = dec_u64(b, p1).unwrap();
    lemma_dec_files_canonical(b, p2, cnt);
    assert(enc_meta(m) =~= b.subrange(pos, p));
}

/// Decoding is canonical: any buffer that decodes as a box description is
/// byte-identical to that description's encoding, so decoding, re-encoding
/// and decoding again all agree.
pub proof fn lemma_metadata_canonical(b: Seq<u8>)
    requires
        metadata_decoded(b) is Some,
    ensures
        meta_wf(metadata_decoded(b).unwrap()),
        enc_meta(metadata_decoded(b).unwrap()) == b,
{
    lemma_dec_meta_canonical(b, 0);
    assert(b.subrange(0, b.len() as int) =~= b);
}

/// Decoding is canonical for messages as well: any buffer that decodes as
/// a message is byte-identical to that message's encoding.
pub proof fn lemma_message_canonical(b: Seq<u8>)
    requires
        message_decoded(b) is Some,
    ensures
        msg_wf(message_decoded(b).unwrap()),
        enc_msg(message_decoded(b).unwrap()) == b,
{
    let m = message_decoded(b).unwrap();
    let tag = b[0];
    if tag == 0 || tag == 1 {
        assert(enc_msg(m) =~= b);
    } else if tag == 2 {
        assert(enc_msg(m) =~= b);
    } else if tag == 3 {
        let (id, p1) = dec_raw(b, 1, 24).unwrap();
        lemma_dec_meta_canonical(b, p1);
        assert(enc_msg(m) =~= b);
    } else if tag == 4 || tag == 5 || tag == 6 {
        let (id, p1) = dec_raw(b, 1, 24).unwrap();
        lemma_dec_u64_canonical(b, p1);
        let (fi, p2) = dec_u64(b, p1).unwrap();
        lemma_dec_u64_canonical(b, p2);
        assert(enc_msg(m) =~= b);
    } else if tag == 7 {
        let (id, p1) = dec_raw(b, 1, 24).unwrap();
        lemma_dec_u64_canonical(b, p1);
        let (fi, p2) = dec_u64(b, p1).unwrap();
        lemma_dec_u64_canonical(b, p2);
        let (pi, p3) = dec_u64(b, p2).unwrap();
        lemma_dec_u64_canonical(b, p3);
        let (ci, p4) = dec_u64(b, p3).unwrap();
        lemma_dec_bytes_canonical(b, p4);
        assert(enc_msg(m) =~= b);
    }
}

/// Round trip for metadata: decoding an encoded box description gives back
/// exactly the description that was encoded, so re-encoding it is
/// byte-identical to the first encoding.
pub proof fn lemma_metadata_round_trip(m: MetaView)
    requires
        meta_wf(m),
    ensures
        metadata_decoded(enc_meta(m)) == Some(m),
        enc_meta(metadata_decoded(enc_meta(m)).unwrap()) == enc_meta(m),
{
    let b = enc_meta(m);
    assert(b.subrange(0, b.len() as int) =~= b);
    lemma_dec_meta_of_enc(b, 0, m);
}

/// Round trip for messages: decoding an encoded message gives back exactly
/// the message that was encoded.
pub proof fn lemma_message_round_trip(m: MessageView)
    requires
        msg_wf(m),
    ensures
        message_decoded(enc_msg(m)) == Some(m),
{
    vstd::bytes::lemma_auto_spec_u64_to_from_le_bytes();
    let b = enc_msg(m);
    match m {
        MessageView::SearchingForPeers => {},
        MessageView::ImHere => {},
        MessageView::FindMetadata { id } => {
            assert(b.subrange(1, 25) =~= id);
        },
        MessageView::GotMetadata { id, meta } => {
            assert(b.subrange(1, 25) =~= id);
            assert(b.subrange(25, 25 + enc_meta(meta).len() as int) =~= enc_meta(meta));
            lemma_dec_meta_of_enc(b, 25, meta);
        },
        MessageView::FindPiece { id, file_index, piece_index } => {
            assert(b.subrange(1, 25) =~= id);
            assert(b.subrange(25, 33) =~= enc_u64(file_index));
            lemma_dec_u64_of_enc(b, 25, file_index);
            assert(b.subrange(33, 41) =~= enc_u64(piece_index));
            lemma_dec_u64_of_enc(b, 33, piece_index);
        },
        MessageView::GotPiece { id, file_index, piece_index } => {
            assert(b.subrange(1, 25) =~= id);
            assert(b.subrange(25, 33) =~= enc_u64(file_index));
            lemma_dec_u64_of_enc(b, 25, file_index);
            assert(b.subrange(33, 41) =~= enc_u64(piece_index));
            lemma_dec_u64_of_enc(b, 33, piece_index);
        },
        MessageView::StartDownload { id, file_index, piece_index } => {
            assert(b.subrange(1, 25) =~= id);
            assert(b.subrange(25, 33) =~= enc_u64(file_index));
            lemma_dec_u64_of_enc(b, 25, file_index);
            assert(b.subrange(33, 41) =~= enc_u64(piece_index));
            lemma_dec_u64_of_enc(b, 33, piece_index);
        },
        MessageView::Upload { id, file_index, piece_index, chunk_index, buf } => {
            assert(b.subrange(1, 25) =~= id);
            assert(b.subrange(25, 33) =~= enc_u64(file_index));
            lemma_dec_u64_of_enc(b, 25, file_index);
            assert(b.subrange(33, 41) =~= enc_u64(piece_index));
            lemma_dec_u64_of_enc(b, 33, piece_index);
            assert(b.subrange(41, 49) =~= enc_u64(chunk_index));
            lemma_dec_u64_of_enc(b, 41, chunk_index);
            assert(b.subrange(49, 57 + buf.len() as int) =~= enc_bytes(buf));
            lemma_dec_bytes_of_enc(b, 49, buf);
        },
    }
}

} // verus!
