//! The piece store: a memory-mapped file split into fixed-size pieces, each
//! carrying a digest, a declared size and a completion state.
//!
//! A file of `n` bytes has `ceil(n / PIECE_SIZE)` pieces; every piece but the
//! last spans exactly `PIECE_SIZE` bytes.  An incomplete piece counts the
//! chunks that have arrived; once all of them are in, the mapped window is
//! flushed and its digest checked against the expected piece hash.

use crate::hash::{blake2s16, blake2s16_of, blake2s24, blake2s24_of, hash16_eq};
use crate::mmap::{mmap_bytes, mmap_flush, mmap_len, mmap_read, mmap_write};
use crate::{CHUNK_SIZE, PIECE_SIZE};
use vstd::pervasive::VecAdditionalExecFns;
use vstd::prelude::*;

verus! {

/// Completion of one piece: fully verified and sealed, or a tally of the
/// chunk indices that have arrived so far out of a declared total.
#[derive(Debug)]
pub enum PieceState {
    Downloaded,
    Incomplete(usize, Vec<usize>),
}

/// One `PIECE_SIZE`-byte window of a file (the last window may be shorter),
/// with the digest its bytes must match.
#[derive(Debug)]
pub struct Piece {
    pub hash: [u8; 16],
    pub size: usize,
    pub state: PieceState,
}

/// A writable memory map of one on-disk file, divided into pieces.
#[derive(Debug)]
pub struct MappedFile {
    inner: memmap2::MmapMut,
    size: usize,
    pieces: Vec<Piece>,
}

/// Mathematical image of a `PieceState`.
#[verifier::ext_equal]
pub ghost enum PieceStateView {
    Downloaded,
    Incomplete { total: nat, acquired: Seq<nat> },
}

/// Mathematical image of a `Piece`.
#[verifier::ext_equal]
pub ghost struct PieceView {
    pub hash: Seq<u8>,
    pub size: nat,
    pub state: PieceStateView,
}

/// Mathematical image of a `MappedFile`: the mapped bytes and the pieces.
#[verifier::ext_equal]
pub ghost struct FileView {
    pub bytes: Seq<u8>,
    pub pieces: Seq<PieceView>,
}

impl View for PieceState {
    type V = PieceStateView;

    open spec fn view(&self) -> PieceStateView {
        match self {
            PieceState::Downloaded => PieceStateView::Downloaded,
            PieceState::Incomplete(total, acquired) => PieceStateView::Incomplete {
                total: *total as nat,
                acquired: acquired@.map_values(|c: usize| c as nat),
            },
        }
    }
}

impl View for Piece {
    type V = PieceView;

    open spec fn view(&self) -> PieceView {
        PieceView { hash: self.hash@, size: self.size as nat, state: self.state@ }
    }
}

impl View for MappedFile {
    type V = FileView;

    closed spec fn view(&self) -> FileView {
        FileView {
            bytes: mmap_bytes(self.inner),
            pieces: self.pieces@.map_values(|p: Piece| p@),
        }
    }
}

/// `ceil(len / sz)` for positive `sz`.
pub open spec fn ceil_div(len: int, sz: int) -> int {
    (len + sz - 1) / sz
}

/// How many pieces a file of `len` bytes has.
pub open spec fn num_pieces(len: int) -> int {
    ceil_div(len, PIECE_SIZE as int)
}

/// Byte length of piece `i` of a file of `len` bytes.
pub open spec fn piece_len(len: int, i: int) -> int {
    if len - i * (PIECE_SIZE as int) < PIECE_SIZE as int {
        len - i * (PIECE_SIZE as int)
    } else {
        PIECE_SIZE as int
    }
}

/// How many chunks a piece of `size` bytes is transmitted as.
pub open spec fn num_chunks(size: int) -> int {
    ceil_div(size, CHUNK_SIZE as int)
}

/// The bytes of piece `i`'s window within `bytes`.
pub open spec fn window(bytes: Seq<u8>, i: int) -> Seq<u8> {
    bytes.subrange(i * (PIECE_SIZE as int), i * (PIECE_SIZE as int) + piece_len(
        bytes.len() as int,
        i,
    ))
}

/// No index occurs twice.
pub open spec fn no_dups(s: Seq<nat>) -> bool {
    forall|i: int, j: int| 0 <= i < j < s.len() ==> s[i] != s[j]
}

/// Chunk accounting of one piece is sound: the chunk total matches the piece
/// size, and the acquired indices are distinct, below the total, and not yet
/// all there (a full tally is sealed or cleared at once).
pub open spec fn piece_state_wf(p: PieceView) -> bool {
    match p.state {
        PieceStateView::Downloaded => true,
        PieceStateView::Incomplete { total, acquired } => {
            &&& total == num_chunks(p.size as int)
            &&& no_dups(acquired)
            &&& forall|k: int| 0 <= k < acquired.len() ==> acquired[k] < total
            &&& acquired.len() < total
        },
    }
}

/// The pieces tile the mapped bytes: one per `PIECE_SIZE` window, each with
/// the window's length.
pub open spec fn layout_wf(v: FileView) -> bool {
    &&& v.pieces.len() == num_pieces(v.bytes.len() as int)
    &&& forall|i: int|
        0 <= i < v.pieces.len() ==> (#[trigger] v.pieces[i]).size == piece_len(
            v.bytes.len() as int,
            i,
        )
}

/// Every downloaded piece's window matches its digest, and every incomplete
/// piece's accounting is sound.
pub open spec fn pieces_wf(v: FileView) -> bool {
    forall|i: int|
        0 <= i < v.pieces.len() ==> {
            &&& (#[trigger] v.pieces[i]).hash.len() == 16
            &&& piece_state_wf(v.pieces[i])
            &&& (v.pieces[i].state is Downloaded ==> blake2s16_of(window(v.bytes, i))
                == v.pieces[i].hash)
        }
}

/// Well-formedness of the whole store.
pub open spec fn file_wf(v: FileView) -> bool {
    &&& layout_wf(v)
    &&& pieces_wf(v)
}

/// Basic bounds of the ceiling division.
pub proof fn lemma_ceil_div(len: int, sz: int)
    requires
        len >= 0,
        sz >= 1,
    ensures
        ceil_div(len, sz) >= 0,
        ceil_div(len, sz) * sz >= len,
        len == 0 ==> ceil_div(len, sz) == 0,
        len > 0 ==> ceil_div(len, sz) >= 1,
        len > 0 ==> (ceil_div(len, sz) - 1) * sz < len,
{
    assert(ceil_div(len, sz) >= 0 && ceil_div(len, sz) * sz >= len && (len == 0 ==> ceil_div(
        len,
        sz,
    ) == 0) && (len > 0 ==> ceil_div(len, sz) >= 1) && (len > 0 ==> (ceil_div(len, sz) - 1) * sz
        < len)) by (nonlinear_arith)
        requires
            len >= 0,
            sz >= 1,
    {
    }
}

/// A multiple of `sz` strictly below `len` indexes a slot below the ceiling.
pub proof fn lemma_below_ceil(len: int, sz: int, i: int)
    requires
        len >= 0,
        sz >= 1,
        i >= 0,
        i * sz < len,
    ensures
        i < ceil_div(len, sz),
{
    assert(i < ceil_div(len, sz)) by (nonlinear_arith)
        requires
            len >= 0,
            sz >= 1,
            i >= 0,
            i * sz < len,
    {
    }
}

/// Piece `i`'s window lies inside the file, and its length is between 1 and
/// `PIECE_SIZE`.
pub proof fn lemma_piece_bounds(len: int, i: int)
    requires
        len >= 0,
        0 <= i < num_pieces(len),
    ensures
        0 < piece_len(len, i) <= PIECE_SIZE as int,
        i * (PIECE_SIZE as int) + piece_len(len, i) <= len,
        i * (PIECE_SIZE as int) < len,
        i < num_pieces(len) - 1 ==> piece_len(len, i) == PIECE_SIZE as int,
        i == num_pieces(len) - 1 ==> i * (PIECE_SIZE as int) + piece_len(len, i) == len,
{
    let p = PIECE_SIZE as int;
    assert(num_pieces(len) == (len + p - 1) / p);
    assert(i * p < len && len - i * p <= (num_pieces(len) - i) * p) by (nonlinear_arith)
        requires
            len >= 0,
            p == PIECE_SIZE as int,
            0 <= i < (len + p - 1) / p,
    {
    }
    if i < num_pieces(len) - 1 {
        assert(len - i * p >= 2 * p - p + 1 > p) by (nonlinear_arith)
            requires
                p == PIECE_SIZE as int,
                i + 2 <= (len + p - 1) / p,
                i >= 0,
                len >= 0,
        {
        }
    }
    if i == num_pieces(len) - 1 {
        assert(len - i * p <= p) by (nonlinear_arith)
            requires
                p == PIECE_SIZE as int,
                i + 1 == (len + p - 1) / p,
                i >= 0,
                len >= 0,
        {
        }
    }
}

/// A window of `b2` is untouched when `b2` equals `b1` outside `[lo, hi)` and
/// the window lies outside that range.
proof fn lemma_window_untouched(b1: Seq<u8>, b2: Seq<u8>, lo: int, hi: int, j: int)
    requires
        b1.len() == b2.len(),
        0 <= lo <= hi <= b1.len(),
        forall|k: int| 0 <= k < b1.len() && !(lo <= k < hi) ==> b1[k] == b2[k],
        0 <= j < num_pieces(b1.len() as int),
        j * (PIECE_SIZE as int) >= hi || j * (PIECE_SIZE as int) + piece_len(b1.len() as int, j)
            <= lo,
    ensures
        window(b2, j) == window(b1, j),
{
    lemma_piece_bounds(b1.len() as int, j);
    assert(window(b2, j) =~= window(b1, j));
}

/// Casting a tally of chunk indices to mathematical naturals keeps
/// membership.
proof fn lemma_nat_view_contains(v: Seq<usize>, x: usize)
    ensures
        v.map_values(|c: usize| c as nat).contains(x as nat) <==> v.contains(x),
{
    let m = v.map_values(|c: usize| c as nat);
    if m.contains(x as nat) {
        let k = choose|k: int| 0 <= k < m.len() && m[k] == x as nat;
        assert(v[k] == x);
    }
    if v.contains(x) {
        let k = choose|k: int| 0 <= k < v.len() && v[k] == x;
        assert(m[k] == x as nat);
    }
}

/// An element-for-element copy of a chunk tally.
fn copy_indices(v: &Vec<usize>) -> (r: Vec<usize>)
    ensures
        r@ == v@,
{
    let mut r: Vec<usize> = Vec::new();
    let mut i: usize = 0;
    while i < v.len()
        invariant
            i <= v@.len(),
            r@ == v@.subrange(0, i as int),
        decreases v@.len() - i,
    {
        r.push(v[i]);
        assert(r@ =~= v@.subrange(0, i + 1));
        i += 1;
    }
    assert(r@ =~= v@);
    r
}

/// Linear search of a chunk tally.
fn contains_index(v: &Vec<usize>, x: usize) -> (r: bool)
    ensures
        r == v@.contains(x),
{
    let mut i: usize = 0;
    while i < v.len()
        invariant
            i <= v@.len(),
            forall|k: int| 0 <= k < i ==> v@[k] != x,
        decreases v@.len() - i,
    {
        if v[i] == x {
            return true;
        }
        i += 1;
    }
    false
}

/// The mathematical effect of `MappedFile::write_chunk`: the store after the
/// call and whether the write was accepted.
///
/// A write is refused when the piece does not exist, is already downloaded,
/// or the chunk index lies beyond the declared total; it is skipped but
/// reported accepted when the chunk was already recorded; and it is refused
/// when the written range would not begin strictly inside the piece's window
/// or would run past its end.  Otherwise the bytes land in the window at the
/// chunk's offset and the index is recorded; a tally that reaches its total
/// is sealed if the window's digest matches the piece hash and cleared if it
/// does not.
pub open spec fn write_chunk_spec(pre: FileView, piece: int, chunk: int, data: Seq<u8>) -> (
    FileView,
    bool,
) {
    if !(0 <= piece < pre.pieces.len()) {
        (pre, false)
    } else {
        let p = pre.pieces[piece];
        match p.state {
            PieceStateView::Downloaded => (pre, false),
            PieceStateView::Incomplete { total, acquired } => {
                if chunk > total {
                    (pre, false)
                } else if acquired.contains(chunk as nat) {
                    (pre, true)
                } else if chunk * (CHUNK_SIZE as int) >= p.size || chunk * (CHUNK_SIZE as int)
                    + data.len() > p.size {
                    (pre, false)
                } else {
                    let start = piece * (PIECE_SIZE as int) + chunk * (CHUNK_SIZE as int);
                    let bytes2 = pre.bytes.subrange(0, start) + data + pre.bytes.subrange(
                        start + data.len(),
                        pre.bytes.len() as int,
                    );
                    let acq2 = acquired.push(chunk as nat);
                    let st2 = if acq2.len() == total {
                        if blake2s16_of(window(bytes2, piece)) == p.hash {
                            PieceStateView::Downloaded
                        } else {
                            PieceStateView::Incomplete { total, acquired: Seq::<nat>::empty() }
                        }
                    } else {
                        PieceStateView::Incomplete { total, acquired: acq2 }
                    };
                    let p2 = PieceView { hash: p.hash, size: p.size, state: st2 };
                    (FileView { bytes: bytes2, pieces: pre.pieces.update(piece, p2) }, true)
                }
            },
        }
    }
}

impl MappedFile {
    /// Well-formedness of this store.
    pub open spec fn wf(&self) -> bool {
        file_wf(self@)
    }

    /// Total byte length of the mapped file.
    pub fn file_size(&self) -> (n: usize)
        requires
            self.wf(),
        ensures
            n == self@.bytes.len(),
    {
        proof {
            assert(self@.bytes == mmap_bytes(self.inner));
        }
        mmap_len(&self.inner)
    }

    /// How many pieces the file has.
    pub fn piece_count(&self) -> (n: usize)
        ensures
            n == self@.pieces.len(),
    {
        self.pieces.len()
    }

    /// `ceil(size / PIECE_SIZE)`, computed without overflow.
    fn piece_count_for(size: usize) -> (n: usize)
        ensures
            n == num_pieces(size as int),
    {
        if size == 0 {
            0
        } else {
            proof {
                vstd::arithmetic::div_mod::lemma_div_plus_one(size - 1, PIECE_SIZE as int);
                vstd::arithmetic::div_mod::lemma_div_pos_is_pos(size - 1, PIECE_SIZE as int);
                vstd::arithmetic::div_mod::lemma_div_nonincreasing(size - 1, PIECE_SIZE as int);
            }
            (size - 1) / PIECE_SIZE + 1
        }
    }

    /// Seeder-side construction from a fully present file: every window is
    /// hashed and recorded as downloaded, and the whole file's 24-byte digest
    /// is returned beside the store.
    pub fn from_whole_file(inner: memmap2::MmapMut) -> (r: ([u8; 24], MappedFile))
        ensures
            r.1.wf(),
            r.1@.bytes == mmap_bytes(inner),
            forall|i: int| 0 <= i < r.1@.pieces.len() ==> r.1@.pieces[i].state is Downloaded,
            r.0@ == blake2s24_of(mmap_bytes(inner)),
    {
        let ghost bytes = mmap_bytes(inner);
        let size = mmap_len(&inner);
        let all = mmap_read(&inner, 0, size);
        proof {
            assert(all@ =~= bytes);
        }
        let file_hash = blake2s24(all.as_slice());
        let ghost n_total = num_pieces(size as int);
        let mut pieces: Vec<Piece> = Vec::new();
        let mut off: usize = 0;
        proof {
            lemma_ceil_div(size as int, PIECE_SIZE as int);
        }
        while off < size
            invariant
                size == bytes.len(),
                bytes == mmap_bytes(inner),
                n_total == num_pieces(size as int),
                off as int == if pieces@.len() * (PIECE_SIZE as int) <= size as int {
                    pieces@.len() * (PIECE_SIZE as int)
                } else {
                    size as int
                },
                off <= size,
                pieces@.len() <= n_total,
                off >= size ==> pieces@.len() == n_total,
                forall|j: int|
                    0 <= j < pieces@.len() ==> {
                        &&& (#[trigger] pieces@[j])@.size == piece_len(size as int, j)
                        &&& pieces@[j]@.state is Downloaded
                        &&& pieces@[j]@.hash == blake2s16_of(window(bytes, j))
                        &&& pieces@[j]@.hash.len() == 16
                    },
            decreases size - off,
        {
            let ghost i = pieces@.len() as int;
            proof {
                lemma_below_ceil(size as int, PIECE_SIZE as int, i);
                lemma_piece_bounds(size as int, i);
            }
            let rem = size - off;
            let len_i = if rem < PIECE_SIZE {
                rem
            } else {
                PIECE_SIZE
            };
            assert(len_i as int == piece_len(size as int, i));
            let wbytes = mmap_read(&inner, off, off + len_i);
            proof {
                assert(wbytes@ =~= window(bytes, i));
            }
            let h = blake2s16(wbytes.as_slice());
            pieces.push(Piece { hash: h, size: len_i, state: PieceState::Downloaded });
            off = off + len_i;
            proof {
                if (i + 1) * (PIECE_SIZE as int) <= size as int {
                    assert(off as int == (i + 1) * (PIECE_SIZE as int));
                } else {
                    assert(off as int == size as int);
                }
                if off >= size {
                    assert(pieces@.len() * (PIECE_SIZE as int) >= size as int || off as int
                        == size as int);
                    lemma_below_ceil(size as int, PIECE_SIZE as int, i);
                    if pieces@.len() < n_total {
                        lemma_piece_bounds(size as int, pieces@.len() as int);
                        assert(false);
                    }
                }
            }
        }
        let mf = MappedFile { inner, size, pieces };
        proof {
            assert(mf@.pieces =~= pieces@.map_values(|p: Piece| p@));
            assert(forall|j: int|
                0 <= j < mf@.pieces.len() ==> mf@.pieces[j] == (#[trigger] pieces@[j])@);
        }
        (file_hash, mf)
    }

    /// Receiver-side re-open of a file that may already hold data: every
    /// window whose digest already matches its expected hash enters as
    /// downloaded; the others start with an empty chunk tally.  Fails iff the
    /// hash list does not have one entry per window.
    pub fn from_file_verified(inner: memmap2::MmapMut, piece_hashes: &Vec<[u8; 16]>) -> (r: Result<
        MappedFile,
        crate::NyahError,
    >)
        ensures
            match r {
                Ok(f) => {
                    &&& f.wf()
                    &&& f@.bytes == mmap_bytes(inner)
                    &&& piece_hashes@.len() == num_pieces(mmap_bytes(inner).len() as int)
                    &&& f@.pieces.len() == piece_hashes@.len()
                    &&& forall|i: int|
                        0 <= i < f@.pieces.len() ==> (#[trigger] f@.pieces[i]).hash
                            == piece_hashes@[i]@
                    &&& forall|i: int|
                        0 <= i < f@.pieces.len() ==> ((#[trigger] f@.pieces[i]).state
                            is Downloaded <==> blake2s16_of(window(mmap_bytes(inner), i))
                            == piece_hashes@[i]@)
                    &&& forall|i: int|
                        0 <= i < f@.pieces.len() && !((#[trigger] f@.pieces[i]).state
                            is Downloaded) ==> f@.pieces[i].state == (PieceStateView::Incomplete {
                            total: num_chunks(piece_len(mmap_bytes(inner).len() as int, i)) as nat,
                            acquired: Seq::<nat>::empty(),
                        })
                },
                Err(e) => e == crate::NyahError::InvalidInput && piece_hashes@.len() != num_pieces(
                    mmap_bytes(inner).len() as int,
                ),
            },
    {
        let ghost bytes = mmap_bytes(inner);
        let size = mmap_len(&inner);
        if piece_hashes.len() != Self::piece_count_for(size) {
            return Err(crate::NyahError::InvalidInput);
        }
        let ghost n_total = num_pieces(size as int);
        let mut pieces: Vec<Piece> = Vec::new();
        let mut off: usize = 0;
        proof {
            lemma_ceil_div(size as int, PIECE_SIZE as int);
        }
        while off < size
            invariant
                size == bytes.len(),
                bytes == mmap_bytes(inner),
                n_total == num_pieces(size as int),
                piece_hashes@.len() == n_total,
                off as int == if pieces@.len() * (PIECE_SIZE as int) <= size as int {
                    pieces@.len() * (PIECE_SIZE as int)
                } else {
                    size as int
                },
                off <= size,
                pieces@.len() <= n_total,
                off >= size ==> pieces@.len() == n_total,
                forall|j: int|
                    0 <= j < pieces@.len() ==> {
                        &&& (#[trigger] pieces@[j])@.size == piece_len(size as int, j)
                        &&& pieces@[j]@.hash == piece_hashes@[j]@
                        &&& piece_state_wf(pieces@[j]@)
                        &&& (pieces@[j]@.state is Downloaded <==> blake2s16_of(window(bytes, j))
                            == piece_hashes@[j]@)
                        &&& (!(pieces@[j]@.state is Downloaded) ==> pieces@[j]@.state
                            == (PieceStateView::Incomplete {
                            total: num_chunks(piece_len(size as int, j)) as nat,
                            acquired: Seq::<nat>::empty(),
                        }))
                    },
            decreases size - off,
        {
            let ghost i = pieces@.len() as int;
            proof {
                lemma_below_ceil(size as int, PIECE_SIZE as int, i);
                lemma_piece_bounds(size as int, i);
            }
            let rem = size - off;
            let len_i = if rem < PIECE_SIZE {
                rem
            } else {
                PIECE_SIZE
            };
            assert(len_i as int == piece_len(size as int, i));
            let wbytes = mmap_read(&inner, off, off + len_i);
            proof {
                assert(wbytes@ =~= window(bytes, i));
            }
            let h = blake2s16(wbytes.as_slice());
            let expected = piece_hashes[pieces.len()];
            let chunk_amt = (len_i + (CHUNK_SIZE - 1)) / CHUNK_SIZE;
            proof {
                lemma_ceil_div(len_i as int, CHUNK_SIZE as int);
            }
            let state = if hash16_eq(&h, &expected) {
                PieceState::Downloaded
            } else {
                PieceState::Incomplete(chunk_amt, Vec::new())
            };
            proof {
                match state@ {
                    PieceStateView::Incomplete { total, acquired } => {
                        assert(acquired =~= Seq::<nat>::empty());
                    },
                    _ => {},
                }
            }
            pieces.push(Piece { hash: expected, size: len_i, state });
            off = off + len_i;
            proof {
                if (i + 1) * (PIECE_SIZE as int) <= size as int {
                    assert(off as int == (i + 1) * (PIECE_SIZE as int));
                } else {
                    assert(off as int == size as int);
                }
                if off >= size && pieces@.len() < n_total {
                    lemma_piece_bounds(size as int, pieces@.len() as int);
                    assert(false);
                }
            }
        }
        let mf = MappedFile { inner, size, pieces };
        proof {
            assert(mf@.pieces =~= pieces@.map_values(|p: Piece| p@));
            assert(forall|j: int|
                0 <= j < mf@.pieces.len() ==> mf@.pieces[j] == (#[trigger] pieces@[j])@);
        }
        Ok(mf)
    }

    /// Receiver-side construction over a freshly created file of the right
    /// length: every piece starts incomplete with an empty chunk tally and
    /// the expected hash.  Fails iff the hash list does not have one entry
    /// per window.
    pub fn from_file_empty(inner: memmap2::MmapMut, piece_hashes: &Vec<[u8; 16]>) -> (r: Result<
        MappedFile,
        crate::NyahError,
    >)
        ensures
            match r {
                Ok(f) => {
                    &&& f.wf()
                    &&& f@.bytes == mmap_bytes(inner)
                    &&& piece_hashes@.len() == num_pieces(mmap_bytes(inner).len() as int)
                    &&& f@.pieces.len() == piece_hashes@.len()
                    &&& forall|i: int|
                        0 <= i < f@.pieces.len() ==> (#[trigger] f@.pieces[i]).hash
                            == piece_hashes@[i]@
                    &&& forall|i: int|
                        0 <= i < f@.pieces.len() ==> (#[trigger] f@.pieces[i]).state
                            == (PieceStateView::Incomplete {
                            total: num_chunks(piece_len(mmap_bytes(inner).len() as int, i)) as nat,
                            acquired: Seq::<nat>::empty(),
                        })
                },
                Err(e) => e == crate::NyahError::InvalidInput && piece_hashes@.len() != num_pieces(
                    mmap_bytes(inner).len() as int,
                ),
            },
    {
        let ghost bytes = mmap_bytes(inner);
        let size = mmap_len(&inner);
        if piece_hashes.len() != Self::piece_count_for(size) {
            return Err(crate::NyahError::InvalidInput);
        }
        let ghost n_total = num_pieces(size as int);
        let mut pieces: Vec<Piece> = Vec::new();
        let mut off: usize = 0;
        proof {
            lemma_ceil_div(size as int, PIECE_SIZE as int);
        }
        while off < size
            invariant
                size == bytes.len(),
                bytes == mmap_bytes(inner),
                n_total == num_pieces(size as int),
                piece_hashes@.len() == n_total,
                off as int == if pieces@.len() * (PIECE_SIZE as int) <= size as int {
                    pieces@.len() * (PIECE_SIZE as int)
                } else {
                    size as int
                },
                off <= size,
                pieces@.len() <= n_total,
                off >= size ==> pieces@.len() == n_total,
                forall|j: int|
                    0 <= j < pieces@.len() ==> {
                        &&& (#[trigger] pieces@[j])@.size == piece_len(size as int, j)
                        &&& pieces@[j]@.hash == piece_hashes@[j]@
                        &&& piece_state_wf(pieces@[j]@)
                        &&& pieces@[j]@.state == (PieceStateView::Incomplete {
                            total: num_chunks(piece_len(size as int, j)) as nat,
                            acquired: Seq::<nat>::empty(),
                        })
                    },
            decreases size - off,
        {
            let ghost i = pieces@.len() as int;
            proof {
                lemma_below_ceil(size as int, PIECE_SIZE as int, i);
                lemma_piece_bounds(size as int, i);
            }
            let rem = size - off;
            let len_i = if rem < PIECE_SIZE {
                rem
            } else {
                PIECE_SIZE
            };
            assert(len_i as int == piece_len(size as int, i));
            let expected = piece_hashes[pieces.len()];
            let chunk_amt = (len_i + (CHUNK_SIZE - 1)) / CHUNK_SIZE;
            proof {
                lemma_ceil_div(len_i as int, CHUNK_SIZE as int);
            }
            let state = PieceState::Incomplete(chunk_amt, Vec::new());
            proof {
                match state@ {
                    PieceStateView::Incomplete { total, acquired } => {
                        assert(acquired =~= Seq::<nat>::empty());
                    },
                    _ => {},
                }
            }
            pieces.push(Piece { hash: expected, size: len_i, state });
            off = off + len_i;
            proof {
                if (i + 1) * (PIECE_SIZE as int) <= size as int {
                    assert(off as int == (i + 1) * (PIECE_SIZE as int));
                } else {
                    assert(off as int == size as int);
                }
                if off >= size && pieces@.len() < n_total {
                    lemma_piece_bounds(size as int, pieces@.len() as int);
                    assert(false);
                }
            }
        }
        let mf = MappedFile { inner, size, pieces };
        proof {
            assert(mf@.pieces =~= pieces@.map_values(|p: Piece| p@));
            assert(forall|j: int|
                0 <= j < mf@.pieces.len() ==> mf@.pieces[j] == (#[trigger] pieces@[j])@);
        }
        Ok(mf)
    }

    /// True iff piece `piece` exists and is downloaded.
    pub fn has_piece(&self, piece: usize) -> (r: bool)
        ensures
            r == (piece < self@.pieces.len() && self@.pieces[piece as int].state
                is Downloaded),
    {
        match self.pieces.get(piece) {
            Some(p) => match &p.state {
                PieceState::Downloaded => true,
                PieceState::Incomplete(_, _) => false,
            },
            None => false,
        }
    }

    /// The indices of the pieces still missing, in strictly increasing order.
    pub fn needed_pieces(&self) -> (r: Vec<usize>)
        ensures
            forall|k1: int, k2: int| 0 <= k1 < k2 < r@.len() ==> r@[k1] < r@[k2],
            forall|p: usize| #[trigger]
                r@.contains(p) <==> (p < self@.pieces.len() && !(self@.pieces[p as int].state
                    is Downloaded)),
    {
        broadcast use vstd::seq_lib::lemma_seq_contains_after_push;

        let n = self.pieces.len();
        let mut r: Vec<usize> = Vec::new();
        let mut i: usize = 0;
        while i < n
            invariant
                i <= n,
                n == self@.pieces.len(),
                forall|k1: int, k2: int| 0 <= k1 < k2 < r@.len() ==> r@[k1] < r@[k2],
                forall|k: int| 0 <= k < r@.len() ==> r@[k] < i,
                forall|p: usize| #[trigger]
                    r@.contains(p) <==> (p < i && !(self@.pieces[p as int].state is Downloaded)),
            decreases n - i,
        {
            let ghost r_pre = r@;
            let ghost i0 = i;
            let missing = match &self.pieces[i].state {
                PieceState::Downloaded => false,
                PieceState::Incomplete(_, _) => true,
            };
            if missing {
                r.push(i);
            }
            i += 1;
            proof {
                assert forall|p: usize| #[trigger]
                    r@.contains(p) implies (p < i && !(self@.pieces[p as int].state
                    is Downloaded)) by {
                    let k = choose|k: int| 0 <= k < r@.len() && r@[k] == p;
                    if k < r_pre.len() {
                        assert(r_pre[k] == p);
                        assert(r_pre.contains(p));
                    }
                }
                assert forall|p: usize| (p < i && !(self@.pieces[p as int].state
                    is Downloaded)) implies #[trigger] r@.contains(p) by {
                    if p < i0 {
                        assert(r_pre.contains(p));
                        let k = choose|k: int| 0 <= k < r_pre.len() && r_pre[k] == p;
                        assert(r@[k] == p);
                    } else {
                        assert(p == i0);
                        assert(r@[r@.len() - 1] == p);
                    }
                }
            }
        }
        r
    }

    /// The expected digest of every piece, in order.
    pub fn piece_hashes(&self) -> (r: Vec<[u8; 16]>)
        ensures
            r@.len() == self@.pieces.len(),
            forall|i: int| 0 <= i < r@.len() ==> (#[trigger] r@[i])@ == self@.pieces[i].hash,
    {
        let mut r: Vec<[u8; 16]> = Vec::new();
        let mut i: usize = 0;
        while i < self.pieces.len()
            invariant
                i <= self.pieces@.len(),
                self@.pieces.len() == self.pieces@.len(),
                forall|j: int| 0 <= j < self.pieces@.len() ==> self@.pieces[j] == (#[trigger] self.pieces@[j])@,
                r@.len() == i,
                forall|j: int| 0 <= j < i ==> (#[trigger] r@[j])@ == self@.pieces[j].hash,
            decreases self.pieces@.len() - i,
        {
            r.push(self.pieces[i].hash);
            i += 1;
        }
        r
    }

    /// How many pieces are downloaded.
    pub fn count_downloaded(&self) -> (n: usize)
        ensures
            n == downloaded_count(self@.pieces),
    {
        let mut n: usize = 0;
        let mut i: usize = 0;
        proof {
            assert(self@.pieces.take(0) =~= Seq::<PieceView>::empty());
        }
        while i < self.pieces.len()
            invariant
                i <= self.pieces@.len(),
                self@.pieces.len() == self.pieces@.len(),
                forall|j: int| 0 <= j < self.pieces@.len() ==> self@.pieces[j] == (#[trigger] self.pieces@[j])@,
                n <= i,
                n == downloaded_count(self@.pieces.take(i as int)),
            decreases self.pieces@.len() - i,
        {
            let add_one = match &self.pieces[i].state {
                PieceState::Downloaded => true,
                PieceState::Incomplete(_, _) => false,
            };
            proof {
                assert(self@.pieces.take(i + 1).drop_last() =~= self@.pieces.take(i as int));
                assert(self@.pieces.take(i + 1).last() == self@.pieces[i as int]);
            }
            if add_one {
                n += 1;
            }
            i += 1;
        }
        proof {
            assert(self@.pieces.take(self.pieces@.len() as int) =~= self@.pieces);
        }
        n
    }

    /// A copy of piece `piece`'s bytes, available iff it is downloaded.
    pub fn read_piece(&self, piece: usize) -> (r: Option<Vec<u8>>)
        requires
            self.wf(),
        ensures
            match r {
                Some(b) => {
                    &&& piece < self@.pieces.len()
                    &&& self@.pieces[piece as int].state is Downloaded
                    &&& b@ == window(self@.bytes, piece as int)
                    &&& blake2s16_of(b@) == self@.pieces[piece as int].hash
                },
                None => !(piece < self@.pieces.len() && self@.pieces[piece as int].state
                    is Downloaded),
            },
    {
        if !self.has_piece(piece) {
            return None;
        }
        let psize = self.pieces[piece].size;
        let flen = mmap_len(&self.inner);
        proof {
            lemma_piece_bounds(self@.bytes.len() as int, piece as int);
        }
        let start = piece * PIECE_SIZE;
        let b = mmap_read(&self.inner, start, start + psize);
        proof {
            assert(b@ =~= window(self@.bytes, piece as int));
        }
        Some(b)
    }

    /// Recompute piece `piece`'s digest and compare it to the expected hash.
    /// On a well-formed store this succeeds exactly when the piece is
    /// downloaded: sealing already checked the digest, so the recomputation
    /// can never disagree.
    pub fn verify_piece(&self, piece: usize) -> (r: bool)
        requires
            self.wf(),
        ensures
            r == (piece < self@.pieces.len() && self@.pieces[piece as int].state is Downloaded),
    {
        match self.read_piece(piece) {
            Some(data) => {
                let digest = blake2s16(data.as_slice());
                hash16_eq(&digest, &self.pieces[piece].hash)
            },
            None => false,
        }
    }

    /// Write one chunk of an incomplete piece, exactly as
    /// `write_chunk_spec` describes, and report whether it was accepted.
    pub fn write_chunk(&mut self, piece_index: usize, chunk_index: usize, data: &[u8]) -> (r: bool)
        requires
            old(self).wf(),
        ensures
            final(self).wf(),
            final(self)@ == write_chunk_spec(
                old(self)@,
                piece_index as int,
                chunk_index as int,
                data@,
            ).0,
            r == write_chunk_spec(old(self)@, piece_index as int, chunk_index as int, data@).1,
    {
        let ghost pre = self@;
        let ghost spec_out = write_chunk_spec(pre, piece_index as int, chunk_index as int, data@);
        if piece_index >= self.pieces.len() {
            return false;
        }
        let psize = self.pieces[piece_index].size;
        let phash = self.pieces[piece_index].hash;
        let (total, acquired) = match &self.pieces[piece_index].state {
            PieceState::Downloaded => {
                return false;
            },
            PieceState::Incomplete(t, a) => (*t, copy_indices(a)),
        };
        let ghost acquired_view = pre.pieces[piece_index as int].state->Incomplete_acquired;
        proof {
            assert(acquired_view == acquired@.map_values(|c: usize| c as nat));
        }
        if chunk_index > total {
            return false;
        }
        let already = contains_index(&acquired, chunk_index);
        proof {
            lemma_nat_view_contains(acquired@, chunk_index);
        }
        if already {
            return true;
        }
        // The multiplication below stays far from overflow: the tally's
        // total is at most ceil(PIECE_SIZE / CHUNK_SIZE).
        proof {
            lemma_piece_bounds(pre.bytes.len() as int, piece_index as int);
            lemma_ceil_div(psize as int, CHUNK_SIZE as int);
            vstd::arithmetic::div_mod::lemma_div_is_ordered(
                psize as int + CHUNK_SIZE - 1,
                PIECE_SIZE as int + CHUNK_SIZE - 1,
                CHUNK_SIZE as int,
            );
        }
        assert(total <= 188);
        if chunk_index * CHUNK_SIZE >= psize {
            return false;
        }
        if data.len() > psize || chunk_index * CHUNK_SIZE > psize - data.len() {
            return false;
        }
        let flen = mmap_len(&self.inner);
        assert(piece_index * PIECE_SIZE + psize <= flen);
        let start = piece_index * PIECE_SIZE + chunk_index * CHUNK_SIZE;
        let ghost lo = start as int;
        let ghost hi = start as int + data@.len();
        mmap_write(&mut self.inner, start, data);
        let ghost bytes2 = mmap_bytes(self.inner);
        proof {
            assert(bytes2.len() == pre.bytes.len());
            assert(forall|k: int| 0 <= k < bytes2.len() && !(lo <= k < hi) ==> pre.bytes[k]
                == bytes2[k]);
            assert(forall|k: int| lo <= k < hi ==> bytes2[k] == data@[k - lo]);
        }
        let mut acq2 = acquired;
        acq2.push(chunk_index);
        let new_state = if acq2.len() == total {
            let _flushed = mmap_flush(&self.inner);
            let wstart = piece_index * PIECE_SIZE;
            let wbytes = mmap_read(&self.inner, wstart, wstart + psize);
            proof {
                assert(wbytes@ =~= window(bytes2, piece_index as int));
            }
            let digest = blake2s16(wbytes.as_slice());
            if hash16_eq(&digest, &phash) {
                PieceState::Downloaded
            } else {
                PieceState::Incomplete(total, Vec::new())
            }
        } else {
            PieceState::Incomplete(total, acq2)
        };
        self.pieces.set(piece_index, Piece { hash: phash, size: psize, state: new_state });
        proof {
            let piece = piece_index as int;
            let chunk = chunk_index as int;
            assert(acq2@.map_values(|c: usize| c as nat) =~= acquired_view.push(chunk as nat));
            match new_state@ {
                PieceStateView::Incomplete { total: t2, acquired: a2 } => {
                    if a2.len() == 0 {
                        assert(a2 =~= Seq::<nat>::empty());
                    }
                },
                _ => {},
            }
            assert(self@.pieces =~= spec_out.0.pieces);
            assert(self@ =~= spec_out.0);
            // Well-formedness is preserved: the write stayed inside piece
            // `piece`'s window, so every other window is untouched.
            assert forall|j: int|
                0 <= j < self@.pieces.len() && j != piece implies window(self@.bytes, j) == window(
                pre.bytes,
                j,
            ) by {
                lemma_piece_bounds(pre.bytes.len() as int, j);
                lemma_piece_bounds(pre.bytes.len() as int, piece);
                if j < piece {
                    assert((j + 1) * (PIECE_SIZE as int) <= piece * (PIECE_SIZE as int));
                } else {
                    assert((piece + 1) * (PIECE_SIZE as int) <= j * (PIECE_SIZE as int));
                }
                lemma_window_untouched(pre.bytes, self@.bytes, lo, hi, j);
            }
            assert(layout_wf(self@));
            assert forall|i: int| 0 <= i < self@.pieces.len() implies {
                &&& (#[trigger] self@.pieces[i]).hash.len() == 16
                &&& piece_state_wf(self@.pieces[i])
                &&& (self@.pieces[i].state is Downloaded ==> blake2s16_of(window(self@.bytes, i))
                    == self@.pieces[i].hash)
            } by {
                if i != piece {
                    assert(self@.pieces[i] == pre.pieces[i]);
                    assert(piece_state_wf(pre.pieces[i]));
                } else {
                    // The written chunk index lies below the total.
                    lemma_ceil_div(psize as int, CHUNK_SIZE as int);
                    lemma_below_ceil(psize as int, CHUNK_SIZE as int, chunk);
                    assert(chunk < total);
                }
            }
        }
        true
    }
}

/// How many pieces of a store are downloaded.
pub open spec fn downloaded_count(ps: Seq<PieceView>) -> int
    decreases ps.len(),
{
    if ps.len() == 0 {
        0
    } else {
        downloaded_count(ps.drop_last()) + if ps.last().state is Downloaded {
            1int
        } else {
            0int
        }
    }
}

/// Every piece is downloaded.
pub open spec fn file_complete(v: FileView) -> bool {
    forall|i: int| 0 <= i < v.pieces.len() ==> (#[trigger] v.pieces[i]).state is Downloaded
}

/// What a chunk write never touches: the store's length, every piece's hash
/// and size, and the state of every other piece.
pub proof fn lemma_write_chunk_frame(pre: FileView, piece: int, chunk: int, data: Seq<u8>)
    requires
        file_wf(pre),
        0 <= chunk,
    ensures
        ({
            let post = write_chunk_spec(pre, piece, chunk, data).0;
            &&& post.bytes.len() == pre.bytes.len()
            &&& post.pieces.len() == pre.pieces.len()
            &&& forall|i: int|
                0 <= i < pre.pieces.len() ==> (#[trigger] post.pieces[i]).hash
                    == pre.pieces[i].hash && post.pieces[i].size == pre.pieces[i].size
            &&& forall|i: int|
                0 <= i < pre.pieces.len() && i != piece ==> (#[trigger] post.pieces[i]).state
                    == pre.pieces[i].state
        }),
{
    let post = write_chunk_spec(pre, piece, chunk, data).0;
    if 0 <= piece < pre.pieces.len() {
        let p = pre.pieces[piece];
        match p.state {
            PieceStateView::Downloaded => {},
            PieceStateView::Incomplete { total, acquired } => {
                lemma_piece_bounds(pre.bytes.len() as int, piece);
                if !(chunk > total) && !acquired.contains(chunk as nat) && !(chunk * (
                CHUNK_SIZE as int) >= p.size || chunk * (CHUNK_SIZE as int) + data.len()
                    > p.size) {
                    let start = piece * (PIECE_SIZE as int) + chunk * (CHUNK_SIZE as int);
                    assert(0 <= start && start + data.len() <= pre.bytes.len());
                    assert(post.bytes.len() == pre.bytes.len());
                }
            },
        }
    }
}

/// Sealed pieces verify: on a well-formed store, the bytes of every
/// downloaded piece hash to the piece's expected digest.
pub proof fn lemma_downloaded_piece_matches(v: FileView, i: int)
    requires
        file_wf(v),
        0 <= i < v.pieces.len(),
        v.pieces[i].state is Downloaded,
    ensures
        blake2s16_of(window(v.bytes, i)) == v.pieces[i].hash,
{
}

/// Chunk accounting is sound: on a well-formed store, an incomplete piece's
/// acquired indices are duplicate-free and every one lies below the piece's
/// chunk total.
pub proof fn lemma_incomplete_accounting(v: FileView, i: int)
    requires
        file_wf(v),
        0 <= i < v.pieces.len(),
    ensures
        match v.pieces[i].state {
            PieceStateView::Incomplete { total, acquired } => {
                &&& no_dups(acquired)
                &&& forall|k: int| 0 <= k < acquired.len() ==> acquired[k] < total
                &&& total == num_chunks(v.pieces[i].size as int)
            },
            PieceStateView::Downloaded => true,
        },
{
    assert(piece_state_wf(v.pieces[i]));
}

/// A file whose length is not a multiple of `PIECE_SIZE` ends in a short
/// piece of exactly `length mod PIECE_SIZE` bytes, transmitted as
/// `ceil(size / CHUNK_SIZE)` chunks.
pub proof fn lemma_final_short_piece(v: FileView)
    requires
        file_wf(v),
        (v.bytes.len() as int) % (PIECE_SIZE as int) != 0,
    ensures
        v.pieces.len() > 0,
        v.pieces[v.pieces.len() - 1].size == (v.bytes.len() as int) % (PIECE_SIZE as int),
        num_chunks(v.pieces[v.pieces.len() - 1].size as int) == ceil_div(
            v.pieces[v.pieces.len() - 1].size as int,
            CHUNK_SIZE as int,
        ),
{
    let len = v.bytes.len() as int;
    let p = PIECE_SIZE as int;
    lemma_ceil_div(len, p);
    let n = num_pieces(len);
    assert(n > 0);
    lemma_piece_bounds(len, n - 1);
    assert((n - 1) * p + piece_len(len, n - 1) == len);
    assert(n - 1 == len / p && piece_len(len, n - 1) == len % p) by (nonlinear_arith)
        requires
            len >= 0,
            p >= 1,
            len % p != 0,
            n == (len + p - 1) / p,
            0 < piece_len(len, n - 1) <= p,
            (n - 1) * p + piece_len(len, n - 1) == len,
    {
    }
}

/// A chunk index beyond an incomplete piece's declared total is rejected
/// and changes nothing.
pub proof fn lemma_chunk_index_beyond_total_rejected(
    pre: FileView,
    piece: int,
    chunk: int,
    data: Seq<u8>,
)
    requires
        0 <= piece < pre.pieces.len(),
        match pre.pieces[piece].state {
            PieceStateView::Incomplete { total, acquired } => chunk > total,
            PieceStateView::Downloaded => false,
        },
    ensures
        write_chunk_spec(pre, piece, chunk, data) == (pre, false),
{
}

/// Writing the same chunk twice changes nothing the second time that the
/// first write did not already change: the mapped bytes, every piece's hash,
/// size, and sealed-or-not state all come out the same.
pub proof fn lemma_write_chunk_idempotent(v: FileView, piece: int, chunk: int, data: Seq<u8>)
    requires
        file_wf(v),
        0 <= piece,
        0 <= chunk,
    ensures
        ({
            let first = write_chunk_spec(v, piece, chunk, data);
            let second = write_chunk_spec(first.0, piece, chunk, data);
            &&& second.0.bytes == first.0.bytes
            &&& second.0.pieces.len() == first.0.pieces.len()
            &&& forall|i: int|
                0 <= i < first.0.pieces.len() ==> {
                    &&& ((#[trigger] second.0.pieces[i]).state is Downloaded
                        <==> first.0.pieces[i].state is Downloaded)
                    &&& second.0.pieces[i].hash == first.0.pieces[i].hash
                    &&& second.0.pieces[i].size == first.0.pieces[i].size
                }
        }),
{
    let first = write_chunk_spec(v, piece, chunk, data);
    let second = write_chunk_spec(first.0, piece, chunk, data);
    if first.0 == v {
        assert(second == write_chunk_spec(v, piece, chunk, data));
    } else {
        // The first call wrote the chunk.
        let p = v.pieces[piece];
        match p.state {
            PieceStateView::Downloaded => {},
            PieceStateView::Incomplete { total, acquired } => {
                lemma_piece_bounds(v.bytes.len() as int, piece);
                let start = piece * (PIECE_SIZE as int) + chunk * (CHUNK_SIZE as int);
                let bytes2 = v.bytes.subrange(0, start) + data + v.bytes.subrange(
                    start + data.len(),
                    v.bytes.len() as int,
                );
                let p2 = first.0.pieces[piece];
                assert(p2.size == p.size && p2.hash == p.hash);
                match p2.state {
                    PieceStateView::Downloaded => {},
                    PieceStateView::Incomplete { total: t2, acquired: a2 } => {
                        if a2.contains(chunk as nat) {
                        } else {
                            // Whenever the tally was kept, it holds the
                            // written chunk; so the tally must have been
                            // cleared: the first call sealed and failed.
                            let acq2 = acquired.push(chunk as nat);
                            assert(acq2[acquired.len() as int] == chunk as nat);
                            assert(acq2.contains(chunk as nat));
                            assert(acq2.len() == total);
                            assert(t2 == total && a2 =~= Seq::<nat>::empty());
                            assert(blake2s16_of(window(bytes2, piece)) != p.hash);
                            assert(first.0.bytes == bytes2);
                            // The second call rewrites the same bytes in
                            // place.
                            let bytes3 = bytes2.subrange(0, start) + data + bytes2.subrange(
                                start + data.len(),
                                bytes2.len() as int,
                            );
                            assert(bytes3 =~= bytes2);
                            assert(second.0.bytes == bytes3);
                            assert(window(bytes3, piece) == window(bytes2, piece));
                            assert(second.0.bytes == first.0.bytes);
                            assert forall|i: int|
                                0 <= i < first.0.pieces.len() implies {
                                &&& ((#[trigger] second.0.pieces[i]).state is Downloaded
                                    <==> first.0.pieces[i].state is Downloaded)
                                &&& second.0.pieces[i].hash == first.0.pieces[i].hash
                                &&& second.0.pieces[i].size == first.0.pieces[i].size
                            } by {
                                if i != piece {
                                    assert(second.0.pieces[i] == first.0.pieces[i]);
                                }
                            }
                        }
                    },
                }
            },
        }
    }
}

} // verus!
