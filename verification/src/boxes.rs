//! Boxes: an ordered collection of mapped files plus the metadata that
//! identifies them.
//!
//! A box is created over a set of files (each already mapped), taken in
//! lexicographic byte order of their paths; its identity is a 24-byte digest
//! over every file's digest followed by the encoded metadata.  A receiver
//! materializes a box from metadata it trusts, re-using bytes already on
//! disk where their digests match.

use crate::codec::{enc_meta, encode_metadata};
use crate::file::{
    FileView, MappedFile, PieceStateView, file_complete, file_wf, lemma_write_chunk_frame,
    num_chunks, num_pieces, piece_len, window, write_chunk_spec,
};
use crate::hash::{blake2s16_of, blake2s24, blake2s24_of};
use crate::mmap::mmap_bytes;
use crate::types::{BoxState, CardboardMetadata, FileMetadata, FileState, MetaView};
use crate::NyahError;
use vstd::multiset::Multiset;
use vstd::prelude::*;

verus! {

/// Lexicographic byte order: `a` comes no later than `b`.
pub open spec fn bytes_le(a: Seq<u8>, b: Seq<u8>) -> bool
    decreases a.len(),
{
    if a.len() == 0 {
        true
    } else if b.len() == 0 {
        false
    } else if a[0] < b[0] {
        true
    } else if a[0] > b[0] {
        false
    } else {
        bytes_le(a.drop_first(), b.drop_first())
    }
}

/// The byte order is total.
pub proof fn lemma_bytes_le_total(a: Seq<u8>, b: Seq<u8>)
    ensures
        bytes_le(a, b) || bytes_le(b, a),
    decreases a.len(),
{
    if a.len() > 0 && b.len() > 0 && a[0] == b[0] {
        lemma_bytes_le_total(a.drop_first(), b.drop_first());
    }
}

/// The byte order is transitive.
pub proof fn lemma_bytes_le_trans(a: Seq<u8>, b: Seq<u8>, c: Seq<u8>)
    requires
        bytes_le(a, b),
        bytes_le(b, c),
    ensures
        bytes_le(a, c),
    decreases a.len(),
{
    if a.len() > 0 && b.len() > 0 && c.len() > 0 && a[0] == b[0] && b[0] == c[0] {
        lemma_bytes_le_trans(a.drop_first(), b.drop_first(), c.drop_first());
    }
}

/// Compare two byte strings in lexicographic order.
#[verifier::loop_isolation(false)]
pub fn bytes_le_exec(a: &Vec<u8>, b: &Vec<u8>) -> (r: bool)
    ensures
        r == bytes_le(a@, b@),
{
    let mut i: usize = 0;
    proof {
        assert(a@.skip(0) =~= a@);
        assert(b@.skip(0) =~= b@);
    }
    while i < a.len() && i < b.len()
        invariant
            i <= a@.len(),
            i <= b@.len(),
            bytes_le(a@, b@) == bytes_le(a@.skip(i as int), b@.skip(i as int)),
        decreases a@.len() - i,
    {
        let x = a[i];
        let y = b[i];
        if x < y {
            assert(bytes_le(a@.skip(i as int), b@.skip(i as int)));
            return true;
        }
        if x > y {
            assert(!bytes_le(a@.skip(i as int), b@.skip(i as int)));
            return false;
        }
        proof {
            assert(a@.skip(i as int).drop_first() =~= a@.skip(i + 1));
            assert(b@.skip(i as int).drop_first() =~= b@.skip(i + 1));
        }
        i += 1;
    }
    let r = a.len() <= b.len();
    proof {
        if a@.len() <= b@.len() {
            assert(a@.skip(i as int).len() == 0);
            assert(bytes_le(a@.skip(i as int), b@.skip(i as int)));
        } else {
            assert(a@.skip(i as int).len() > 0);
            assert(b@.skip(i as int).len() == 0);
            assert(!bytes_le(a@.skip(i as int), b@.skip(i as int)));
        }
    }
    r
}

/// One file offered for box creation: its path relative to the box root and
/// its mapped bytes.
pub struct BoxSource {
    pub path: Vec<u8>,
    pub map: memmap2::MmapMut,
}

/// The path-and-contents pair a source stands for.
pub open spec fn source_key(s: BoxSource) -> (Seq<u8>, Seq<u8>) {
    (s.path@, mmap_bytes(s.map))
}

/// Sort sources by lexicographic byte order of their paths.  The result
/// holds exactly the given path-and-contents pairs.
#[verifier::loop_isolation(false)]
pub fn sort_sources(input: Vec<BoxSource>) -> (out: Vec<BoxSource>)
    ensures
        out@.len() == input@.len(),
        forall|k1: int, k2: int|
            0 <= k1 < k2 < out@.len() ==> bytes_le(out@[k1].path@, out@[k2].path@),
        out@.map_values(|s: BoxSource| source_key(s)).to_multiset() == input@.map_values(
            |s: BoxSource| source_key(s),
        ).to_multiset(),
{
    broadcast use vstd::seq_lib::group_seq_properties;

    let mut src = input;
    let mut out: Vec<BoxSource> = Vec::new();
    while src.len() > 0
        invariant
            out@.map_values(|s: BoxSource| source_key(s)).to_multiset().add(
                src@.map_values(|s: BoxSource| source_key(s)).to_multiset(),
            ) =~= input@.map_values(|s: BoxSource| source_key(s)).to_multiset(),
            out@.len() + src@.len() == input@.len(),
            forall|k1: int, k2: int|
                0 <= k1 < k2 < out@.len() ==> bytes_le(out@[k1].path@, out@[k2].path@),
            forall|k: int, j: int|
                0 <= k < out@.len() && 0 <= j < src@.len() ==> bytes_le(
                    out@[k].path@,
                    src@[j].path@,
                ),
        decreases src@.len(),
    {
        let mut min_i: usize = 0;
        let mut j: usize = 1;
        proof {
            lemma_bytes_le_total(src@[0].path@, src@[0].path@);
        }
        while j < src.len()
            invariant
                min_i < j <= src@.len(),
                forall|k: int| 0 <= k < j ==> bytes_le(src@[min_i as int].path@, src@[k].path@),
            decreases src@.len() - j,
        {
            if bytes_le_exec(&src[j].path, &src[min_i].path) {
                proof {
                    assert forall|k: int| 0 <= k < j + 1 implies bytes_le(
                        src@[j as int].path@,
                        src@[k].path@,
                    ) by {
                        if k < j {
                            lemma_bytes_le_trans(src@[j as int].path@, src@[min_i as int].path@, src@[k].path@);
                        } else {
                            lemma_bytes_le_total(src@[j as int].path@, src@[j as int].path@);
                        }
                    }
                }
                min_i = j;
            } else {
                proof {
                    lemma_bytes_le_total(src@[j as int].path@, src@[min_i as int].path@);
                }
            }
            j += 1;
        }
        let ghost src_pre = src@;
        let ghost out_pre = out@;
        let x = src.remove(min_i);
        let ghost xk = source_key(x);
        out.push(x);
        proof {
            let m = |s: BoxSource| source_key(s);
            assert(src_pre.map_values(m).remove(min_i as int) =~= src@.map_values(m));
            src_pre.map_values(m).to_multiset_ensures();
            assert(src_pre.map_values(m)[min_i as int] == xk);
            assert(src@.map_values(m).to_multiset() =~= src_pre.map_values(m).to_multiset().remove(
                xk,
            ));
            assert(out@.map_values(m) =~= out_pre.map_values(m).push(xk));
            out_pre.map_values(m).to_multiset_ensures();
            assert(out@.map_values(m).to_multiset() =~= out_pre.map_values(m).to_multiset().insert(
                xk,
            ));
            assert(out@.map_values(m).to_multiset().add(src@.map_values(m).to_multiset())
                =~= input@.map_values(m).to_multiset());
            assert(forall|j2: int|
                0 <= j2 < src@.len() ==> src@[j2] == src_pre[if j2 < min_i {
                    j2
                } else {
                    j2 + 1
                }]);
        }
    }
    proof {
        assert(src@.map_values(|s: BoxSource| source_key(s)).to_multiset() =~= Multiset::<(
            Seq<u8>,
            Seq<u8>,
        )>::empty());
        assert(out@.map_values(|s: BoxSource| source_key(s)).to_multiset().add(
            Multiset::<(Seq<u8>, Seq<u8>)>::empty(),
        ) =~= out@.map_values(|s: BoxSource| source_key(s)).to_multiset());
    }
    out
}

/// The digests of a run of files, one 24-byte digest per file, in order.
pub open spec fn file_hashes_concat(files: Seq<FileView>) -> Seq<u8>
    decreases files.len(),
{
    if files.len() == 0 {
        Seq::empty()
    } else {
        blake2s24_of(files[0].bytes) + file_hashes_concat(files.drop_first())
    }
}

/// Extending a run of files appends one digest.
proof fn lemma_file_hashes_concat_snoc(files: Seq<FileView>, x: FileView)
    ensures
        file_hashes_concat(files.push(x)) == file_hashes_concat(files) + blake2s24_of(x.bytes),
    decreases files.len(),
{
    if files.len() == 0 {
        let one = files.push(x);
        assert(one.drop_first() =~= Seq::<FileView>::empty());
        assert(one[0] == x);
        assert(file_hashes_concat(one.drop_first()) =~= Seq::<u8>::empty());
        assert(file_hashes_concat(one) =~= blake2s24_of(x.bytes));
        assert(file_hashes_concat(files) =~= Seq::<u8>::empty());
        assert(file_hashes_concat(files) + blake2s24_of(x.bytes) =~= blake2s24_of(x.bytes));
    } else {
        assert(files.push(x).drop_first() =~= files.drop_first().push(x));
        lemma_file_hashes_concat_snoc(files.drop_first(), x);
        assert(file_hashes_concat(files.push(x)) =~= file_hashes_concat(files) + blake2s24_of(
            x.bytes,
        ));
    }
}

/// What a box's identity is derived from: every file's digest in order,
/// followed by the encoded metadata.
pub open spec fn box_hash_input(files: Seq<FileView>, metadata: MetaView) -> Seq<u8> {
    file_hashes_concat(files) + enc_meta(metadata)
}

/// An immutable, content-addressed bundle of files plus a name.
pub struct CardboardBox {
    hash: [u8; 24],
    metadata: CardboardMetadata,
    base_path: Vec<u8>,
    files: Vec<MappedFile>,
}

/// Mathematical image of a `CardboardBox`.
#[verifier::ext_equal]
pub ghost struct BoxView {
    pub hash: Seq<u8>,
    pub metadata: MetaView,
    pub base_path: Seq<u8>,
    pub files: Seq<FileView>,
}

impl View for CardboardBox {
    type V = BoxView;

    closed spec fn view(&self) -> BoxView {
        BoxView {
            hash: self.hash@,
            metadata: self.metadata@,
            base_path: self.base_path@,
            files: self.files@.map_values(|f: MappedFile| f@),
        }
    }
}

/// The metadata describes the files exactly: one entry per file, with the
/// file's length and its expected piece digests; and every file store is
/// well-formed.
pub open spec fn box_wf(v: BoxView) -> bool {
    &&& v.hash.len() == 24
    &&& v.files.len() == v.metadata.files.len()
    &&& forall|i: int| 0 <= i < v.files.len() ==> file_wf(#[trigger] v.files[i])
    &&& forall|i: int|
        0 <= i < v.files.len() ==> (#[trigger] v.metadata.files[i]).size == v.files[i].bytes.len()
    &&& forall|i: int|
        0 <= i < v.files.len() ==> (#[trigger] v.metadata.files[i]).pieces.len()
            == v.files[i].pieces.len()
    &&& forall|i: int, j: int|
        0 <= i < v.files.len() && 0 <= j < v.files[i].pieces.len()
            ==> (#[trigger] v.metadata.files[i].pieces[j]) == v.files[i].pieces[j].hash
}

/// One file offered for materialization: its mapped bytes and whether the
/// file already existed on disk (and so may hold valid pieces).
pub struct FileSource {
    pub map: memmap2::MmapMut,
    pub existed: bool,
}

/// The sources fit the metadata: one per file, each mapped to the declared
/// length, with the declared number of piece hashes.
pub open spec fn sources_match(metadata: MetaView, sources: Seq<FileSource>) -> bool {
    &&& sources.len() == metadata.files.len()
    &&& forall|i: int|
        0 <= i < sources.len() ==> mmap_bytes((#[trigger] sources[i]).map).len()
            == metadata.files[i].size
    &&& forall|i: int|
        0 <= i < sources.len() ==> (#[trigger] metadata.files[i]).pieces.len() == num_pieces(
            metadata.files[i].size as int,
        )
}

impl CardboardBox {
    /// Well-formedness of this box.
    pub open spec fn wf(&self) -> bool {
        box_wf(self@)
    }

    /// The box's identity.
    pub fn box_hash(&self) -> (h: [u8; 24])
        ensures
            h@ == self@.hash,
    {
        self.hash
    }

    /// The box's metadata.
    pub fn metadata(&self) -> (m: &CardboardMetadata)
        ensures
            m@ == self@.metadata,
    {
        &self.metadata
    }

    /// How many files the box holds.
    pub fn file_count(&self) -> (n: usize)
        ensures
            n == self@.files.len(),
    {
        self.files.len()
    }

    /// How many pieces file `f` has.
    pub fn file_piece_count(&self, f: usize) -> (n: usize)
        requires
            f < self@.files.len(),
        ensures
            n == self@.files[f as int].pieces.len(),
    {
        proof {
            assert(self@.files[f as int] == self.files@[f as int]@);
        }
        self.files[f].piece_count()
    }

    /// True iff file `f` exists and its piece `p` is downloaded.
    pub fn has_file_piece(&self, f: usize, p: usize) -> (r: bool)
        ensures
            r == (f < self@.files.len() && p < self@.files[f as int].pieces.len()
                && self@.files[f as int].pieces[p as int].state is Downloaded),
    {
        if f >= self.files.len() {
            return false;
        }
        self.files[f].has_piece(p)
    }

    /// A copy of the bytes of file `f`'s piece `p`, iff it is downloaded.
    pub fn read_file_piece(&self, f: usize, p: usize) -> (r: Option<Vec<u8>>)
        requires
            self.wf(),
        ensures
            match r {
                Some(b) => {
                    &&& f < self@.files.len()
                    &&& p < self@.files[f as int].pieces.len()
                    &&& self@.files[f as int].pieces[p as int].state is Downloaded
                    &&& b@ == window(self@.files[f as int].bytes, p as int)
                },
                None => !(f < self@.files.len() && p < self@.files[f as int].pieces.len()
                    && self@.files[f as int].pieces[p as int].state is Downloaded),
            },
    {
        if f >= self.files.len() {
            return None;
        }
        proof {
            assert(self@.files[f as int] == self.files@[f as int]@);
        }
        self.files[f].read_piece(p)
    }

    /// Write one chunk into file `f`, exactly as `write_chunk_spec`
    /// describes; every other file and the metadata stay untouched.
    pub fn write_file_chunk(&mut self, f: usize, p: usize, c: usize, data: &[u8]) -> (r: bool)
        requires
            old(self).wf(),
            f < old(self)@.files.len(),
        ensures
            final(self).wf(),
            final(self)@.hash == old(self)@.hash,
            final(self)@.metadata == old(self)@.metadata,
            final(self)@.base_path == old(self)@.base_path,
            final(self)@.files == old(self)@.files.update(
                f as int,
                write_chunk_spec(old(self)@.files[f as int], p as int, c as int, data@).0,
            ),
            r == write_chunk_spec(old(self)@.files[f as int], p as int, c as int, data@).1,
    {
        let ghost pre = self@;
        let mut mf = self.files.remove(f);
        proof {
            assert(pre.files[f as int] == mf@);
        }
        let r = mf.write_chunk(p, c, data);
        let ghost post_file = mf@;
        self.files.insert(f, mf);
        proof {
            assert(self.files@ =~= old(self).files@.update(f as int, mf));
            assert(self@.files =~= pre.files.update(f as int, post_file));
            lemma_write_chunk_frame(pre.files[f as int], p as int, c as int, data@);
            assert(box_wf(self@));
        }
        r
    }

    /// Seeder-side creation over a set of mapped files.  The sources are
    /// taken in lexicographic byte order of their paths; every piece enters
    /// downloaded; the box hash is the 24-byte digest of every file's digest
    /// followed by the encoded metadata.
    #[verifier::loop_isolation(false)]
    pub fn create(name: Vec<u8>, base_path: Vec<u8>, entries: Vec<BoxSource>) -> (r: CardboardBox)
        ensures
            r.wf(),
            r@.metadata.name == name@,
            r@.base_path == base_path@,
            r@.files.len() == entries@.len(),
            forall|i: int, j: int|
                0 <= i < r@.files.len() && 0 <= j < r@.files[i].pieces.len()
                    ==> (#[trigger] r@.files[i].pieces[j]).state is Downloaded,
            forall|k1: int, k2: int|
                0 <= k1 < k2 < r@.metadata.files.len() ==> bytes_le(
                    r@.metadata.files[k1].path,
                    r@.metadata.files[k2].path,
                ),
            Seq::new(r@.files.len(), |i: int| (r@.metadata.files[i].path, r@.files[i].bytes)).to_multiset()
                == entries@.map_values(|s: BoxSource| source_key(s)).to_multiset(),
            r@.hash == blake2s24_of(box_hash_input(r@.files, r@.metadata)),
    {
        broadcast use vstd::seq_lib::group_seq_properties;

        let sorted = sort_sources(entries);
        let ghost all = sorted@;
        let mut rest = sorted;
        let mut files: Vec<MappedFile> = Vec::new();
        let mut fmeta: Vec<FileMetadata> = Vec::new();
        let mut hash_input: Vec<u8> = Vec::new();
        while rest.len() > 0
            invariant
                rest@ =~= all.skip(files@.len() as int),
                files@.len() + rest@.len() == all.len(),
                fmeta@.len() == files@.len(),
                hash_input@ == file_hashes_concat(files@.map_values(|mf: MappedFile| mf@)),
                forall|i: int|
                    0 <= i < files@.len() ==> {
                        &&& file_wf((#[trigger] files@[i])@)
                        &&& files@[i]@.bytes == mmap_bytes(all[i].map)
                        &&& forall|j: int|
                            0 <= j < files@[i]@.pieces.len()
                                ==> (#[trigger] files@[i]@.pieces[j]).state is Downloaded
                    },
                forall|i: int|
                    0 <= i < fmeta@.len() ==> {
                        &&& (#[trigger] fmeta@[i])@.path == all[i].path@
                        &&& fmeta@[i]@.size == files@[i]@.bytes.len()
                        &&& fmeta@[i]@.pieces.len() == files@[i]@.pieces.len()
                        &&& forall|j: int|
                            0 <= j < fmeta@[i]@.pieces.len() ==> (#[trigger] fmeta@[i]@.pieces[j])
                                == files@[i]@.pieces[j].hash
                    },
            decreases rest@.len(),
        {
            let ghost k = files@.len() as int;
            let e = rest.remove(0);
            proof {
                assert(e == all[k]);
                assert(rest@ =~= all.skip(k + 1));
            }
            let (fh, mf) = MappedFile::from_whole_file(e.map);
            push_hash_bytes(&mut hash_input, &fh);
            let size = mf.file_size();
            let hashes = mf.piece_hashes();
            let ghost files_pre = files@;
            fmeta.push(FileMetadata { path: e.path, size, pieces: hashes });
            files.push(mf);
            proof {
                assert(files@.map_values(|mf2: MappedFile| mf2@) =~= files_pre.map_values(
                    |mf2: MappedFile| mf2@,
                ).push(mf@));
                lemma_file_hashes_concat_snoc(files_pre.map_values(|mf2: MappedFile| mf2@), mf@);
                let newf = fmeta@[k];
                assert(newf@.pieces =~= hashes@.map_values(|h: [u8; 16]| h@));
            }
        }
        proof {
            assert(files@.len() == all.len());
        }
        let metadata = CardboardMetadata { name, files: fmeta };
        let meta_bytes = encode_metadata(&metadata);
        crate::codec::push_bytes(&mut hash_input, meta_bytes.as_slice());
        let hash = blake2s24(hash_input.as_slice());
        let bx = CardboardBox { hash, metadata, base_path, files };
        proof {
            assert(bx@.files =~= files@.map_values(|mf: MappedFile| mf@));
            assert(bx@.metadata.files =~= fmeta@.map_values(|f: FileMetadata| f@));
            assert(hash_input@ == box_hash_input(bx@.files, bx@.metadata));
            assert(box_wf(bx@));
            assert(Seq::new(bx@.files.len(), |i: int| (bx@.metadata.files[i].path, bx@.files[i].bytes))
                =~= all.map_values(|s: BoxSource| source_key(s)));
        }
        bx
    }

    /// Receiver-side materialization from trusted metadata.  Each source is
    /// opened with per-piece verification when its file already existed and
    /// empty otherwise; the requested hash is installed as the box's
    /// identity without re-derivation.  Fails iff the sources do not fit the
    /// metadata.
    #[verifier::loop_isolation(false)]
    pub fn from_metadata(
        dir: Vec<u8>,
        hash: [u8; 24],
        metadata: CardboardMetadata,
        sources: Vec<FileSource>,
    ) -> (r: Result<CardboardBox, NyahError>)
        ensures
            match r {
                Ok(bx) => {
                    &&& sources_match(metadata@, sources@)
                    &&& bx.wf()
                    &&& bx@.hash == hash@
                    &&& bx@.metadata == metadata@
                    &&& bx@.base_path == dir@
                    &&& bx@.files.len() == sources@.len()
                    &&& forall|i: int|
                        0 <= i < sources@.len() ==> (#[trigger] bx@.files[i]).bytes == mmap_bytes(
                            sources@[i].map,
                        )
                    &&& forall|i: int, j: int|
                        0 <= i < sources@.len() && 0 <= j < bx@.files[i].pieces.len()
                            && sources@[i].existed ==> ((#[trigger] bx@.files[i].pieces[j]).state
                            is Downloaded <==> blake2s16_of(window(bx@.files[i].bytes, j))
                            == metadata@.files[i].pieces[j])
                    &&& forall|i: int, j: int|
                        0 <= i < sources@.len() && 0 <= j < bx@.files[i].pieces.len()
                            && !sources@[i].existed ==> (#[trigger] bx@.files[i].pieces[j]).state
                            == (PieceStateView::Incomplete {
                            total: num_chunks(
                                piece_len(bx@.files[i].bytes.len() as int, j),
                            ) as nat,
                            acquired: Seq::<nat>::empty(),
                        })
                },
                Err(e) => e == NyahError::InvalidInput && !sources_match(metadata@, sources@),
            },
    {
        broadcast use vstd::seq_lib::group_seq_properties;

        if sources.len() != metadata.files.len() {
            return Err(NyahError::InvalidInput);
        }
        let ghost all = sources@;
        let mut rest = sources;
        let mut files: Vec<MappedFile> = Vec::new();
        while rest.len() > 0
            invariant
                metadata@.files.len() == all.len(),
                metadata@.files == metadata.files@.map_values(|f: FileMetadata| f@),
                rest@ =~= all.skip(files@.len() as int),
                files@.len() + rest@.len() == all.len(),
                forall|i: int|
                    0 <= i < files@.len() ==> {
                        &&& file_wf((#[trigger] files@[i])@)
                        &&& files@[i]@.bytes == mmap_bytes(all[i].map)
                        &&& files@[i]@.bytes.len() == metadata@.files[i].size
                        &&& files@[i]@.pieces.len() == metadata@.files[i].pieces.len()
                        &&& metadata@.files[i].pieces.len() == num_pieces(
                            metadata@.files[i].size as int,
                        )
                        &&& forall|j: int|
                            0 <= j < files@[i]@.pieces.len()
                                ==> (#[trigger] files@[i]@.pieces[j]).hash
                                == metadata@.files[i].pieces[j]
                        &&& (all[i].existed ==> forall|j: int|
                            0 <= j < files@[i]@.pieces.len()
                                ==> ((#[trigger] files@[i]@.pieces[j]).state is Downloaded
                                <==> blake2s16_of(window(files@[i]@.bytes, j))
                                == metadata@.files[i].pieces[j]))
                        &&& (!all[i].existed ==> forall|j: int|
                            0 <= j < files@[i]@.pieces.len()
                                ==> (#[trigger] files@[i]@.pieces[j]).state
                                == (PieceStateView::Incomplete {
                                total: num_chunks(
                                    piece_len(files@[i]@.bytes.len() as int, j),
                                ) as nat,
                                acquired: Seq::<nat>::empty(),
                            }))
                    },
            decreases rest@.len(),
        {
            let ghost k = files@.len() as int;
            let e = rest.remove(0);
            proof {
                assert(e == all[k]);
                assert(rest@ =~= all.skip(k + 1));
            }
            let declared = metadata.files[files.len()].size;
            if crate::mmap::mmap_len(&e.map) != declared {
                return Err(NyahError::InvalidInput);
            }
            let expected = &metadata.files[files.len()].pieces;
            let ghost fmk = metadata@.files[k];
            proof {
                assert(fmk == metadata.files@[k]@);
                assert(expected@.map_values(|h: [u8; 16]| h@) =~= fmk.pieces);
            }
            let built = if e.existed {
                MappedFile::from_file_verified(e.map, expected)
            } else {
                MappedFile::from_file_empty(e.map, expected)
            };
            match built {
                Ok(mf) => {
                    files.push(mf);
                },
                Err(_) => {
                    return Err(NyahError::InvalidInput);
                },
            }
        }
        let bx = CardboardBox { hash, metadata, base_path: dir, files };
        proof {
            assert(bx@.files =~= files@.map_values(|mf: MappedFile| mf@));
            assert(box_wf(bx@));
        }
        Ok(bx)
    }

    /// The pieces still missing, as `(file_index, piece_indices)` pairs in
    /// increasing file order, omitting complete files.
    pub fn needed_pieces(&self) -> (r: Vec<(usize, Vec<usize>)>)
        ensures
            forall|k1: int, k2: int| 0 <= k1 < k2 < r@.len() ==> r@[k1].0 < r@[k2].0,
            forall|k: int|
                0 <= k < r@.len() ==> {
                    &&& (#[trigger] r@[k]).0 < self@.files.len()
                    &&& !file_complete(self@.files[r@[k].0 as int])
                    &&& forall|x1: int, x2: int|
                        0 <= x1 < x2 < r@[k].1@.len() ==> r@[k].1@[x1] < r@[k].1@[x2]
                    &&& forall|p: usize| #[trigger]
                        r@[k].1@.contains(p) <==> (p < self@.files[r@[k].0 as int].pieces.len()
                            && !(self@.files[r@[k].0 as int].pieces[p as int].state
                            is Downloaded))
                },
            forall|i: usize|
                i < self@.files.len() && !file_complete(#[trigger] self@.files[i as int])
                    ==> exists|k: int| 0 <= k < r@.len() && r@[k].0 == i,
    {
        let n = self.files.len();
        let mut r: Vec<(usize, Vec<usize>)> = Vec::new();
        let mut i: usize = 0;
        while i < n
            invariant
                i <= n,
                n == self@.files.len(),
                self@.files.len() == self.files@.len(),
                forall|j: int|
                    0 <= j < self.files@.len() ==> self@.files[j] == (#[trigger] self.files@[j])@,
                forall|k1: int, k2: int| 0 <= k1 < k2 < r@.len() ==> r@[k1].0 < r@[k2].0,
                forall|k: int| 0 <= k < r@.len() ==> (#[trigger] r@[k]).0 < i,
                forall|k: int|
                    0 <= k < r@.len() ==> {
                        &&& (#[trigger] r@[k]).0 < self@.files.len()
                        &&& !file_complete(self@.files[r@[k].0 as int])
                        &&& forall|x1: int, x2: int|
                            0 <= x1 < x2 < r@[k].1@.len() ==> r@[k].1@[x1] < r@[k].1@[x2]
                        &&& forall|p: usize| #[trigger]
                            r@[k].1@.contains(p) <==> (p < self@.files[r@[k].0 as int].pieces.len()
                                && !(self@.files[r@[k].0 as int].pieces[p as int].state
                                is Downloaded))
                    },
                forall|fi: usize|
                    fi < i && !file_complete(#[trigger] self@.files[fi as int]) ==> exists|k: int|
                        0 <= k < r@.len() && r@[k].0 == fi,
            decreases n - i,
        {
            let total = self.files[i].piece_count();
            let needed = self.files[i].needed_pieces();
            let ghost r_pre = r@;
            if needed.len() > 0 {
                proof {
                    assert(needed@.contains(needed@[0]));
                    assert(!file_complete(self@.files[i as int]));
                }
                r.push((i, needed));
                proof {
                    assert(forall|k: int| 0 <= k < r_pre.len() ==> r@[k] == r_pre[k]);
                    assert(r@[r@.len() - 1].0 == i);
                }
            } else {
                proof {
                    assert forall|p: int|
                        0 <= p < self@.files[i as int].pieces.len() implies (#[trigger] self@.files[i as int].pieces[p]).state
                        is Downloaded by {
                        assert(self@.files[i as int].pieces.len() == total);
                        let pu = p as usize;
                        assert(pu == p);
                        assert(!needed@.contains(pu));
                    }
                }
            }
            i += 1;
        }
        r
    }

    /// Per-file download progress.
    pub fn get_download_state(&self) -> (r: BoxState)
        requires
            self.wf(),
        ensures
            r.name@ == self@.metadata.name,
            r.box_hash@ == self@.hash,
            r.files@.len() == self@.files.len(),
            forall|i: int|
                0 <= i < r.files@.len() ==> {
                    &&& (#[trigger] r.files@[i]).path@ == self@.metadata.files[i].path
                    &&& r.files@[i].total_pieces == self@.files[i].pieces.len()
                    &&& r.files@[i].pieces_downloaded == crate::file::downloaded_count(
                        self@.files[i].pieces,
                    )
                },
    {
        let mut fs: Vec<FileState> = Vec::new();
        let mut i: usize = 0;
        while i < self.files.len()
            invariant
                i <= self.files@.len(),
                self@.files.len() == self.files@.len(),
                self@.metadata.files.len() == self.metadata.files@.len(),
                self.files@.len() == self.metadata.files@.len(),
                forall|j: int|
                    0 <= j < self.files@.len() ==> self@.files[j] == (#[trigger] self.files@[j])@,
                forall|j: int|
                    0 <= j < self.metadata.files@.len() ==> self@.metadata.files[j]
                        == (#[trigger] self.metadata.files@[j])@,
                fs@.len() == i,
                forall|j: int|
                    0 <= j < i ==> {
                        &&& (#[trigger] fs@[j]).path@ == self@.metadata.files[j].path
                        &&& fs@[j].total_pieces == self@.files[j].pieces.len()
                        &&& fs@[j].pieces_downloaded == crate::file::downloaded_count(
                            self@.files[j].pieces,
                        )
                    },
            decreases self.files@.len() - i,
        {
            let downloaded = self.files[i].count_downloaded();
            let total = self.files[i].piece_count();
            let path = crate::types::clone_bytes(&self.metadata.files[i].path);
            fs.push(FileState { path, pieces_downloaded: downloaded, total_pieces: total });
            i += 1;
        }
        BoxState {
            name: crate::types::clone_bytes(&self.metadata.name),
            box_hash: self.hash,
            files: fs,
        }
    }
}

/// Append a 24-byte digest to a buffer.
fn push_hash_bytes(out: &mut Vec<u8>, h: &[u8; 24])
    ensures
        final(out)@ == old(out)@ + h@,
{
    crate::codec::push_bytes(out, h.as_slice());
}

} // verus!
