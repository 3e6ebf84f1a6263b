use blake2::Digest;
use nyah::file::MappedFile;
use nyah::{CHUNK_SIZE, NyahError, PIECE_SIZE};

fn anon_map(data: &[u8]) -> memmap2::MmapMut {
    let mut m = memmap2::MmapOptions::new().len(data.len()).map_anon().expect("map");
    m[..].copy_from_slice(data);
    m
}

fn blank_map(len: usize) -> memmap2::MmapMut {
    memmap2::MmapOptions::new().len(len).map_anon().expect("map")
}

fn bytes_0_to_99() -> Vec<u8> {
    (0u8..100).collect()
}

#[test]
fn whole_file_has_one_short_piece() {
    let data = bytes_0_to_99();
    let (_, mf) = MappedFile::from_whole_file(anon_map(&data));
    assert_eq!(mf.piece_count(), 1);
    assert_eq!(mf.file_size(), 100);
    assert!(mf.has_piece(0));
    assert!(!mf.has_piece(1));
    assert!(mf.verify_piece(0));
    assert_eq!(mf.read_piece(0).expect("piece"), data);
    assert!(mf.needed_pieces().is_empty());
}

#[test]
fn file_hash_is_the_blake2s_digest_of_the_bytes() {
    let data = bytes_0_to_99();
    let (file_hash, mf) = MappedFile::from_whole_file(anon_map(&data));
    let expected: [u8; 24] =
        blake2::Blake2s::<blake2::digest::consts::U24>::digest(&data).into();
    assert_eq!(file_hash, expected);
    let expected_piece: [u8; 16] =
        blake2::Blake2s::<blake2::digest::consts::U16>::digest(&data).into();
    assert_eq!(mf.piece_hashes(), vec![expected_piece]);
}

#[test]
fn file_hash_is_stable_across_runs() {
    let data = bytes_0_to_99();
    let (h1, _) = MappedFile::from_whole_file(anon_map(&data));
    let (h2, _) = MappedFile::from_whole_file(anon_map(&data));
    assert_eq!(h1, h2);
    let mut other = data.clone();
    other[50] ^= 1;
    let (h3, _) = MappedFile::from_whole_file(anon_map(&other));
    assert_ne!(h1, h3);
}

#[test]
fn long_file_splits_with_final_short_piece() {
    // PIECE_SIZE + 100 bytes: one full piece and one of 100 bytes.
    let data = vec![0xAAu8; PIECE_SIZE + 100];
    let (_, mf) = MappedFile::from_whole_file(anon_map(&data));
    assert_eq!(mf.piece_count(), 2);
    assert_eq!(mf.read_piece(0).expect("p0").len(), PIECE_SIZE);
    assert_eq!(mf.read_piece(1).expect("p1").len(), 100);
}

#[test]
fn empty_constructor_rejects_wrong_hash_count() {
    let r = MappedFile::from_file_empty(blank_map(100), &vec![[0u8; 16], [0u8; 16]]);
    assert!(matches!(r, Err(NyahError::InvalidInput)));
    let r2 = MappedFile::from_file_verified(blank_map(PIECE_SIZE + 1), &vec![[0u8; 16]]);
    assert!(matches!(r2, Err(NyahError::InvalidInput)));
}

#[test]
fn verified_constructor_accepts_present_pieces() {
    let data = bytes_0_to_99();
    let (_, host) = MappedFile::from_whole_file(anon_map(&data));
    let hashes = host.piece_hashes();
    // Same bytes already on disk: the piece enters downloaded.
    let resumed = MappedFile::from_file_verified(anon_map(&data), &hashes).expect("resume");
    assert!(resumed.has_piece(0));
    // Blank bytes: the piece stays incomplete.
    let fresh = MappedFile::from_file_verified(blank_map(100), &hashes).expect("fresh");
    assert!(!fresh.has_piece(0));
    assert_eq!(fresh.needed_pieces(), vec![0]);
}

#[test]
fn write_chunk_transfers_a_piece() {
    let data = bytes_0_to_99();
    let (_, host) = MappedFile::from_whole_file(anon_map(&data));
    let hashes = host.piece_hashes();
    let mut rx = MappedFile::from_file_empty(blank_map(100), &hashes).expect("empty");
    assert!(!rx.has_piece(0));
    // total_chunks == ceil(100 / CHUNK_SIZE) == 1.
    assert!(rx.write_chunk(0, 0, &data));
    assert!(rx.has_piece(0));
    assert_eq!(rx.read_piece(0).expect("bytes"), data);
    assert!(rx.verify_piece(0));
}

#[test]
fn write_chunk_rejects_out_of_range_indices() {
    let data = bytes_0_to_99();
    let (_, host) = MappedFile::from_whole_file(anon_map(&data));
    let hashes = host.piece_hashes();
    let mut rx = MappedFile::from_file_empty(blank_map(100), &hashes).expect("empty");
    // A chunk index beyond the total is rejected.
    assert!(!rx.write_chunk(0, 2, &data));
    // A write that would run past the window is rejected.
    assert!(!rx.write_chunk(0, 1, &data));
    // A missing piece is rejected.
    assert!(!rx.write_chunk(1, 0, &data));
    assert!(!rx.has_piece(0));
}

#[test]
fn oversized_chunk_is_written_verbatim() {
    // A piece of 300 bytes has 2 chunks; a single 300-byte chunk 0 is
    // written whole, and the final verification still passes once chunk 1
    // repeats its own range.
    let data: Vec<u8> = (0..300u32).map(|x| (x % 251) as u8).collect();
    let (_, host) = MappedFile::from_whole_file(anon_map(&data));
    let hashes = host.piece_hashes();
    let mut rx = MappedFile::from_file_empty(blank_map(300), &hashes).expect("empty");
    assert!(rx.write_chunk(0, 0, &data));
    assert!(!rx.has_piece(0));
    assert!(rx.write_chunk(0, 1, &data[CHUNK_SIZE..]));
    assert!(rx.has_piece(0));
    assert_eq!(rx.read_piece(0).expect("bytes"), data);
}

#[test]
fn write_chunk_is_idempotent_by_chunk_index() {
    let data = vec![0x5Au8; 600];
    let (_, host) = MappedFile::from_whole_file(anon_map(&data));
    let hashes = host.piece_hashes();
    let mut rx = MappedFile::from_file_empty(blank_map(600), &hashes).expect("empty");
    assert!(rx.write_chunk(0, 0, &data[..CHUNK_SIZE]));
    // The same write again is skipped but reported accepted.
    assert!(rx.write_chunk(0, 0, &data[..CHUNK_SIZE]));
    assert!(!rx.has_piece(0));
    assert!(rx.write_chunk(0, 1, &data[CHUNK_SIZE..2 * CHUNK_SIZE]));
    assert!(rx.write_chunk(0, 2, &data[2 * CHUNK_SIZE..]));
    assert!(rx.has_piece(0));
    // Writing a sealed piece is a no-op reported as refused.
    assert!(!rx.write_chunk(0, 0, &data[..CHUNK_SIZE]));
    assert_eq!(rx.read_piece(0).expect("bytes"), data);
}

#[test]
fn failed_seal_clears_the_tally_and_accepts_retries() {
    let data = bytes_0_to_99();
    let (_, host) = MappedFile::from_whole_file(anon_map(&data));
    let hashes = host.piece_hashes();
    let mut rx = MappedFile::from_file_empty(blank_map(100), &hashes).expect("empty");
    // A corrupted chunk completes the tally but fails the digest check.
    let garbage = vec![0xFFu8; 100];
    assert!(rx.write_chunk(0, 0, &garbage));
    assert!(!rx.has_piece(0));
    assert_eq!(rx.needed_pieces(), vec![0]);
    // The tally was cleared, so an honest sender can still fill the piece.
    assert!(rx.write_chunk(0, 0, &data));
    assert!(rx.has_piece(0));
    assert_eq!(rx.read_piece(0).expect("bytes"), data);
}
