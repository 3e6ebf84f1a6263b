use nyah::boxes::{BoxSource, CardboardBox, FileSource};
use nyah::NyahError;

fn anon_map(data: &[u8]) -> memmap2::MmapMut {
    let mut m = memmap2::MmapOptions::new().len(data.len()).map_anon().expect("map");
    m[..].copy_from_slice(data);
    m
}

fn blank_map(len: usize) -> memmap2::MmapMut {
    memmap2::MmapOptions::new().len(len).map_anon().expect("map")
}

fn source(path: &[u8], data: &[u8]) -> BoxSource {
    BoxSource { path: path.to_vec(), map: anon_map(data) }
}

#[test]
fn single_file_box_has_one_piece_and_a_stable_hash() {
    let data: Vec<u8> = (0u8..100).collect();
    let bx = CardboardBox::create(
        b"one".to_vec(),
        b"/tmp/box".to_vec(),
        vec![source(b"f.bin", &data)],
    );
    let meta = bx.metadata();
    assert_eq!(meta.files.len(), 1);
    assert_eq!(meta.files[0].pieces.len(), 1);
    assert_eq!(meta.files[0].size, 100);
    let again = CardboardBox::create(
        b"one".to_vec(),
        b"/tmp/box".to_vec(),
        vec![source(b"f.bin", &data)],
    );
    assert_eq!(bx.box_hash(), again.box_hash());
}

#[test]
fn box_hash_depends_on_contents_and_name() {
    let data: Vec<u8> = (0u8..100).collect();
    let base = CardboardBox::create(b"n".to_vec(), b"d".to_vec(), vec![source(b"f", &data)]);
    let mut other = data.clone();
    other[0] ^= 1;
    let changed_bytes =
        CardboardBox::create(b"n".to_vec(), b"d".to_vec(), vec![source(b"f", &other)]);
    assert_ne!(base.box_hash(), changed_bytes.box_hash());
    let changed_name = CardboardBox::create(b"m".to_vec(), b"d".to_vec(), vec![source(b"f", &data)]);
    assert_ne!(base.box_hash(), changed_name.box_hash());
}

#[test]
fn empty_box_has_no_files_and_a_deterministic_hash() {
    let a = CardboardBox::create(b"empty".to_vec(), b"d".to_vec(), Vec::new());
    let b = CardboardBox::create(b"empty".to_vec(), b"d".to_vec(), Vec::new());
    assert_eq!(a.metadata().files.len(), 0);
    assert_eq!(a.file_count(), 0);
    assert_eq!(a.box_hash(), b.box_hash());
}

#[test]
fn files_are_taken_in_path_byte_order() {
    let bx = CardboardBox::create(
        b"sorted".to_vec(),
        b"d".to_vec(),
        vec![
            source(b"b.bin", &[2u8; 10]),
            source(b"a.bin", &[1u8; 10]),
            source(b"a/z.bin", &[3u8; 10]),
        ],
    );
    let paths: Vec<&[u8]> = bx.metadata().files.iter().map(|f| f.path.as_slice()).collect();
    assert_eq!(paths, vec![b"a.bin".as_slice(), b"a/z.bin".as_slice(), b"b.bin".as_slice()]);
}

#[test]
fn materialization_resumes_present_files() {
    let a_data = vec![0xAAu8; 100];
    let b_data = vec![0xBBu8; 50];
    let host = CardboardBox::create(
        b"resume".to_vec(),
        b"h".to_vec(),
        vec![source(b"a.bin", &a_data), source(b"b.bin", &b_data)],
    );
    let meta = host.metadata().clone();
    // a.bin is already on disk with the right bytes; b.bin is missing.
    let rx = CardboardBox::from_metadata(
        b"r".to_vec(),
        host.box_hash(),
        meta,
        vec![
            FileSource { map: anon_map(&a_data), existed: true },
            FileSource { map: blank_map(50), existed: false },
        ],
    )
    .expect("materialize");
    assert_eq!(rx.box_hash(), host.box_hash());
    assert!(rx.has_file_piece(0, 0));
    assert!(!rx.has_file_piece(1, 0));
    let needed = rx.needed_pieces();
    assert_eq!(needed.len(), 1);
    assert_eq!(needed[0].0, 1);
    assert_eq!(needed[0].1, vec![0]);
    let st = rx.get_download_state();
    assert_eq!(st.files[0].pieces_downloaded, 1);
    assert_eq!(st.files[0].total_pieces, 1);
    assert_eq!(st.files[1].pieces_downloaded, 0);
    assert_eq!(st.files[1].total_pieces, 1);
}

#[test]
fn materialization_rejects_mismatched_sources() {
    let data = vec![1u8; 100];
    let host = CardboardBox::create(b"bad".to_vec(), b"h".to_vec(), vec![source(b"f", &data)]);
    // Wrong number of sources.
    let r = CardboardBox::from_metadata(
        b"r".to_vec(),
        host.box_hash(),
        host.metadata().clone(),
        Vec::new(),
    );
    assert!(matches!(r, Err(NyahError::InvalidInput)));
    // Wrong file length.
    let r2 = CardboardBox::from_metadata(
        b"r".to_vec(),
        host.box_hash(),
        host.metadata().clone(),
        vec![FileSource { map: blank_map(99), existed: false }],
    );
    assert!(matches!(r2, Err(NyahError::InvalidInput)));
}

#[test]
fn completed_chunks_reproduce_the_host_bytes() {
    let data: Vec<u8> = (0..600u32).map(|x| (x * 7 % 256) as u8).collect();
    let host = CardboardBox::create(b"t".to_vec(), b"h".to_vec(), vec![source(b"f", &data)]);
    let mut rx = CardboardBox::from_metadata(
        b"r".to_vec(),
        host.box_hash(),
        host.metadata().clone(),
        vec![FileSource { map: blank_map(600), existed: false }],
    )
    .expect("materialize");
    let piece = host.read_file_piece(0, 0).expect("host piece");
    for (k, chunk) in piece.chunks(nyah::CHUNK_SIZE).enumerate() {
        assert!(rx.write_file_chunk(0, 0, k, chunk));
    }
    assert!(rx.has_file_piece(0, 0));
    assert_eq!(rx.read_file_piece(0, 0).expect("rx piece"), piece);
    assert_eq!(piece, data);
}
