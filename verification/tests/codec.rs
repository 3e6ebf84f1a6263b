use nyah::codec::{decode_message, decode_metadata, encode_message, encode_metadata};
use nyah::types::{CardboardMetadata, FileMetadata, Message};

fn sample_metadata() -> CardboardMetadata {
    CardboardMetadata {
        name: b"cat pictures".to_vec(),
        files: vec![
            FileMetadata {
                path: b"a/one.bin".to_vec(),
                size: 48000,
                pieces: vec![[1u8; 16]],
            },
            FileMetadata {
                path: b"two.bin".to_vec(),
                size: 100000,
                pieces: vec![[2u8; 16], [3u8; 16], [4u8; 16]],
            },
        ],
    }
}

#[test]
fn metadata_round_trip_is_byte_identical() {
    let m = sample_metadata();
    let encoded = encode_metadata(&m);
    let decoded = decode_metadata(encoded.as_slice()).expect("decode");
    let re_encoded = encode_metadata(&decoded);
    assert_eq!(encoded, re_encoded);
    assert_eq!(decoded.name, m.name);
    assert_eq!(decoded.files.len(), 2);
    assert_eq!(decoded.files[0].path, m.files[0].path);
    assert_eq!(decoded.files[0].size, 48000);
    assert_eq!(decoded.files[0].pieces, vec![[1u8; 16]]);
    assert_eq!(decoded.files[1].pieces.len(), 3);
}

#[test]
fn empty_metadata_round_trips() {
    let m = CardboardMetadata { name: Vec::new(), files: Vec::new() };
    let encoded = encode_metadata(&m);
    let decoded = decode_metadata(encoded.as_slice()).expect("decode");
    assert!(decoded.name.is_empty());
    assert!(decoded.files.is_empty());
    assert_eq!(encode_metadata(&decoded), encoded);
}

#[test]
fn metadata_decode_rejects_trailing_bytes() {
    let m = sample_metadata();
    let mut encoded = encode_metadata(&m);
    encoded.push(0);
    assert!(decode_metadata(encoded.as_slice()).is_none());
}

#[test]
fn metadata_decode_rejects_truncation() {
    let m = sample_metadata();
    let encoded = encode_metadata(&m);
    assert!(decode_metadata(&encoded[..encoded.len() - 1]).is_none());
}

#[test]
fn message_round_trips_every_variant() {
    let id = [7u8; 24];
    let msgs = vec![
        Message::SearchingForPeers,
        Message::ImHere,
        Message::FindMetadata(id),
        Message::GotMetadata(id, sample_metadata()),
        Message::FindPiece { id, file_index: 1, piece_index: 2 },
        Message::GotPiece { id, file_index: 3, piece_index: 4 },
        Message::StartDownload { id, file_index: 5, piece_index: 6 },
        Message::Upload {
            id,
            file_index: 0,
            piece_index: 1,
            chunk_index: 187,
            buf: vec![9u8; 256],
        },
    ];
    for m in msgs {
        let encoded = encode_message(&m);
        let decoded = decode_message(encoded.as_slice()).expect("decode");
        assert_eq!(encode_message(&decoded), encoded);
    }
}

#[test]
fn message_decode_rejects_unknown_tag() {
    assert!(decode_message(&[8u8]).is_none());
    assert!(decode_message(&[255u8, 0, 0]).is_none());
}

#[test]
fn message_decode_rejects_empty_and_trailing() {
    assert!(decode_message(&[]).is_none());
    assert!(decode_message(&[0u8, 0u8]).is_none());
    let encoded = encode_message(&Message::FindMetadata([1u8; 24]));
    let mut long = encoded.clone();
    long.push(1);
    assert!(decode_message(long.as_slice()).is_none());
    assert!(decode_message(&encoded[..10]).is_none());
}
