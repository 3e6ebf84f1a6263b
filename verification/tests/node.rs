use nyah::boxes::{BoxSource, FileSource};
use nyah::codec::encode_message;
use nyah::state::{MaterializeOrder, NyahState, OutPacket, peer_search_due};
use nyah::types::{IpAddress, Message, PeerAddr};

fn addr(n: u32) -> PeerAddr {
    PeerAddr { ip: IpAddress::V4(n), port: 25565 }
}

fn anon_map(data: &[u8]) -> memmap2::MmapMut {
    let mut m = memmap2::MmapOptions::new().len(data.len()).map_anon().expect("map");
    m[..].copy_from_slice(data);
    m
}

fn blank_map(len: usize) -> memmap2::MmapMut {
    memmap2::MmapOptions::new().len(len).map_anon().expect("map")
}

fn source(path: &[u8], data: &[u8]) -> BoxSource {
    BoxSource { path: path.to_vec(), map: anon_map(data) }
}

/// Carry out a materialization order with fresh, empty files.
fn materialize_fresh(node: &mut NyahState, order: MaterializeOrder) {
    let sources: Vec<FileSource> = order
        .metadata
        .files
        .iter()
        .map(|f| FileSource { map: blank_map(f.size), existed: false })
        .collect();
    node.add_box(order.dir, order.hash, order.metadata, sources).expect("materialize");
}

/// Deliver every queued packet to whichever of the two nodes it addresses,
/// collecting the packets and orders produced in turn.
fn exchange(
    a_addr: PeerAddr,
    a: &mut NyahState,
    b_addr: PeerAddr,
    b: &mut NyahState,
    mut queue: Vec<(PeerAddr, OutPacket)>,
) {
    let mut rounds = 0;
    while let Some((src, pkt)) = queue.pop() {
        rounds += 1;
        assert!(rounds < 100000, "exchange did not settle");
        let payload = encode_message(&pkt.msg);
        let (node, node_addr) = if pkt.dest == a_addr {
            (&mut *a, a_addr)
        } else {
            (&mut *b, b_addr)
        };
        let (out, order) = node.handle_packet(src, payload.as_slice());
        for p in out {
            queue.push((node_addr, p));
        }
        if let Some(o) = order {
            materialize_fresh(node, o);
        }
    }
}

fn box_complete(node: &NyahState, hash: &[u8; 24]) -> bool {
    match node.get_box_state(hash) {
        Some(st) => st.files.iter().all(|f| f.pieces_downloaded == f.total_pieces),
        None => false,
    }
}

#[test]
fn two_peer_fresh_download() {
    let h_addr = addr(10);
    let r_addr = addr(20);
    let mut h = NyahState::new(None);
    let mut r = NyahState::new(None);

    let a_data = vec![0xAAu8; 48000];
    let b_data = vec![0xBBu8; 1];
    let hash = h.create_box(
        b"two files".to_vec(),
        b"hostdir".to_vec(),
        vec![source(b"a.bin", &a_data), source(b"b.bin", &b_data)],
    );
    r.add_desired_box(hash, b"rxdir".to_vec());

    // Discovery: the receiver's broadcast reaches the host, which answers.
    let bcast = r.search_for_peers(addr(0xFFFFFFFF));
    exchange(h_addr, &mut h, r_addr, &mut r, vec![(r_addr, OutPacket { dest: h_addr, ..bcast })]);
    assert_eq!(h.all_peers(), vec![r_addr]);
    assert_eq!(r.all_peers(), vec![h_addr]);

    // Periodic sweeps fetch the metadata, then the pieces.
    let mut rounds = 0;
    while !box_complete(&r, &hash) {
        rounds += 1;
        assert!(rounds < 16, "download did not converge");
        let sweep: Vec<(PeerAddr, OutPacket)> = r
            .search_for_metadata()
            .into_iter()
            .chain(r.search_for_pieces())
            .map(|p| (r_addr, p))
            .collect();
        exchange(h_addr, &mut h, r_addr, &mut r, sweep);
    }

    let st = r.get_box_state(&hash).expect("state");
    assert_eq!(st.files.len(), 2);
    assert_eq!(st.files[0].path, b"a.bin".to_vec());
    assert_eq!(st.files[0].pieces_downloaded, 1);
    assert_eq!(st.files[1].pieces_downloaded, 1);

    // The received bytes equal the host's, file for file.
    assert_eq!(r.read_box_piece(&hash, 0, 0), h.read_box_piece(&hash, 0, 0));
    assert_eq!(r.read_box_piece(&hash, 1, 0), h.read_box_piece(&hash, 1, 0));
    assert_eq!(r.read_box_piece(&hash, 0, 0).expect("bytes"), a_data);
    assert_eq!(r.read_box_piece(&hash, 1, 0).expect("bytes"), b_data);
}

#[test]
fn corrupted_chunks_are_rejected_and_recovered() {
    let h_addr = addr(10);
    let r_addr = addr(20);
    let evil_addr = addr(66);
    let mut h = NyahState::new(None);
    let mut r = NyahState::new(None);

    let data: Vec<u8> = (0..1000u32).map(|x| (x % 255) as u8).collect();
    let hash = h.create_box(b"guarded".to_vec(), b"h".to_vec(), vec![source(b"f.bin", &data)]);
    r.add_desired_box(hash, b"r".to_vec());

    // Fetch metadata from the honest host.
    let bcast = r.search_for_peers(addr(0xFFFFFFFF));
    exchange(h_addr, &mut h, r_addr, &mut r, vec![(r_addr, OutPacket { dest: h_addr, ..bcast })]);
    let sweep: Vec<(PeerAddr, OutPacket)> =
        r.search_for_metadata().into_iter().map(|p| (r_addr, p)).collect();
    exchange(h_addr, &mut h, r_addr, &mut r, sweep);
    assert!(r.get_box_state(&hash).is_some());

    // A malicious peer answers the download with garbage chunks.
    for k in 0..4usize {
        let msg = Message::Upload {
            id: hash,
            file_index: 0,
            piece_index: 0,
            chunk_index: k,
            buf: vec![0x13u8; 250],
        };
        let payload = encode_message(&msg);
        r.handle_packet(evil_addr, payload.as_slice());
    }
    assert!(!box_complete(&r, &hash));

    // The next sweeps re-ask; the first honest pass completes the tally,
    // whose seal fails over the corrupted bytes and clears it, and the one
    // after transfers the whole piece afresh.
    let mut rounds = 0;
    while !box_complete(&r, &hash) {
        rounds += 1;
        assert!(rounds < 8, "recovery did not converge");
        let sweep: Vec<(PeerAddr, OutPacket)> =
            r.search_for_pieces().into_iter().map(|p| (r_addr, p)).collect();
        exchange(h_addr, &mut h, r_addr, &mut r, sweep);
    }
    assert!(box_complete(&r, &hash));
    assert_eq!(r.read_box_piece(&hash, 0, 0).expect("bytes"), data);
}

#[test]
fn resume_requests_only_the_missing_pieces() {
    let h_addr = addr(10);
    let r_addr = addr(20);
    let mut h = NyahState::new(None);
    let mut r = NyahState::new(None);

    let a_data = vec![0xAAu8; 100];
    let b_data = vec![0xBBu8; 60];
    let hash = h.create_box(
        b"resume".to_vec(),
        b"h".to_vec(),
        vec![source(b"a.bin", &a_data), source(b"b.bin", &b_data)],
    );
    let metadata = h.get_metadata(&hash).expect("metadata");

    // The receiver already has a.bin on disk with the right bytes; b.bin is
    // missing and starts empty.
    r.add_box(
        b"r".to_vec(),
        hash,
        metadata,
        vec![
            FileSource { map: anon_map(&a_data), existed: true },
            FileSource { map: blank_map(60), existed: false },
        ],
    )
    .expect("materialize");
    let st = r.get_box_state(&hash).expect("state");
    assert_eq!(st.files[0].pieces_downloaded, 1);
    assert_eq!(st.files[1].pieces_downloaded, 0);

    // Only b.bin's piece is requested.
    let bcast = r.search_for_peers(addr(0xFFFFFFFF));
    exchange(h_addr, &mut h, r_addr, &mut r, vec![(r_addr, OutPacket { dest: h_addr, ..bcast })]);
    let asks = r.search_for_pieces();
    assert_eq!(asks.len(), 1);
    match &asks[0].msg {
        Message::FindPiece { id, file_index, piece_index } => {
            assert_eq!(*id, hash);
            assert_eq!(*file_index, 1);
            assert_eq!(*piece_index, 0);
        },
        _ => panic!("expected a piece request"),
    }

    // Delivering the sweep completes the box.
    let sweep: Vec<(PeerAddr, OutPacket)> = asks.into_iter().map(|p| (r_addr, p)).collect();
    exchange(h_addr, &mut h, r_addr, &mut r, sweep);
    assert!(box_complete(&r, &hash));
    assert_eq!(r.read_box_piece(&hash, 1, 0).expect("bytes"), b_data);
}

#[test]
fn loopback_packets_are_dropped_before_dispatch() {
    // 192.168.1.5 as a 32-bit value.
    let own_ip = IpAddress::V4(0xC0A80105);
    let mut h = NyahState::new(Some(own_ip));
    let own = PeerAddr { ip: own_ip, port: 25565 };

    let payload = encode_message(&Message::SearchingForPeers);
    let (out, order) = h.handle_packet(own, payload.as_slice());
    assert!(out.is_empty());
    assert!(order.is_none());
    assert!(h.all_peers().is_empty());

    // The same packet from any other address is answered.
    let other = addr(7);
    let (out2, _) = h.handle_packet(other, payload.as_slice());
    assert_eq!(out2.len(), 1);
    assert_eq!(out2[0].dest, other);
    assert!(matches!(out2[0].msg, Message::ImHere));
    assert_eq!(h.all_peers(), vec![other]);
}

#[test]
fn malformed_packets_are_dropped_silently() {
    let mut h = NyahState::new(None);
    let (out, order) = h.handle_packet(addr(3), &[200u8, 1, 2, 3]);
    assert!(out.is_empty());
    assert!(order.is_none());
    assert!(h.all_peers().is_empty());
}

#[test]
fn unknown_boxes_are_not_answered() {
    let mut h = NyahState::new(None);
    let payload = encode_message(&Message::FindMetadata([9u8; 24]));
    let (out, _) = h.handle_packet(addr(4), payload.as_slice());
    assert!(out.is_empty());
}

#[test]
fn upload_replies_are_paced_chunks_in_order() {
    let h_addr = addr(10);
    let r_addr = addr(20);
    let mut h = NyahState::new(None);
    let data: Vec<u8> = (0..600u32).map(|x| (x % 199) as u8).collect();
    let hash = h.create_box(b"chunks".to_vec(), b"h".to_vec(), vec![source(b"f", &data)]);
    let _ = h_addr;

    let msg = Message::StartDownload { id: hash, file_index: 0, piece_index: 0 };
    let payload = encode_message(&msg);
    let (out, _) = h.handle_packet(r_addr, payload.as_slice());
    // 600 bytes at 256 per chunk: three chunks, the last short.
    assert_eq!(out.len(), 3);
    for (k, p) in out.iter().enumerate() {
        assert_eq!(p.dest, r_addr);
        assert!(p.reliable);
        match &p.msg {
            Message::Upload { id, file_index, piece_index, chunk_index, buf } => {
                assert_eq!(*id, hash);
                assert_eq!(*file_index, 0);
                assert_eq!(*piece_index, 0);
                assert_eq!(*chunk_index, k);
                let start = k * nyah::CHUNK_SIZE;
                let end = (start + nyah::CHUNK_SIZE).min(data.len());
                assert_eq!(buf, &data[start..end].to_vec());
            },
            _ => panic!("expected an upload"),
        }
    }
}

#[test]
fn peer_search_interval_decision() {
    assert!(peer_search_due(20001, 20000));
    assert!(peer_search_due(20500, 20000));
    assert!(!peer_search_due(20000, 20000));
    assert!(!peer_search_due(0, 20000));
}

#[test]
fn peer_search_packet_is_an_unreliable_broadcast() {
    let h = NyahState::new(None);
    let broadcast = addr(0xFFFFFFFF);
    let p = h.search_for_peers(broadcast);
    assert_eq!(p.dest, broadcast);
    assert!(!p.reliable);
    assert!(matches!(p.msg, Message::SearchingForPeers));
}
