//! The node: its boxes, its peers, the boxes it still wants, and how it
//! reacts to each message of the wire protocol.
//!
//! Handlers never touch the network themselves: each returns the packets to
//! send, and materialization of a newly learned box is handed back to the
//! caller as an order, since only the caller can create files.  The whole
//! reaction to a message is fixed by the transition function `step`.

use crate::boxes::{BoxSource, BoxView, CardboardBox, FileSource, box_wf, sources_match};
use crate::codec::message_decoded;
use crate::file::{FileView, lemma_piece_bounds, num_chunks, window, write_chunk_spec};
use crate::hash::hash24_eq;
use crate::types::{BoxState, CardboardMetadata, IpAddress, Message, MessageView, MetaView, PeerAddr};
use crate::CHUNK_SIZE;
use vstd::prelude::*;

verus! {

/// A box this node wants but has no metadata for yet, and where to put it.
pub struct DesiredBox {
    pub hash: [u8; 24],
    pub dir: Vec<u8>,
}

/// A packet to hand to the transport: destination, delivery class, message.
pub struct OutPacket {
    pub dest: PeerAddr,
    pub reliable: bool,
    pub msg: Message,
}

/// An order to materialize a box: create its files under `dir` and install
/// it via `NyahState::add_box`.
pub struct MaterializeOrder {
    pub hash: [u8; 24],
    pub dir: Vec<u8>,
    pub metadata: CardboardMetadata,
}

/// Mathematical image of an `OutPacket`.
#[verifier::ext_equal]
pub ghost struct OutPacketView {
    pub dest: PeerAddr,
    pub reliable: bool,
    pub msg: MessageView,
}

impl View for OutPacket {
    type V = OutPacketView;

    open spec fn view(&self) -> OutPacketView {
        OutPacketView { dest: self.dest, reliable: self.reliable, msg: self.msg@ }
    }
}

/// Mathematical image of a `MaterializeOrder`.
#[verifier::ext_equal]
pub ghost struct OrderView {
    pub hash: Seq<u8>,
    pub dir: Seq<u8>,
    pub metadata: MetaView,
}

impl View for MaterializeOrder {
    type V = OrderView;

    open spec fn view(&self) -> OrderView {
        OrderView { hash: self.hash@, dir: self.dir@, metadata: self.metadata@ }
    }
}

/// The view of an optional order.
pub open spec fn order_view(o: Option<MaterializeOrder>) -> Option<OrderView> {
    match o {
        Some(m) => Some(m@),
        None => None,
    }
}

/// The node's state.
pub struct NyahState {
    boxes: Vec<CardboardBox>,
    peers: Vec<PeerAddr>,
    looking_for_boxes: Vec<DesiredBox>,
    filter_from: Option<IpAddress>,
}

/// Mathematical image of a `NyahState`.
#[verifier::ext_equal]
pub ghost struct StateView {
    pub boxes: Seq<BoxView>,
    pub peers: Seq<PeerAddr>,
    pub looking: Seq<(Seq<u8>, Seq<u8>)>,
    pub filter_from: Option<IpAddress>,
}

impl View for NyahState {
    type V = StateView;

    closed spec fn view(&self) -> StateView {
        StateView {
            boxes: self.boxes@.map_values(|b: CardboardBox| b@),
            peers: self.peers@,
            looking: self.looking_for_boxes@.map_values(|d: DesiredBox| (d.hash@, d.dir@)),
            filter_from: self.filter_from,
        }
    }
}

/// Some box carries this identity.
pub open spec fn has_box(boxes: Seq<BoxView>, id: Seq<u8>) -> bool {
    exists|i: int| 0 <= i < boxes.len() && (#[trigger] boxes[i]).hash == id
}

/// The index of the box with this identity.
pub open spec fn box_at(boxes: Seq<BoxView>, id: Seq<u8>) -> int {
    choose|i: int| 0 <= i < boxes.len() && (#[trigger] boxes[i]).hash == id
}

/// Some desire names this identity.
pub open spec fn has_desire(looking: Seq<(Seq<u8>, Seq<u8>)>, id: Seq<u8>) -> bool {
    exists|i: int| 0 <= i < looking.len() && (#[trigger] looking[i]).0 == id
}

/// The index of the desire naming this identity.
pub open spec fn desire_at(looking: Seq<(Seq<u8>, Seq<u8>)>, id: Seq<u8>) -> int {
    choose|i: int| 0 <= i < looking.len() && (#[trigger] looking[i]).0 == id
}

/// Peers after hearing from an address: unchanged if known, appended if new.
pub open spec fn add_peer(peers: Seq<PeerAddr>, from: PeerAddr) -> Seq<PeerAddr> {
    if peers.contains(from) {
        peers
    } else {
        peers.push(from)
    }
}

/// File `f`'s piece `p` exists and is downloaded.
pub open spec fn has_piece_view(v: FileView, p: int) -> bool {
    0 <= p < v.pieces.len() && v.pieces[p].state is Downloaded
}

/// The source address carries the IP this node filters out.
pub open spec fn is_filtered(s: StateView, from: PeerAddr) -> bool {
    match s.filter_from {
        Some(ip) => from.ip == ip,
        None => false,
    }
}

/// Well-formedness of the node: every box is well-formed, box identities
/// and desires are unique, the peer set is duplicate-free, and no peer
/// carries the filtered IP.
pub open spec fn state_wf(s: StateView) -> bool {
    &&& forall|i: int| 0 <= i < s.boxes.len() ==> box_wf(#[trigger] s.boxes[i])
    &&& forall|i: int, j: int|
        0 <= i < j < s.boxes.len() ==> (#[trigger] s.boxes[i]).hash != (#[trigger] s.boxes[j]).hash
    &&& forall|i: int, j: int| 0 <= i < j < s.peers.len() ==> s.peers[i] != s.peers[j]
    &&& forall|i: int, j: int|
        0 <= i < j < s.looking.len() ==> (#[trigger] s.looking[i]).0
            != (#[trigger] s.looking[j]).0
    &&& forall|i: int| 0 <= i < s.peers.len() ==> !is_filtered(s, #[trigger] s.peers[i])
}

/// The peer set never holds the filtered IP: on a well-formed node, no
/// known peer's address carries the IP configured in `filter_from`.
pub proof fn lemma_peers_never_filtered(s: StateView, i: int)
    requires
        state_wf(s),
        0 <= i < s.peers.len(),
    ensures
        match s.filter_from {
            Some(ip) => s.peers[i].ip != ip,
            None => true,
        },
{
}

/// The chunk uploads that answer a download request: one `Upload` packet
/// per `CHUNK_SIZE` slice of the piece's bytes `w`, from chunk `k` on.
pub open spec fn upload_packets(
    dest: PeerAddr,
    id: Seq<u8>,
    f: nat,
    p: nat,
    w: Seq<u8>,
    k: nat,
) -> Seq<OutPacketView>
    decreases num_chunks(w.len() as int) - k,
{
    if k as int >= num_chunks(w.len() as int) {
        Seq::empty()
    } else {
        let start = k * (CHUNK_SIZE as nat);
        let end = if (k + 1) * (CHUNK_SIZE as nat) <= w.len() {
            ((k + 1) * (CHUNK_SIZE as nat)) as int
        } else {
            w.len() as int
        };
        seq![
            OutPacketView {
                dest,
                reliable: true,
                msg: MessageView::Upload {
                    id,
                    file_index: f,
                    piece_index: p,
                    chunk_index: k,
                    buf: w.subrange(start as int, end),
                },
            },
        ] + upload_packets(dest, id, f, p, w, (k + 1) as nat)
    }
}

/// Boxes after installing `bv`: replaced in place when its identity is
/// already present, appended otherwise.
pub open spec fn upsert_box(boxes: Seq<BoxView>, bv: BoxView) -> Seq<BoxView> {
    if has_box(boxes, bv.hash) {
        boxes.update(box_at(boxes, bv.hash), bv)
    } else {
        boxes.push(bv)
    }
}

/// The periodic peer search is due once a full interval has passed since
/// the last broadcast.
pub fn peer_search_due(elapsed_ms: u64, interval_ms: u64) -> (r: bool)
    ensures
        r == (elapsed_ms > interval_ms),
{
    elapsed_ms > interval_ms
}

/// Everything one message does to the node.
#[verifier::ext_equal]
pub ghost struct StepView {
    pub state: StateView,
    pub out: Seq<OutPacketView>,
    pub order: Option<OrderView>,
}

/// The node's reaction to one message from `from`: the state afterwards,
/// the packets sent, and at most one materialization order.  Messages that
/// fail a guard change nothing and answer nothing.
pub open spec fn step(s: StateView, from: PeerAddr, m: MessageView) -> StepView {
    match m {
        MessageView::SearchingForPeers => StepView {
            state: StateView { peers: add_peer(s.peers, from), ..s },
            out: seq![OutPacketView { dest: from, reliable: true, msg: MessageView::ImHere }],
            order: None,
        },
        MessageView::ImHere => StepView {
            state: StateView { peers: add_peer(s.peers, from), ..s },
            out: Seq::empty(),
            order: None,
        },
        MessageView::FindMetadata { id } => StepView {
            state: s,
            out: if has_box(s.boxes, id) {
                seq![
                    OutPacketView {
                        dest: from,
                        reliable: true,
                        msg: MessageView::GotMetadata {
                            id,
                            meta: s.boxes[box_at(s.boxes, id)].metadata,
                        },
                    },
                ]
            } else {
                Seq::empty()
            },
            order: None,
        },
        MessageView::GotMetadata { id, meta } => {
            if has_desire(s.looking, id) {
                let i = desire_at(s.looking, id);
                StepView {
                    state: StateView { looking: s.looking.remove(i), ..s },
                    out: Seq::empty(),
                    order: Some(OrderView { hash: id, dir: s.looking[i].1, metadata: meta }),
                }
            } else {
                StepView { state: s, out: Seq::empty(), order: None }
            }
        },
        MessageView::FindPiece { id, file_index, piece_index } => StepView {
            state: s,
            out: if has_box(s.boxes, id) && file_index < s.boxes[box_at(s.boxes, id)].files.len()
                && has_piece_view(
                s.boxes[box_at(s.boxes, id)].files[file_index as int],
                piece_index as int,
            ) {
                seq![
                    OutPacketView {
                        dest: from,
                        reliable: true,
                        msg: MessageView::GotPiece { id, file_index, piece_index },
                    },
                ]
            } else {
                Seq::empty()
            },
            order: None,
        },
        MessageView::GotPiece { id, file_index, piece_index } => StepView {
            state: s,
            out: if has_box(s.boxes, id) && file_index < s.boxes[box_at(s.boxes, id)].files.len()
                && !has_piece_view(
                s.boxes[box_at(s.boxes, id)].files[file_index as int],
                piece_index as int,
            ) {
                seq![
                    OutPacketView {
                        dest: from,
                        reliable: true,
                        msg: MessageView::StartDownload { id, file_index, piece_index },
                    },
                ]
            } else {
                Seq::empty()
            },
            order: None,
        },
        MessageView::StartDownload { id, file_index, piece_index } => StepView {
            state: s,
            out: if has_box(s.boxes, id) && file_index < s.boxes[box_at(s.boxes, id)].files.len()
                && has_piece_view(
                s.boxes[box_at(s.boxes, id)].files[file_index as int],
                piece_index as int,
            ) {
                upload_packets(
                    from,
                    id,
                    file_index,
                    piece_index,
                    window(
                        s.boxes[box_at(s.boxes, id)].files[file_index as int].bytes,
                        piece_index as int,
                    ),
                    0,
                )
            } else {
                Seq::empty()
            },
            order: None,
        },
        MessageView::Upload { id, file_index, piece_index, chunk_index, buf } => {
            if has_box(s.boxes, id) && file_index < s.boxes[box_at(s.boxes, id)].files.len()
                && !has_piece_view(
                s.boxes[box_at(s.boxes, id)].files[file_index as int],
                piece_index as int,
            ) {
                let bi = box_at(s.boxes, id);
                let bx = s.boxes[bi];
                let nf = write_chunk_spec(
                    bx.files[file_index as int],
                    piece_index as int,
                    chunk_index as int,
                    buf,
                ).0;
                let bx2 = BoxView { files: bx.files.update(file_index as int, nf), ..bx };
                StepView {
                    state: StateView { boxes: s.boxes.update(bi, bx2), ..s },
                    out: Seq::empty(),
                    order: None,
                }
            } else {
                StepView { state: s, out: Seq::empty(), order: None }
            }
        },
    }
}

/// The packet `p` was emitted strictly before position `(bi, fi, pi, pj)`
/// of the piece sweep's lexicographic walk over boxes, files, pieces and
/// peers.
pub open spec fn sweep_pos(s: StateView, p: OutPacketView, bi: int, fi: int, pi: int, pj: int) -> bool {
    match p.msg {
        MessageView::FindPiece { id, file_index, piece_index } => has_box(s.boxes, id) && {
            let b2 = box_at(s.boxes, id);
            let f2 = file_index as int;
            let p2 = piece_index as int;
            ||| b2 < bi
            ||| (b2 == bi && f2 < fi)
            ||| (b2 == bi && f2 == fi && p2 < pi)
            ||| (b2 == bi && f2 == fi && p2 == pi && exists|j: int|
                0 <= j < pj && s.peers[j] == p.dest)
        },
        _ => false,
    }
}

impl NyahState {
    /// Well-formedness of this node.
    pub open spec fn wf(&self) -> bool {
        state_wf(self@)
    }

    /// A fresh node: no boxes, no peers, no desires.
    pub fn new(filter_from: Option<IpAddress>) -> (r: NyahState)
        ensures
            r.wf(),
            r@.boxes.len() == 0,
            r@.peers.len() == 0,
            r@.looking.len() == 0,
            r@.filter_from == filter_from,
    {
        let r = NyahState {
            boxes: Vec::new(),
            peers: Vec::new(),
            looking_for_boxes: Vec::new(),
            filter_from,
        };
        proof {
            assert(r@.boxes =~= Seq::<BoxView>::empty());
            assert(r@.looking =~= Seq::<(Seq<u8>, Seq<u8>)>::empty());
        }
        r
    }

    /// The index of the box with this identity, if the node has it.
    #[verifier::loop_isolation(false)]
    fn find_box(&self, id: &[u8; 24]) -> (r: Option<usize>)
        requires
            self.wf(),
        ensures
            match r {
                Some(i) => {
                    &&& has_box(self@.boxes, id@)
                    &&& i == box_at(self@.boxes, id@)
                    &&& i < self@.boxes.len()
                    &&& self@.boxes[i as int].hash == id@
                },
                None => !has_box(self@.boxes, id@),
            },
    {
        let mut i: usize = 0;
        while i < self.boxes.len()
            invariant
                i <= self.boxes@.len(),
                self@.boxes.len() == self.boxes@.len(),
                forall|j: int|
                    0 <= j < self.boxes@.len() ==> self@.boxes[j] == (#[trigger] self.boxes@[j])@,
                forall|j: int| 0 <= j < i ==> (#[trigger] self@.boxes[j]).hash != id@,
            decreases self.boxes@.len() - i,
        {
            let h = self.boxes[i].box_hash();
            if hash24_eq(&h, id) {
                proof {
                    assert((#[trigger] self@.boxes[i as int]).hash == id@);
                    assert(has_box(self@.boxes, id@));
                    let w = box_at(self@.boxes, id@);
                    assert(0 <= w < self@.boxes.len() && self@.boxes[w].hash == id@);
                    if w < i {
                        assert(false);
                    }
                    if w > i {
                        assert(false);
                    }
                }
                return Some(i);
            }
            i += 1;
        }
        None
    }

    /// The index of the desire naming this identity, if there is one.
    #[verifier::loop_isolation(false)]
    fn find_desire(&self, id: &[u8; 24]) -> (r: Option<usize>)
        requires
            self.wf(),
        ensures
            match r {
                Some(i) => {
                    &&& has_desire(self@.looking, id@)
                    &&& i == desire_at(self@.looking, id@)
                    &&& i < self@.looking.len()
                    &&& self@.looking[i as int].0 == id@
                },
                None => !has_desire(self@.looking, id@),
            },
    {
        let mut i: usize = 0;
        while i < self.looking_for_boxes.len()
            invariant
                i <= self.looking_for_boxes@.len(),
                self@.looking.len() == self.looking_for_boxes@.len(),
                forall|j: int|
                    0 <= j < self.looking_for_boxes@.len() ==> (#[trigger] self@.looking[j])
                        == (self.looking_for_boxes@[j].hash@, self.looking_for_boxes@[j].dir@),
                forall|j: int| 0 <= j < i ==> (#[trigger] self@.looking[j]).0 != id@,
            decreases self.looking_for_boxes@.len() - i,
        {
            let h = self.looking_for_boxes[i].hash;
            if hash24_eq(&h, id) {
                proof {
                    assert((#[trigger] self@.looking[i as int]).0 == id@);
                    assert(has_desire(self@.looking, id@));
                    let w = desire_at(self@.looking, id@);
                    assert(0 <= w < self@.looking.len() && self@.looking[w].0 == id@);
                    if w < i {
                        assert(false);
                    }
                    if w > i {
                        assert(false);
                    }
                }
                return Some(i);
            }
            i += 1;
        }
        None
    }

    /// Record the sender as a peer, unless it is already known.
    #[verifier::loop_isolation(false)]
    fn note_peer(&mut self, from: PeerAddr)
        requires
            old(self).wf(),
            !is_filtered(old(self)@, from),
        ensures
            final(self).wf(),
            final(self)@ == (StateView { peers: add_peer(old(self)@.peers, from), ..old(self)@ }),
    {
        let mut i: usize = 0;
        let n = self.peers.len();
        while i < n
            invariant
                i <= n,
                n == self@.peers.len(),
                self@.peers == self.peers@,
                forall|j: int| 0 <= j < i ==> self@.peers[j] != from,
            decreases n - i,
        {
            if self.peers[i] == from {
                proof {
                    assert(self@.peers.contains(from));
                    assert(self@ =~= (StateView {
                        peers: add_peer(old(self)@.peers, from),
                        ..old(self)@
                    }));
                }
                return ;
            }
            i += 1;
        }
        proof {
            if self@.peers.contains(from) {
                let k = choose|k: int| 0 <= k < self@.peers.len() && self@.peers[k] == from;
                assert(false);
            }
        }
        self.peers.push(from);
        proof {
            assert(self@ =~= (StateView { peers: add_peer(old(self)@.peers, from), ..old(self)@ }));
        }
    }

    /// A copy of the metadata of the box with this identity, if the node
    /// has it.
    pub fn get_metadata(&self, key: &[u8; 24]) -> (r: Option<CardboardMetadata>)
        requires
            self.wf(),
        ensures
            match r {
                Some(m) => has_box(self@.boxes, key@) && m@ == self@.boxes[box_at(
                    self@.boxes,
                    key@,
                )].metadata,
                None => !has_box(self@.boxes, key@),
            },
    {
        match self.find_box(key) {
            Some(i) => Some(self.boxes[i].metadata().clone()),
            None => None,
        }
    }

    /// Note a box as desired: remember the hash and the directory to
    /// materialize it under, replacing the directory if the hash is already
    /// desired.
    #[verifier::loop_isolation(false)]
    pub fn add_desired_box(&mut self, box_hash: [u8; 24], box_dir: Vec<u8>)
        requires
            old(self).wf(),
        ensures
            final(self).wf(),
            final(self)@.boxes == old(self)@.boxes,
            final(self)@.peers == old(self)@.peers,
            final(self)@.filter_from == old(self)@.filter_from,
            final(self)@.looking == if has_desire(old(self)@.looking, box_hash@) {
                old(self)@.looking.update(
                    desire_at(old(self)@.looking, box_hash@),
                    (box_hash@, box_dir@),
                )
            } else {
                old(self)@.looking.push((box_hash@, box_dir@))
            },
    {
        let found = self.find_desire(&box_hash);
        match found {
            Some(i) => {
                self.looking_for_boxes.set(i, DesiredBox { hash: box_hash, dir: box_dir });
                proof {
                    assert(self@.looking =~= old(self)@.looking.update(
                        desire_at(old(self)@.looking, box_hash@),
                        (box_hash@, box_dir@),
                    ));
                    assert(self@ =~= (StateView { looking: self@.looking, ..old(self)@ }));
                }
            },
            None => {
                self.looking_for_boxes.push(DesiredBox { hash: box_hash, dir: box_dir });
                proof {
                    assert(self@.looking =~= old(self)@.looking.push((box_hash@, box_dir@)));
                    assert(self@ =~= (StateView { looking: self@.looking, ..old(self)@ }));
                }
            },
        }
    }

    /// Every known peer, in order.
    #[verifier::loop_isolation(false)]
    pub fn all_peers(&self) -> (r: Vec<PeerAddr>)
        ensures
            r@ == self@.peers,
    {
        let mut r: Vec<PeerAddr> = Vec::new();
        let mut i: usize = 0;
        while i < self.peers.len()
            invariant
                i <= self.peers@.len(),
                self@.peers == self.peers@,
                r@ == self@.peers.subrange(0, i as int),
            decreases self.peers@.len() - i,
        {
            r.push(self.peers[i]);
            assert(r@ =~= self@.peers.subrange(0, i + 1));
            i += 1;
        }
        assert(r@ =~= self@.peers);
        r
    }

    /// The broadcast peer-search announcement, dispatched unreliably.
    pub fn search_for_peers(&self, dest: PeerAddr) -> (p: OutPacket)
        ensures
            p@.dest == dest,
            !p@.reliable,
            p@.msg == MessageView::SearchingForPeers,
    {
        OutPacket { dest, reliable: false, msg: Message::SearchingForPeers }
    }

    /// Install a box under its own identity, replacing any box that
    /// already carries it.
    fn install_box(&mut self, bx: CardboardBox)
        requires
            old(self).wf(),
            bx.wf(),
        ensures
            final(self).wf(),
            final(self)@.boxes == upsert_box(old(self)@.boxes, bx@),
            final(self)@.peers == old(self)@.peers,
            final(self)@.looking == old(self)@.looking,
            final(self)@.filter_from == old(self)@.filter_from,
    {
        let h = bx.box_hash();
        match self.find_box(&h) {
            Some(i) => {
                self.boxes.set(i, bx);
                proof {
                    assert(self@.boxes =~= old(self)@.boxes.update(
                        box_at(old(self)@.boxes, h@),
                        bx@,
                    ));
                    assert(self@ =~= (StateView { boxes: self@.boxes, ..old(self)@ }));
                }
            },
            None => {
                self.boxes.push(bx);
                proof {
                    assert(self@.boxes =~= old(self)@.boxes.push(bx@));
                    assert(self@ =~= (StateView { boxes: self@.boxes, ..old(self)@ }));
                }
            },
        }
    }

    /// After installing a box, the slot its identity selects holds it.
    proof fn lemma_upsert_slot(pre: Seq<BoxView>, bv: BoxView)
        requires
            forall|i: int, j: int|
                0 <= i < j < pre.len() ==> (#[trigger] pre[i]).hash != (#[trigger] pre[j]).hash,
        ensures
            has_box(upsert_box(pre, bv), bv.hash),
            upsert_box(pre, bv)[box_at(upsert_box(pre, bv), bv.hash)] == bv,
    {
        let post = upsert_box(pre, bv);
        if has_box(pre, bv.hash) {
            let i = box_at(pre, bv.hash);
            assert(post[i].hash == bv.hash);
            assert(has_box(post, bv.hash));
            let w = box_at(post, bv.hash);
            assert(0 <= w < post.len() && post[w].hash == bv.hash);
            if w != i {
                if w < i {
                    assert(pre[w].hash == bv.hash && pre[i].hash == bv.hash);
                    assert(false);
                } else {
                    assert(pre[i].hash == bv.hash && pre[w].hash == bv.hash);
                    assert(false);
                }
            }
        } else {
            let i = pre.len() as int;
            assert(post[i].hash == bv.hash);
            assert(has_box(post, bv.hash));
            let w = box_at(post, bv.hash);
            assert(0 <= w < post.len() && post[w].hash == bv.hash);
            if w != i {
                assert(pre[w].hash == bv.hash);
                assert(has_box(pre, bv.hash));
                assert(false);
            }
        }
    }

    /// Create a box over the given sources and keep it, returning its
    /// identity.  The installed box is exactly what `CardboardBox::create`
    /// builds.
    pub fn create_box(&mut self, box_name: Vec<u8>, box_dir: Vec<u8>, entries: Vec<BoxSource>) -> (h:
        [u8; 24])
        requires
            old(self).wf(),
        ensures
            final(self).wf(),
            final(self)@.peers == old(self)@.peers,
            final(self)@.looking == old(self)@.looking,
            final(self)@.filter_from == old(self)@.filter_from,
            has_box(final(self)@.boxes, h@),
            ({
                let bv = final(self)@.boxes[box_at(final(self)@.boxes, h@)];
                &&& final(self)@.boxes == upsert_box(old(self)@.boxes, bv)
                &&& bv.hash == h@
                &&& box_wf(bv)
                &&& bv.metadata.name == box_name@
                &&& bv.base_path == box_dir@
                &&& bv.files.len() == entries@.len()
                &&& forall|i: int, j: int|
                    0 <= i < bv.files.len() && 0 <= j < bv.files[i].pieces.len()
                        ==> (#[trigger] bv.files[i].pieces[j]).state is Downloaded
                &&& forall|k1: int, k2: int|
                    0 <= k1 < k2 < bv.metadata.files.len() ==> crate::boxes::bytes_le(
                        bv.metadata.files[k1].path,
                        bv.metadata.files[k2].path,
                    )
                &&& Seq::new(
                    bv.files.len(),
                    |i: int| (bv.metadata.files[i].path, bv.files[i].bytes),
                ).to_multiset() == entries@.map_values(
                    |s: BoxSource| crate::boxes::source_key(s),
                ).to_multiset()
                &&& bv.hash == crate::hash::blake2s24_of(
                    crate::boxes::box_hash_input(bv.files, bv.metadata),
                )
            }),
    {
        let bx = CardboardBox::create(box_name, box_dir, entries);
        let h = bx.box_hash();
        let ghost bv = bx@;
        self.install_box(bx);
        proof {
            Self::lemma_upsert_slot(old(self)@.boxes, bv);
        }
        h
    }

    /// Materialize a box from trusted metadata over the given sources and
    /// keep it under the requested identity.  Fails, changing nothing, iff
    /// the sources do not fit the metadata.
    pub fn add_box(
        &mut self,
        box_dir: Vec<u8>,
        hash: [u8; 24],
        metadata: CardboardMetadata,
        sources: Vec<FileSource>,
    ) -> (r: Result<(), crate::NyahError>)
        requires
            old(self).wf(),
        ensures
            final(self).wf(),
            final(self)@.peers == old(self)@.peers,
            final(self)@.looking == old(self)@.looking,
            final(self)@.filter_from == old(self)@.filter_from,
            match r {
                Ok(_) => {
                    &&& sources_match(metadata@, sources@)
                    &&& has_box(final(self)@.boxes, hash@)
                    &&& ({
                        let bv = final(self)@.boxes[box_at(final(self)@.boxes, hash@)];
                        &&& final(self)@.boxes == upsert_box(old(self)@.boxes, bv)
                        &&& bv.hash == hash@
                        &&& box_wf(bv)
                        &&& bv.metadata == metadata@
                        &&& bv.base_path == box_dir@
                        &&& bv.files.len() == sources@.len()
                        &&& forall|i: int|
                            0 <= i < sources@.len() ==> (#[trigger] bv.files[i]).bytes
                                == crate::mmap::mmap_bytes(sources@[i].map)
                        &&& forall|i: int, j: int|
                            0 <= i < sources@.len() && 0 <= j < bv.files[i].pieces.len()
                                && sources@[i].existed ==> ((#[trigger] bv.files[i].pieces[j]).state
                                is Downloaded <==> crate::hash::blake2s16_of(
                                window(bv.files[i].bytes, j),
                            ) == metadata@.files[i].pieces[j])
                        &&& forall|i: int, j: int|
                            0 <= i < sources@.len() && 0 <= j < bv.files[i].pieces.len()
                                && !sources@[i].existed
                                ==> !((#[trigger] bv.files[i].pieces[j]).state is Downloaded)
                    })
                },
                Err(e) => {
                    &&& final(self)@ == old(self)@
                    &&& e == crate::NyahError::InvalidInput
                    &&& !sources_match(metadata@, sources@)
                },
            },
    {
        match CardboardBox::from_metadata(box_dir, hash, metadata, sources) {
            Ok(bx) => {
                let ghost bv = bx@;
                self.install_box(bx);
                proof {
                    Self::lemma_upsert_slot(old(self)@.boxes, bv);
                }
                Ok(())
            },
            Err(e) => Err(e),
        }
    }

    /// The download progress of the box with this identity, if the node
    /// has it.
    pub fn get_box_state(&self, key: &[u8; 24]) -> (r: Option<BoxState>)
        requires
            self.wf(),
        ensures
            match r {
                Some(st) => has_box(self@.boxes, key@) && ({
                    let bv = self@.boxes[box_at(self@.boxes, key@)];
                    &&& st.name@ == bv.metadata.name
                    &&& st.box_hash@ == bv.hash
                    &&& st.files@.len() == bv.files.len()
                    &&& forall|i: int|
                        0 <= i < st.files@.len() ==> {
                            &&& (#[trigger] st.files@[i]).path@ == bv.metadata.files[i].path
                            &&& st.files@[i].total_pieces == bv.files[i].pieces.len()
                            &&& st.files@[i].pieces_downloaded == crate::file::downloaded_count(
                                bv.files[i].pieces,
                            )
                        }
                }),
                None => !has_box(self@.boxes, key@),
            },
    {
        match self.find_box(key) {
            Some(i) => {
                proof {
                    assert(box_wf(self@.boxes[i as int]));
                }
                Some(self.boxes[i].get_download_state())
            },
            None => None,
        }
    }

    /// A copy of one piece of one file of the box with this identity, iff
    /// the node has the box and the piece is downloaded.
    pub fn read_box_piece(&self, key: &[u8; 24], f: usize, p: usize) -> (r: Option<Vec<u8>>)
        requires
            self.wf(),
        ensures
            match r {
                Some(b) => has_box(self@.boxes, key@) && ({
                    let bv = self@.boxes[box_at(self@.boxes, key@)];
                    &&& f < bv.files.len()
                    &&& has_piece_view(bv.files[f as int], p as int)
                    &&& b@ == window(bv.files[f as int].bytes, p as int)
                }),
                None => !(has_box(self@.boxes, key@) && f < self@.boxes[box_at(
                    self@.boxes,
                    key@,
                )].files.len() && has_piece_view(
                    self@.boxes[box_at(self@.boxes, key@)].files[f as int],
                    p as int,
                )),
            },
    {
        match self.find_box(key) {
            Some(i) => {
                proof {
                    assert(box_wf(self@.boxes[i as int]));
                }
                self.boxes[i].read_file_piece(f, p)
            },
            None => None,
        }
    }

    /// The download progress of every box, in order.
    #[verifier::loop_isolation(false)]
    pub fn all_box_states(&self) -> (r: Vec<BoxState>)
        requires
            self.wf(),
        ensures
            r@.len() == self@.boxes.len(),
            forall|b: int|
                0 <= b < r@.len() ==> {
                    let bv = self@.boxes[b];
                    &&& (#[trigger] r@[b]).name@ == bv.metadata.name
                    &&& r@[b].box_hash@ == bv.hash
                    &&& r@[b].files@.len() == bv.files.len()
                    &&& forall|i: int|
                        0 <= i < r@[b].files@.len() ==> {
                            &&& (#[trigger] r@[b].files@[i]).path@ == bv.metadata.files[i].path
                            &&& r@[b].files@[i].total_pieces == bv.files[i].pieces.len()
                            &&& r@[b].files@[i].pieces_downloaded
                                == crate::file::downloaded_count(bv.files[i].pieces)
                        }
                },
    {
        let mut r: Vec<BoxState> = Vec::new();
        let mut b: usize = 0;
        while b < self.boxes.len()
            invariant
                b <= self.boxes@.len(),
                r@.len() == b,
                forall|b2: int|
                    0 <= b2 < r@.len() ==> {
                        let bv = self@.boxes[b2];
                        &&& (#[trigger] r@[b2]).name@ == bv.metadata.name
                        &&& r@[b2].box_hash@ == bv.hash
                        &&& r@[b2].files@.len() == bv.files.len()
                        &&& forall|i: int|
                            0 <= i < r@[b2].files@.len() ==> {
                                &&& (#[trigger] r@[b2].files@[i]).path@ == bv.metadata.files[i].path
                                &&& r@[b2].files@[i].total_pieces == bv.files[i].pieces.len()
                                &&& r@[b2].files@[i].pieces_downloaded
                                    == crate::file::downloaded_count(bv.files[i].pieces)
                            }
                    },
            decreases self.boxes@.len() - b,
        {
            proof {
                assert(self@.boxes[b as int] == self.boxes@[b as int]@);
                assert(box_wf(self@.boxes[b as int]));
            }
            r.push(self.boxes[b].get_download_state());
            b += 1;
        }
        r
    }

    /// React to one message, exactly as `step` describes.
    #[verifier::loop_isolation(false)]
    pub fn handle_msg(&mut self, from: PeerAddr, message: Message) -> (r: (
        Vec<OutPacket>,
        Option<MaterializeOrder>,
    ))
        requires
            old(self).wf(),
            !is_filtered(old(self)@, from),
        ensures
            final(self).wf(),
            final(self)@ == step(old(self)@, from, message@).state,
            r.0@.map_values(|p: OutPacket| p@) == step(old(self)@, from, message@).out,
            order_view(r.1) == step(old(self)@, from, message@).order,
    {
        let ghost s0 = self@;
        let ghost st = step(s0, from, message@);
        match message {
            Message::SearchingForPeers => {
                self.note_peer(from);
                let mut out: Vec<OutPacket> = Vec::new();
                out.push(OutPacket { dest: from, reliable: true, msg: Message::ImHere });
                proof {
                    assert(out@.map_values(|p: OutPacket| p@) =~= st.out);
                }
                (out, None)
            },
            Message::ImHere => {
                self.note_peer(from);
                let out: Vec<OutPacket> = Vec::new();
                proof {
                    assert(out@.map_values(|p: OutPacket| p@) =~= st.out);
                }
                (out, None)
            },
            Message::FindMetadata(id) => {
                let out = match self.find_box(&id) {
                    Some(i) => {
                        let meta = self.boxes[i].metadata().clone();
                        let mut out: Vec<OutPacket> = Vec::new();
                        out.push(
                            OutPacket {
                                dest: from,
                                reliable: true,
                                msg: Message::GotMetadata(id, meta),
                            },
                        );
                        proof {
                            assert(out@.map_values(|p: OutPacket| p@) =~= st.out);
                        }
                        out
                    },
                    None => {
                        let out: Vec<OutPacket> = Vec::new();
                        proof {
                            assert(out@.map_values(|p: OutPacket| p@) =~= st.out);
                        }
                        out
                    },
                };
                (out, None)
            },
            Message::GotMetadata(id, meta) => {
                match self.find_desire(&id) {
                    Some(i) => {
                        let d = self.looking_for_boxes.remove(i);
                        proof {
                            assert(self@.looking =~= s0.looking.remove(i as int));
                            assert(self@ =~= st.state);
                        }
                        let out: Vec<OutPacket> = Vec::new();
                        proof {
                            assert(out@.map_values(|p: OutPacket| p@) =~= st.out);
                        }
                        (
                            out,
                            Some(MaterializeOrder { hash: id, dir: d.dir, metadata: meta }),
                        )
                    },
                    None => {
                        let out: Vec<OutPacket> = Vec::new();
                        proof {
                            assert(out@.map_values(|p: OutPacket| p@) =~= st.out);
                        }
                        (out, None)
                    },
                }
            },
            Message::FindPiece { id, file_index, piece_index } => {
                let out = match self.find_box(&id) {
                    Some(b) => {
                        if self.boxes[b].has_file_piece(file_index, piece_index) {
                            let mut out: Vec<OutPacket> = Vec::new();
                            out.push(
                                OutPacket {
                                    dest: from,
                                    reliable: true,
                                    msg: Message::GotPiece { id, file_index, piece_index },
                                },
                            );
                            proof {
                                assert(out@.map_values(|p: OutPacket| p@) =~= st.out);
                            }
                            out
                        } else {
                            let out: Vec<OutPacket> = Vec::new();
                            proof {
                                assert(out@.map_values(|p: OutPacket| p@) =~= st.out);
                            }
                            out
                        }
                    },
                    None => {
                        let out: Vec<OutPacket> = Vec::new();
                        proof {
                            assert(out@.map_values(|p: OutPacket| p@) =~= st.out);
                        }
                        out
                    },
                };
                (out, None)
            },
            Message::GotPiece { id, file_index, piece_index } => {
                let out = match self.find_box(&id) {
                    Some(b) => {
                        if file_index < self.boxes[b].file_count() && !self.boxes[b].has_file_piece(
                            file_index,
                            piece_index,
                        ) {
                            let mut out: Vec<OutPacket> = Vec::new();
                            out.push(
                                OutPacket {
                                    dest: from,
                                    reliable: true,
                                    msg: Message::StartDownload { id, file_index, piece_index },
                                },
                            );
                            proof {
                                assert(out@.map_values(|p: OutPacket| p@) =~= st.out);
                            }
                            out
                        } else {
                            let out: Vec<OutPacket> = Vec::new();
                            proof {
                                assert(out@.map_values(|p: OutPacket| p@) =~= st.out);
                            }
                            out
                        }
                    },
                    None => {
                        let out: Vec<OutPacket> = Vec::new();
                        proof {
                            assert(out@.map_values(|p: OutPacket| p@) =~= st.out);
                        }
                        out
                    },
                };
                (out, None)
            },
            Message::StartDownload { id, file_index, piece_index } => {
                let out = match self.find_box(&id) {
                    Some(b) => {
                        proof {
                            assert(box_wf(self@.boxes[b as int]));
                        }
                        match self.boxes[b].read_file_piece(file_index, piece_index) {
                            Some(data) => {
                                let ghost w = window(
                                    s0.boxes[b as int].files[file_index as int].bytes,
                                    piece_index as int,
                                );
                                proof {
                                    assert(data@ == w);
                                    lemma_piece_bounds(
                                        s0.boxes[b as int].files[file_index as int].bytes.len() as int,
                                        piece_index as int,
                                    );
                                    assert(data@.len() <= crate::PIECE_SIZE);
                                }
                                let total = (data.len() + (CHUNK_SIZE - 1)) / CHUNK_SIZE;
                                proof {
                                    assert(total == num_chunks(w.len() as int));
                                    crate::file::lemma_ceil_div(w.len() as int, CHUNK_SIZE as int);
                                }
                                let mut out: Vec<OutPacket> = Vec::new();
                                let mut k: usize = 0;
                                while k < total
                                    invariant
                                        k <= total,
                                        out@.len() == k,
                                        st.out == out@.map_values(|p: OutPacket| p@)
                                            + upload_packets(
                                            from,
                                            id@,
                                            file_index as nat,
                                            piece_index as nat,
                                            w,
                                            k as nat,
                                        ),
                                    decreases total - k,
                                {
                                    let ghost out_pre = out@;
                                    let start = k * CHUNK_SIZE;
                                    let end = if data.len() - start < CHUNK_SIZE {
                                        data.len()
                                    } else {
                                        start + CHUNK_SIZE
                                    };
                                    proof {
                                        assert(start < w.len()) by {
                                            crate::file::lemma_below_ceil(
                                                w.len() as int,
                                                CHUNK_SIZE as int,
                                                k as int,
                                            );
                                            assert((k as int) * (CHUNK_SIZE as int) < w.len())
                                                by (nonlinear_arith)
                                                requires
                                                    0 <= k,
                                                    (k as int) < num_chunks(w.len() as int),
                                                    num_chunks(w.len() as int) * (CHUNK_SIZE as int)
                                                        >= w.len(),
                                                    (num_chunks(w.len() as int) - 1) * (
                                                    CHUNK_SIZE as int) < w.len(),
                                            {
                                            }
                                        }
                                    }
                                    let buf = vstd::slice::slice_to_vec(
                                        vstd::slice::slice_subrange(data.as_slice(), start, end),
                                    );
                                    out.push(
                                        OutPacket {
                                            dest: from,
                                            reliable: true,
                                            msg: Message::Upload {
                                                id,
                                                file_index,
                                                piece_index,
                                                chunk_index: k,
                                                buf,
                                            },
                                        },
                                    );
                                    proof {
                                        let kk = k as nat;
                                        assert(upload_packets(
                                            from,
                                            id@,
                                            file_index as nat,
                                            piece_index as nat,
                                            w,
                                            kk,
                                        ) == seq![out@[out@.len() - 1]@] + upload_packets(
                                            from,
                                            id@,
                                            file_index as nat,
                                            piece_index as nat,
                                            w,
                                            kk + 1,
                                        )) by {
                                            assert(buf@ =~= w.subrange(
                                                (kk * (CHUNK_SIZE as nat)) as int,
                                                if (kk + 1) * (CHUNK_SIZE as nat) <= w.len() {
                                                    ((kk + 1) * (CHUNK_SIZE as nat)) as int
                                                } else {
                                                    w.len() as int
                                                },
                                            ));
                                        }
                                        assert(out@.map_values(|p: OutPacket| p@)
                                            =~= out_pre.map_values(|p: OutPacket| p@).push(
                                            out@[out@.len() - 1]@,
                                        ));
                                        let up_next = upload_packets(
                                            from,
                                            id@,
                                            file_index as nat,
                                            piece_index as nat,
                                            w,
                                            kk + 1,
                                        );
                                        assert(out_pre.map_values(|p: OutPacket| p@).push(
                                            out@[out@.len() - 1]@,
                                        ) + up_next =~= out_pre.map_values(|p: OutPacket| p@) + (
                                        seq![out@[out@.len() - 1]@] + up_next));
                                    }
                                    k += 1;
                                }
                                proof {
                                    assert(upload_packets(
                                        from,
                                        id@,
                                        file_index as nat,
                                        piece_index as nat,
                                        w,
                                        total as nat,
                                    ) =~= Seq::<OutPacketView>::empty());
                                    assert(out@.map_values(|p: OutPacket| p@)
                                        + Seq::<OutPacketView>::empty() =~= out@.map_values(
                                        |p: OutPacket| p@,
                                    ));
                                }
                                out
                            },
                            None => {
                                let out: Vec<OutPacket> = Vec::new();
                                proof {
                                    assert(out@.map_values(|p: OutPacket| p@) =~= st.out);
                                }
                                out
                            },
                        }
                    },
                    None => {
                        let out: Vec<OutPacket> = Vec::new();
                        proof {
                            assert(out@.map_values(|p: OutPacket| p@) =~= st.out);
                        }
                        out
                    },
                };
                (out, None)
            },
            Message::Upload { id, file_index, piece_index, chunk_index, buf } => {
                match self.find_box(&id) {
                    Some(b) => {
                        let fc = self.boxes[b].file_count();
                        if file_index < fc && !self.boxes[b].has_file_piece(
                            file_index,
                            piece_index,
                        ) {
                            proof {
                                assert(box_wf(self@.boxes[b as int]));
                            }
                            let mut bx = self.boxes.remove(b);
                            proof {
                                assert(s0.boxes[b as int] == bx@);
                            }
                            let _accepted = bx.write_file_chunk(
                                file_index,
                                piece_index,
                                chunk_index,
                                buf.as_slice(),
                            );
                            self.boxes.insert(b, bx);
                            proof {
                                assert(self@.boxes =~= s0.boxes.update(b as int, bx@));
                                assert(self@ =~= st.state);
                                assert forall|x: int, y: int|
                                    0 <= x < y < self@.boxes.len() implies (
                                #[trigger] self@.boxes[x]).hash != (#[trigger] self@.boxes[y]).hash by {
                                    assert(self@.boxes[x].hash == s0.boxes[x].hash);
                                    assert(self@.boxes[y].hash == s0.boxes[y].hash);
                                }
                            }
                        }
                    },
                    None => {},
                }
                let out: Vec<OutPacket> = Vec::new();
                proof {
                    assert(out@.map_values(|p: OutPacket| p@) =~= st.out);
                }
                (out, None)
            },
        }
    }

    /// Dispatch one raw packet: drop it when its source IP is the filtered
    /// one or it does not decode; otherwise react as `step` describes.
    pub fn handle_packet(&mut self, from: PeerAddr, payload: &[u8]) -> (r: (
        Vec<OutPacket>,
        Option<MaterializeOrder>,
    ))
        requires
            old(self).wf(),
        ensures
            final(self).wf(),
            ({
                let dropped = is_filtered(old(self)@, from) || message_decoded(payload@) is None;
                if dropped {
                    &&& final(self)@ == old(self)@
                    &&& r.0@.len() == 0
                    &&& r.1 is None
                } else {
                    let st = step(old(self)@, from, message_decoded(payload@).unwrap());
                    &&& final(self)@ == st.state
                    &&& r.0@.map_values(|p: OutPacket| p@) == st.out
                    &&& order_view(r.1) == st.order
                }
            }),
    {
        let filtered = match &self.filter_from {
            Some(ip) => *ip == from.ip,
            None => false,
        };
        if filtered {
            return (Vec::new(), None);
        }
        match crate::codec::decode_message(payload) {
            Some(m) => self.handle_msg(from, m),
            None => (Vec::new(), None),
        }
    }

    /// Ask every known peer for the metadata of every box still desired:
    /// one `FindMetadata` per desire-and-peer pair.
    #[verifier::loop_isolation(false)]
    pub fn search_for_metadata(&self) -> (r: Vec<OutPacket>)
        ensures
            r@.len() == self@.looking.len() * self@.peers.len(),
            forall|k: int|
                0 <= k < r@.len() ==> (#[trigger] r@[k])@ == (OutPacketView {
                    dest: self@.peers[k % (self@.peers.len() as int)],
                    reliable: true,
                    msg: MessageView::FindMetadata {
                        id: self@.looking[k / (self@.peers.len() as int)].0,
                    },
                }),
    {
        let plen = self.peers.len();
        let llen = self.looking_for_boxes.len();
        let mut r: Vec<OutPacket> = Vec::new();
        let mut a: usize = 0;
        while a < llen
            invariant
                a <= llen,
                r@.len() == a * plen,
                forall|k: int|
                    0 <= k < r@.len() ==> (#[trigger] r@[k])@ == (OutPacketView {
                        dest: self@.peers[k % (plen as int)],
                        reliable: true,
                        msg: MessageView::FindMetadata {
                            id: self@.looking[k / (plen as int)].0,
                        },
                    }),
            decreases llen - a,
        {
            let id = self.looking_for_boxes[a].hash;
            let mut b: usize = 0;
            while b < plen
                invariant
                    b <= plen,
                    r@.len() == a * plen + b,
                    id@ == self@.looking[a as int].0,
                    forall|k: int|
                        0 <= k < r@.len() ==> (#[trigger] r@[k])@ == (OutPacketView {
                            dest: self@.peers[k % (plen as int)],
                            reliable: true,
                            msg: MessageView::FindMetadata {
                                id: self@.looking[k / (plen as int)].0,
                            },
                        }),
                decreases plen - b,
            {
                r.push(
                    OutPacket {
                        dest: self.peers[b],
                        reliable: true,
                        msg: Message::FindMetadata(id),
                    },
                );
                proof {
                    vstd::arithmetic::div_mod::lemma_fundamental_div_mod_converse(
                        (a * plen + b) as int,
                        plen as int,
                        a as int,
                        b as int,
                    );
                }
                b += 1;
            }
            proof {
                assert((a + 1) * plen == a * plen + plen) by (nonlinear_arith);
            }
            a += 1;
        }
        r
    }

    /// Ask every known peer for every piece still missing from every local
    /// box.  Every emitted packet asks a known peer for a piece the node
    /// lacks, every such piece is asked of every peer, and no packet is
    /// emitted twice.
    #[verifier::loop_isolation(false)]
    pub fn search_for_pieces(&self) -> (r: Vec<OutPacket>)
        requires
            self.wf(),
        ensures
            forall|k: int|
                0 <= k < r@.len() ==> {
                    let p = (#[trigger] r@[k])@;
                    &&& p.reliable
                    &&& self@.peers.contains(p.dest)
                    &&& match p.msg {
                        MessageView::FindPiece { id, file_index, piece_index } => {
                            &&& has_box(self@.boxes, id)
                            &&& file_index < self@.boxes[box_at(self@.boxes, id)].files.len()
                            &&& piece_index < self@.boxes[box_at(self@.boxes, id)].files[
                                file_index as int
                            ].pieces.len()
                            &&& !has_piece_view(
                                self@.boxes[box_at(self@.boxes, id)].files[file_index as int],
                                piece_index as int,
                            )
                        },
                        _ => false,
                    }
                },
            forall|bi: int, fi: int, pi: int, pj: int|
                #![trigger self@.boxes[bi].files[fi].pieces[pi], self@.peers[pj]]
                0 <= bi < self@.boxes.len() && 0 <= fi < self@.boxes[bi].files.len() && 0 <= pi
                    < self@.boxes[bi].files[fi].pieces.len() && !(self@.boxes[bi].files[fi].pieces[
                    pi
                ].state is Downloaded) && 0 <= pj < self@.peers.len() ==> exists|k: int|
                    0 <= k < r@.len() && (#[trigger] r@[k])@ == (OutPacketView {
                        dest: self@.peers[pj],
                        reliable: true,
                        msg: MessageView::FindPiece {
                            id: self@.boxes[bi].hash,
                            file_index: fi as nat,
                            piece_index: pi as nat,
                        },
                    }),
            forall|k1: int, k2: int| 0 <= k1 < k2 < r@.len() ==> (#[trigger] r@[k1])@ != (#[trigger] r@[k2])@,
    {
        let mut r: Vec<OutPacket> = Vec::new();
        let nb = self.boxes.len();
        let mut bi: usize = 0;
        while bi < nb
            invariant
                bi <= nb,
                forall|k1: int, k2: int| 0 <= k1 < k2 < r@.len() ==> (#[trigger] r@[k1])@ != (#[trigger] r@[k2])@,
                forall|k: int| 0 <= k < r@.len() ==> sweep_pos(self@, (#[trigger] r@[k])@, bi as int, 0, 0, 0),
                forall|k: int|
                    0 <= k < r@.len() ==> {
                        let p = (#[trigger] r@[k])@;
                        &&& p.reliable
                        &&& self@.peers.contains(p.dest)
                        &&& match p.msg {
                            MessageView::FindPiece { id, file_index, piece_index } => {
                                &&& has_box(self@.boxes, id)
                                &&& file_index < self@.boxes[box_at(self@.boxes, id)].files.len()
                                &&& piece_index < self@.boxes[box_at(self@.boxes, id)].files[
                                    file_index as int
                                ].pieces.len()
                                &&& !has_piece_view(
                                    self@.boxes[box_at(self@.boxes, id)].files[file_index as int],
                                    piece_index as int,
                                )
                            },
                            _ => false,
                        }
                    },
                forall|b2: int, fi: int, pi: int, pj: int|
                    #![trigger self@.boxes[b2].files[fi].pieces[pi], self@.peers[pj]]
                    0 <= b2 < bi && 0 <= fi < self@.boxes[b2].files.len() && 0 <= pi
                        < self@.boxes[b2].files[fi].pieces.len() && !(self@.boxes[b2].files[
                        fi
                    ].pieces[pi].state is Downloaded) && 0 <= pj < self@.peers.len() ==> exists|
                        k: int,
                    |
                        0 <= k < r@.len() && (#[trigger] r@[k])@ == (OutPacketView {
                            dest: self@.peers[pj],
                            reliable: true,
                            msg: MessageView::FindPiece {
                                id: self@.boxes[b2].hash,
                                file_index: fi as nat,
                                piece_index: pi as nat,
                            },
                        }),
            decreases nb - bi,
        {
            let id = self.boxes[bi].box_hash();
            proof {
                assert((#[trigger] self@.boxes[bi as int]).hash == id@);
                assert(has_box(self@.boxes, id@));
                let w = box_at(self@.boxes, id@);
                assert(0 <= w < self@.boxes.len() && self@.boxes[w].hash == id@);
                if w < bi as int {
                    assert(false);
                }
                if w > bi as int {
                    assert(false);
                }
            }
            let nf = self.boxes[bi].file_count();
            let mut fi: usize = 0;
            while fi < nf
                invariant
                    fi <= nf,
                    forall|k1: int, k2: int| 0 <= k1 < k2 < r@.len() ==> (#[trigger] r@[k1])@ != (#[trigger] r@[k2])@,
                    forall|k: int| 0 <= k < r@.len() ==> sweep_pos(self@, (#[trigger] r@[k])@, bi as int, fi as int, 0, 0),
                    forall|k: int|
                        0 <= k < r@.len() ==> {
                            let p = (#[trigger] r@[k])@;
                            &&& p.reliable
                            &&& self@.peers.contains(p.dest)
                            &&& match p.msg {
                                MessageView::FindPiece { id: id2, file_index, piece_index } => {
                                    &&& has_box(self@.boxes, id2)
                                    &&& file_index < self@.boxes[box_at(
                                        self@.boxes,
                                        id2,
                                    )].files.len()
                                    &&& piece_index < self@.boxes[box_at(self@.boxes, id2)].files[
                                        file_index as int
                                    ].pieces.len()
                                    &&& !has_piece_view(
                                        self@.boxes[box_at(self@.boxes, id2)].files[
                                            file_index as int
                                        ],
                                        piece_index as int,
                                    )
                                },
                                _ => false,
                            }
                        },
                    forall|b2: int, f2: int, pi: int, pj: int|
                        #![trigger self@.boxes[b2].files[f2].pieces[pi], self@.peers[pj]]
                        0 <= b2 < bi && 0 <= f2 < self@.boxes[b2].files.len() && 0 <= pi
                            < self@.boxes[b2].files[f2].pieces.len() && !(self@.boxes[b2].files[
                            f2
                        ].pieces[pi].state is Downloaded) && 0 <= pj < self@.peers.len() ==> exists|
                            k: int,
                        |
                            0 <= k < r@.len() && (#[trigger] r@[k])@ == (OutPacketView {
                                dest: self@.peers[pj],
                                reliable: true,
                                msg: MessageView::FindPiece {
                                    id: self@.boxes[b2].hash,
                                    file_index: f2 as nat,
                                    piece_index: pi as nat,
                                },
                            }),
                    forall|f2: int, pi: int, pj: int|
                        #![trigger self@.boxes[bi as int].files[f2].pieces[pi], self@.peers[pj]]
                        0 <= f2 < fi && 0 <= pi < self@.boxes[bi as int].files[f2].pieces.len()
                            && !(self@.boxes[bi as int].files[f2].pieces[pi].state is Downloaded)
                            && 0 <= pj < self@.peers.len() ==> exists|k: int|
                            0 <= k < r@.len() && (#[trigger] r@[k])@ == (OutPacketView {
                                dest: self@.peers[pj],
                                reliable: true,
                                msg: MessageView::FindPiece {
                                    id: self@.boxes[bi as int].hash,
                                    file_index: f2 as nat,
                                    piece_index: pi as nat,
                                },
                            }),
                decreases nf - fi,
            {
                let np = self.boxes[bi].file_piece_count(fi);
                let mut pi: usize = 0;
                while pi < np
                    invariant
                        pi <= np,
                        forall|k1: int, k2: int| 0 <= k1 < k2 < r@.len() ==> (#[trigger] r@[k1])@ != (#[trigger] r@[k2])@,
                        forall|k: int| 0 <= k < r@.len() ==> sweep_pos(self@, (#[trigger] r@[k])@, bi as int, fi as int, pi as int, 0),
                        forall|k: int|
                            0 <= k < r@.len() ==> {
                                let p = (#[trigger] r@[k])@;
                                &&& p.reliable
                                &&& self@.peers.contains(p.dest)
                                &&& match p.msg {
                                    MessageView::FindPiece { id: id2, file_index, piece_index } => {
                                        &&& has_box(self@.boxes, id2)
                                        &&& file_index < self@.boxes[box_at(
                                            self@.boxes,
                                            id2,
                                        )].files.len()
                                        &&& piece_index < self@.boxes[box_at(
                                            self@.boxes,
                                            id2,
                                        )].files[file_index as int].pieces.len()
                                        &&& !has_piece_view(
                                            self@.boxes[box_at(self@.boxes, id2)].files[
                                                file_index as int
                                            ],
                                            piece_index as int,
                                        )
                                    },
                                    _ => false,
                                }
                            },
                        forall|b2: int, f2: int, p2: int, pj: int|
                            #![trigger self@.boxes[b2].files[f2].pieces[p2], self@.peers[pj]]
                            0 <= b2 < bi && 0 <= f2 < self@.boxes[b2].files.len() && 0 <= p2
                                < self@.boxes[b2].files[f2].pieces.len() && !(self@.boxes[b2].files[
                                f2
                            ].pieces[p2].state is Downloaded) && 0 <= pj < self@.peers.len()
                                ==> exists|k: int|
                                0 <= k < r@.len() && (#[trigger] r@[k])@ == (OutPacketView {
                                    dest: self@.peers[pj],
                                    reliable: true,
                                    msg: MessageView::FindPiece {
                                        id: self@.boxes[b2].hash,
                                        file_index: f2 as nat,
                                        piece_index: p2 as nat,
                                    },
                                }),
                        forall|f2: int, p2: int, pj: int|
                            #![trigger self@.boxes[bi as int].files[f2].pieces[p2], self@.peers[pj]]
                            0 <= f2 < fi && 0 <= p2 < self@.boxes[bi as int].files[f2].pieces.len()
                                && !(self@.boxes[bi as int].files[f2].pieces[p2].state
                                is Downloaded) && 0 <= pj < self@.peers.len() ==> exists|k: int|
                                0 <= k < r@.len() && (#[trigger] r@[k])@ == (OutPacketView {
                                    dest: self@.peers[pj],
                                    reliable: true,
                                    msg: MessageView::FindPiece {
                                        id: self@.boxes[bi as int].hash,
                                        file_index: f2 as nat,
                                        piece_index: p2 as nat,
                                    },
                                }),
                        forall|p2: int, pj: int|
                            #![trigger self@.boxes[bi as int].files[fi as int].pieces[p2], self@.peers[pj]]
                            0 <= p2 < pi && !(self@.boxes[bi as int].files[fi as int].pieces[
                                p2
                            ].state is Downloaded) && 0 <= pj < self@.peers.len() ==> exists|k: int|
                                0 <= k < r@.len() && (#[trigger] r@[k])@ == (OutPacketView {
                                    dest: self@.peers[pj],
                                    reliable: true,
                                    msg: MessageView::FindPiece {
                                        id: self@.boxes[bi as int].hash,
                                        file_index: fi as nat,
                                        piece_index: p2 as nat,
                                    },
                                }),
                    decreases np - pi,
                {
                    if !self.boxes[bi].has_file_piece(fi, pi) {
                        let npeers = self.peers.len();
                        let mut pj: usize = 0;
                        while pj < npeers
                            invariant
                                pj <= npeers,
                                forall|k1: int, k2: int| 0 <= k1 < k2 < r@.len() ==> (#[trigger] r@[k1])@ != (#[trigger] r@[k2])@,
                                forall|k: int| 0 <= k < r@.len() ==> sweep_pos(self@, (#[trigger] r@[k])@, bi as int, fi as int, pi as int, pj as int),
                                npeers == self@.peers.len(),
                                forall|k: int|
                                    0 <= k < r@.len() ==> {
                                        let p = (#[trigger] r@[k])@;
                                        &&& p.reliable
                                        &&& self@.peers.contains(p.dest)
                                        &&& match p.msg {
                                            MessageView::FindPiece {
                                                id: id2,
                                                file_index,
                                                piece_index,
                                            } => {
                                                &&& has_box(self@.boxes, id2)
                                                &&& file_index < self@.boxes[box_at(
                                                    self@.boxes,
                                                    id2,
                                                )].files.len()
                                                &&& piece_index < self@.boxes[box_at(
                                                    self@.boxes,
                                                    id2,
                                                )].files[file_index as int].pieces.len()
                                                &&& !has_piece_view(
                                                    self@.boxes[box_at(self@.boxes, id2)].files[
                                                        file_index as int
                                                    ],
                                                    piece_index as int,
                                                )
                                            },
                                            _ => false,
                                        }
                                    },
                                forall|b2: int, f2: int, p2: int, pj2: int|
                                    #![trigger self@.boxes[b2].files[f2].pieces[p2], self@.peers[pj2]]
                                    0 <= b2 < bi && 0 <= f2 < self@.boxes[b2].files.len() && 0 <= p2
                                        < self@.boxes[b2].files[f2].pieces.len() && !(
                                    self@.boxes[b2].files[f2].pieces[p2].state is Downloaded) && 0
                                        <= pj2 < self@.peers.len() ==> exists|k: int|
                                        0 <= k < r@.len() && (#[trigger] r@[k])@ == (OutPacketView {
                                            dest: self@.peers[pj2],
                                            reliable: true,
                                            msg: MessageView::FindPiece {
                                                id: self@.boxes[b2].hash,
                                                file_index: f2 as nat,
                                                piece_index: p2 as nat,
                                            },
                                        }),
                                forall|f2: int, p2: int, pj2: int|
                                    #![trigger self@.boxes[bi as int].files[f2].pieces[p2], self@.peers[pj2]]
                                    0 <= f2 < fi && 0 <= p2 < self@.boxes[bi as int].files[
                                        f2
                                    ].pieces.len() && !(self@.boxes[bi as int].files[f2].pieces[
                                        p2
                                    ].state is Downloaded) && 0 <= pj2 < self@.peers.len()
                                        ==> exists|k: int|
                                        0 <= k < r@.len() && (#[trigger] r@[k])@ == (OutPacketView {
                                            dest: self@.peers[pj2],
                                            reliable: true,
                                            msg: MessageView::FindPiece {
                                                id: self@.boxes[bi as int].hash,
                                                file_index: f2 as nat,
                                                piece_index: p2 as nat,
                                            },
                                        }),
                                forall|p2: int, pj2: int|
                                    #![trigger self@.boxes[bi as int].files[fi as int].pieces[p2], self@.peers[pj2]]
                                    0 <= p2 < pi && !(self@.boxes[bi as int].files[fi as int].pieces[
                                        p2
                                    ].state is Downloaded) && 0 <= pj2 < self@.peers.len()
                                        ==> exists|k: int|
                                        0 <= k < r@.len() && (#[trigger] r@[k])@ == (OutPacketView {
                                            dest: self@.peers[pj2],
                                            reliable: true,
                                            msg: MessageView::FindPiece {
                                                id: self@.boxes[bi as int].hash,
                                                file_index: fi as nat,
                                                piece_index: p2 as nat,
                                            },
                                        }),
                                forall|pj2: int|
                                    #![trigger self@.peers[pj2]]
                                    0 <= pj2 < pj ==> exists|k: int|
                                        0 <= k < r@.len() && (#[trigger] r@[k])@ == (OutPacketView {
                                            dest: self@.peers[pj2],
                                            reliable: true,
                                            msg: MessageView::FindPiece {
                                                id: self@.boxes[bi as int].hash,
                                                file_index: fi as nat,
                                                piece_index: pi as nat,
                                            },
                                        }),
                            decreases npeers - pj,
                        {
                            let ghost r_pre = r@;
                            r.push(
                                OutPacket {
                                    dest: self.peers[pj],
                                    reliable: true,
                                    msg: Message::FindPiece {
                                        id,
                                        file_index: fi,
                                        piece_index: pi,
                                    },
                                },
                            );
                            proof {
                                assert(forall|k: int| 0 <= k < r_pre.len() ==> r@[k] == r_pre[k]);
                                let pkt = r@[r@.len() - 1]@;
                                assert(self@.peers[pj as int] == pkt.dest);
                                assert(self@.peers.contains(self@.peers[pj as int]));
                                // The new packet differs from every earlier
                                // one: every earlier packet sits strictly
                                // before this sweep position.
                                assert forall|k: int| 0 <= k < r_pre.len() implies r@[k]@ != pkt by {
                                    assert(sweep_pos(
                                        self@,
                                        r@[k]@,
                                        bi as int,
                                        fi as int,
                                        pi as int,
                                        pj as int,
                                    ));
                                    match r@[k]@.msg {
                                        MessageView::FindPiece { id: id2, file_index: f2, piece_index: p2 } => {
                                            let b2 = box_at(self@.boxes, id2);
                                            if b2 < bi as int {
                                                assert(self@.boxes[b2].hash != self@.boxes[
                                                    bi as int
                                                ].hash);
                                            } else if b2 == bi as int && f2 == fi as nat && p2
                                                == pi as nat {
                                                let j = choose|j: int|
                                                    0 <= j < pj && self@.peers[j] == r@[k]@.dest;
                                                assert(self@.peers[j] != self@.peers[pj as int]);
                                            }
                                        },
                                        _ => {},
                                    }
                                }
                                // And it sits before the next position.
                                assert(self@.peers[pj as int] == pkt.dest);
                                assert(sweep_pos(
                                    self@,
                                    pkt,
                                    bi as int,
                                    fi as int,
                                    pi as int,
                                    pj + 1,
                                ));
                            }
                            pj += 1;
                        }
                    }
                    pi += 1;
                }
                fi += 1;
            }
            bi += 1;
        }
        r
    }
}

} // verus!
