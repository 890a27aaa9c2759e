//! The peer wire protocol: the handshake, message framing, the peer's
//! state as its messages arrive, and the download of one chunk in blocks.
use vstd::prelude::*;
use vstd::utf8::{decode_utf8, encode_utf8, valid_utf8};

use crate::digest::{sha1_digest, sha1_of};
use crate::metainfo::{consistent, spec_chunk_length, Info};
use crate::text::utf8_string;
use crate::wire::{
    be_bytes, be_value, lemma_be_round_trip, pow256, push_u32, push_u8s, read_u32, FromByte, ToByte,
};
use crate::Error;

verus! {

/// The request granularity: 16 KiB blocks.
pub const BLOCK_SIZE: u32 = 16384;

/// The length of a handshake.
pub const HANDSHAKE_LEN: usize = 68;

/// `BitTorrent protocol`.
pub open spec fn protocol_name() -> Seq<u8> {
    seq![66u8, 105, 116, 84, 111, 114, 114, 101, 110, 116, 32, 112, 114, 111, 116, 111, 99, 111, 108]
}

/// The handshake that a peer opens with: the protocol name with its length,
/// eight reserved bytes, the content identifier and the peer identifier.
#[derive(Debug)]
pub struct PeerHandshake {
    pub pstr: String,
    pub reserved: [u8; 8],
    pub info_hash: [u8; 20],
    pub peer_id: [u8; 20],
}

impl ToByte for PeerHandshake {
    open spec fn wire(&self) -> Seq<u8> {
        seq![encode_utf8(self.pstr@).len() as u8] + encode_utf8(self.pstr@) + self.reserved@
            + self.info_hash@ + self.peer_id@
    }

    fn to_be_bytes(&self) -> (r: Vec<u8>) {
        let mut buf: Vec<u8> = Vec::new();
        let p = self.pstr.as_str().as_bytes();
        buf.push(p.len() as u8);
        push_u8s(&mut buf, p);
        push_u8s(&mut buf, self.reserved.as_slice());
        push_u8s(&mut buf, self.info_hash.as_slice());
        push_u8s(&mut buf, self.peer_id.as_slice());
        assert(buf@ =~= self.wire());
        buf
    }
}

/// A handshake read back: its length byte, a UTF-8 protocol name of that
/// length, and 48 more bytes; trailing bytes are not read.
pub open spec fn spec_handshake(b: Seq<u8>) -> Option<(Seq<char>, Seq<u8>, Seq<u8>, Seq<u8>)> {
    if b.len() < 1 || b.len() < 49 + b[0] {
        None
    } else {
        let n = b[0] as int;
        let name = b.subrange(1, 1 + n);
        if valid_utf8(name) {
            Some(
                (
                    decode_utf8(name),
                    b.subrange(1 + n, 9 + n),
                    b.subrange(9 + n, 29 + n),
                    b.subrange(29 + n, 49 + n),
                ),
            )
        } else {
            None
        }
    }
}

fn copy_array<const N: usize>(b: &[u8], at: usize) -> (r: [u8; N])
    requires
        at + N <= b.len(),
    ensures
        r@ == b@.subrange(at as int, at + N),
{
    let mut r: [u8; N] = [0u8; N];
    let mut k: usize = 0;
    while k < N
        invariant
            at + N <= b.len(),
            k <= N,
            r@.len() == N,
            forall|m: int| 0 <= m < k ==> r@[m] == b@[at + m],
        decreases N - k,
    {
        r[k] = b[at + k];
        k = k + 1;
    }
    assert(r@ =~= b@.subrange(at as int, at + N));
    r
}

impl FromByte for PeerHandshake {
    open spec fn read_as(bytes: Seq<u8>, r: Option<Self>) -> bool {
        match r {
            Some(h) => spec_handshake(bytes) == Some(
                (h.pstr@, h.reserved@, h.info_hash@, h.peer_id@),
            ),
            None => spec_handshake(bytes) is None,
        }
    }

    fn from_be_bytes(bytes: &[u8]) -> (r: Option<Self>) {
        if bytes.len() < 49 || bytes.len() - 49 < bytes[0] as usize {
            return None;
        }
        let n = bytes[0] as usize;
        let name = vstd::slice::slice_to_vec(vstd::slice::slice_subrange(bytes, 1, 1 + n));
        let pstr = match utf8_string(name) {
            Some(p) => p,
            None => {
                return None;
            },
        };
        let reserved: [u8; 8] = copy_array(bytes, 1 + n);
        let info_hash: [u8; 20] = copy_array(bytes, 9 + n);
        let peer_id: [u8; 20] = copy_array(bytes, 29 + n);
        Some(PeerHandshake { pstr, reserved, info_hash, peer_id })
    }
}

/// The handshake that this client sends: `19`, `BitTorrent protocol`, eight
/// zero bytes, the content identifier, our peer identifier.
pub open spec fn spec_handshake_bytes(info_hash: Seq<u8>, peer_id: Seq<u8>) -> Seq<u8> {
    seq![19u8] + protocol_name() + Seq::new(8, |k: int| 0u8) + info_hash + peer_id
}

pub fn handshake_bytes(info_hash: &[u8; 20], peer_id: &[u8; 20]) -> (r: Vec<u8>)
    ensures
        r@ == spec_handshake_bytes(info_hash@, peer_id@),
        r@.len() == HANDSHAKE_LEN,
{
    let name: [u8; 19] = [
        66, 105, 116, 84, 111, 114, 114, 101, 110, 116, 32, 112, 114, 111, 116, 111, 99, 111, 108,
    ];
    let zeros: [u8; 8] = [0; 8];
    assert(name@ =~= protocol_name());
    assert(zeros@ =~= Seq::new(8, |k: int| 0u8));
    let mut buf: Vec<u8> = Vec::new();
    buf.push(19);
    push_u8s(&mut buf, name.as_slice());
    push_u8s(&mut buf, zeros.as_slice());
    push_u8s(&mut buf, info_hash.as_slice());
    push_u8s(&mut buf, peer_id.as_slice());
    assert(buf@ =~= spec_handshake_bytes(info_hash@, peer_id@));
    buf
}

/// The outcome of checking a peer's handshake reply against our content
/// identifier: its peer identifier, or why it is refused.
pub open spec fn spec_check_handshake(reply: Seq<u8>, info_hash: Seq<u8>) -> Result<Seq<u8>, Error> {
    if reply.len() != HANDSHAKE_LEN || reply[0] != 19 || reply.subrange(1, 20) != protocol_name() {
        Err(Error::HandshakeFailure)
    } else if reply.subrange(28, 48) != info_hash {
        Err(Error::IdentifierMismatch)
    } else {
        Ok(reply.subrange(48, 68))
    }
}

/// Checks a 68-byte handshake reply; gives the remote peer identifier.
pub fn check_handshake(reply: &[u8], info_hash: &[u8; 20]) -> (r: Result<[u8; 20], Error>)
    ensures
        match r {
            Ok(id) => spec_check_handshake(reply@, info_hash@) == Ok::<Seq<u8>, Error>(id@),
            Err(e) => spec_check_handshake(reply@, info_hash@) == Err::<Seq<u8>, Error>(e),
        },
{
    let name: [u8; 19] = [
        66, 105, 116, 84, 111, 114, 114, 101, 110, 116, 32, 112, 114, 111, 116, 111, 99, 111, 108,
    ];
    assert(name@ =~= protocol_name());
    if reply.len() != HANDSHAKE_LEN || reply[0] != 19 {
        return Err(Error::HandshakeFailure);
    }
    let mut k: usize = 0;
    while k < 19
        invariant
            reply.len() == HANDSHAKE_LEN,
            name@ == protocol_name(),
            k <= 19,
            forall|m: int| 0 <= m < k ==> reply@[1 + m] == name@[m],
        decreases 19 - k,
    {
        if reply[1 + k] != name[k] {
            assert(reply@.subrange(1, 20)[k as int] != protocol_name()[k as int]);
            return Err(Error::HandshakeFailure);
        }
        k = k + 1;
    }
    assert(reply@.subrange(1, 20) =~= protocol_name());
    let mut k: usize = 0;
    while k < 20
        invariant
            reply.len() == HANDSHAKE_LEN,
            reply@[0] == 19,
            reply@.subrange(1, 20) == protocol_name(),
            k <= 20,
            forall|m: int| 0 <= m < k ==> reply@[28 + m] == info_hash@[m],
        decreases 20 - k,
    {
        if reply[28 + k] != info_hash[k] {
            assert(reply@.subrange(28, 48)[k as int] != info_hash@[k as int]);
            return Err(Error::IdentifierMismatch);
        }
        k = k + 1;
    }
    assert(reply@.subrange(28, 48) =~= info_hash@);
    Ok(copy_array(reply, 48))
}

/// Checking the same handshake reply twice gives the same outcome.
pub proof fn lemma_handshake_check_idempotent(reply: Seq<u8>, info_hash: Seq<u8>, again: Seq<u8>)
    requires
        again == reply,
    ensures
        spec_check_handshake(again, info_hash) == spec_check_handshake(reply, info_hash),
{
}

/// The kinds of peer messages; a keep-alive has no id on the wire.
#[derive(Copy, Clone, Debug, PartialEq, Eq, Structural)]
pub enum PeerMessageID {
    KeepAlive,
    Choke,
    Unchoke,
    Interested,
    NotInterested,
    Have,
    Bitfield,
    Request,
    Piece,
    Cancel,
    Port,
}

/// The id byte of each kind.
pub open spec fn id_byte(id: PeerMessageID) -> u8 {
    match id {
        PeerMessageID::KeepAlive => 0,
        PeerMessageID::Choke => 0,
        PeerMessageID::Unchoke => 1,
        PeerMessageID::Interested => 2,
        PeerMessageID::NotInterested => 3,
        PeerMessageID::Have => 4,
        PeerMessageID::Bitfield => 5,
        PeerMessageID::Request => 6,
        PeerMessageID::Piece => 7,
        PeerMessageID::Cancel => 8,
        PeerMessageID::Port => 9,
    }
}

/// The kind of an id byte, for the ten that the protocol defines.
pub open spec fn id_of_byte(b: u8) -> Option<PeerMessageID> {
    if b == 0 {
        Some(PeerMessageID::Choke)
    } else if b == 1 {
        Some(PeerMessageID::Unchoke)
    } else if b == 2 {
        Some(PeerMessageID::Interested)
    } else if b == 3 {
        Some(PeerMessageID::NotInterested)
    } else if b == 4 {
        Some(PeerMessageID::Have)
    } else if b == 5 {
        Some(PeerMessageID::Bitfield)
    } else if b == 6 {
        Some(PeerMessageID::Request)
    } else if b == 7 {
        Some(PeerMessageID::Piece)
    } else if b == 8 {
        Some(PeerMessageID::Cancel)
    } else if b == 9 {
        Some(PeerMessageID::Port)
    } else {
        None
    }
}

fn id_from_byte(b: u8) -> (r: Option<PeerMessageID>)
    ensures
        r == id_of_byte(b),
{
    match b {
        0 => Some(PeerMessageID::Choke),
        1 => Some(PeerMessageID::Unchoke),
        2 => Some(PeerMessageID::Interested),
        3 => Some(PeerMessageID::NotInterested),
        4 => Some(PeerMessageID::Have),
        5 => Some(PeerMessageID::Bitfield),
        6 => Some(PeerMessageID::Request),
        7 => Some(PeerMessageID::Piece),
        8 => Some(PeerMessageID::Cancel),
        9 => Some(PeerMessageID::Port),
        _ => None,
    }
}

fn id_to_byte(id: PeerMessageID) -> (r: u8)
    ensures
        r == id_byte(id),
{
    match id {
        PeerMessageID::KeepAlive => 0,
        PeerMessageID::Choke => 0,
        PeerMessageID::Unchoke => 1,
        PeerMessageID::Interested => 2,
        PeerMessageID::NotInterested => 3,
        PeerMessageID::Have => 4,
        PeerMessageID::Bitfield => 5,
        PeerMessageID::Request => 6,
        PeerMessageID::Piece => 7,
        PeerMessageID::Cancel => 8,
        PeerMessageID::Port => 9,
    }
}

/// A peer message: its kind, its length prefix, and its payload.
#[derive(Debug)]
pub struct PeerMessage {
    pub id: PeerMessageID,
    pub length: u32,
    pub payload: Vec<u8>,
}

/// The model of a peer message.
pub struct MessageModel {
    pub id: PeerMessageID,
    pub length: nat,
    pub payload: Seq<u8>,
}

impl View for PeerMessage {
    type V = MessageModel;

    open spec fn view(&self) -> MessageModel {
        MessageModel { id: self.id, length: self.length as nat, payload: self.payload@ }
    }
}

/// A message is well formed when its length prefix counts its id byte and
/// its payload (and is zero, with no payload, for a keep-alive).
pub open spec fn well_formed(m: MessageModel) -> bool {
    if m.id == PeerMessageID::KeepAlive {
        m.length == 0 && m.payload.len() == 0
    } else {
        m.length == 1 + m.payload.len() && m.length <= u32::MAX
    }
}

/// The frame of a message on the wire.
pub open spec fn frame(m: MessageModel) -> Seq<u8> {
    if m.id == PeerMessageID::KeepAlive {
        be_bytes(0, 4)
    } else {
        be_bytes(m.length, 4) + seq![id_byte(m.id)] + m.payload
    }
}

impl ToByte for PeerMessage {
    open spec fn wire(&self) -> Seq<u8> {
        frame(self@)
    }

    fn to_be_bytes(&self) -> (r: Vec<u8>) {
        let mut buf: Vec<u8> = Vec::new();
        if self.id == PeerMessageID::KeepAlive {
            push_u32(&mut buf, 0);
            assert(buf@ =~= frame(self@));
            return buf;
        }
        push_u32(&mut buf, self.length);
        buf.push(id_to_byte(self.id));
        push_u8s(&mut buf, self.payload.as_slice());
        assert(buf@ =~= frame(self@));
        buf
    }
}

impl PeerMessage {
    /// A request for `length` bytes at `begin` of chunk `index`.
    pub fn create_request(index: u32, begin: u32, length: u32) -> (r: Self)
        ensures
            r.id == PeerMessageID::Request,
            r.length == 13,
            r.payload@ == be_bytes(index as nat, 4) + be_bytes(begin as nat, 4) + be_bytes(
                length as nat,
                4,
            ),
            well_formed(r@),
    {
        let mut payload: Vec<u8> = Vec::new();
        push_u32(&mut payload, index);
        push_u32(&mut payload, begin);
        push_u32(&mut payload, length);
        proof {
            reveal_with_fuel(be_bytes, 5);
        }
        PeerMessage { id: PeerMessageID::Request, length: 13, payload }
    }

    /// The message that says we are interested.
    pub fn create_interested() -> (r: Self)
        ensures
            r.id == PeerMessageID::Interested,
            r.length == 1,
            r.payload@.len() == 0,
            well_formed(r@),
    {
        PeerMessage { id: PeerMessageID::Interested, length: 1, payload: Vec::new() }
    }
}


/// What the bytes at the front of a buffer hold: too few bytes for a
/// frame, a frame with an unknown id, or one message and the bytes it took.
pub enum FrameSpec {
    Incomplete,
    Unknown,
    Frame(MessageModel, nat),
}

pub open spec fn spec_frame(b: Seq<u8>) -> FrameSpec {
    if b.len() < 4 {
        FrameSpec::Incomplete
    } else {
        let n = be_value(b.subrange(0, 4));
        if b.len() < 4 + n {
            FrameSpec::Incomplete
        } else if n == 0 {
            FrameSpec::Frame(
                MessageModel { id: PeerMessageID::KeepAlive, length: 0, payload: Seq::empty() },
                4,
            )
        } else {
            match id_of_byte(b[4]) {
                None => FrameSpec::Unknown,
                Some(id) => FrameSpec::Frame(
                    MessageModel { id, length: n, payload: b.subrange(5, 4 + n as int) },
                    4 + n,
                ),
            }
        }
    }
}

/// Reads the message at the front of `buf`: `None` until all of its bytes
/// are there; an unknown id is a protocol error.
pub fn parse_next_peer_message(buf: &[u8]) -> (r: Result<Option<(PeerMessage, usize)>, Error>)
    ensures
        match r {
            Ok(None) => spec_frame(buf@) is Incomplete,
            Ok(Some((m, c))) => spec_frame(buf@) == FrameSpec::Frame(m@, c as nat),
            Err(e) => spec_frame(buf@) is Unknown && e == Error::ProtocolError,
        },
{
    if buf.len() < 4 {
        return Ok(None);
    }
    let n = read_u32(buf, 0);
    if buf.len() - 4 < n as usize {
        return Ok(None);
    }
    if n == 0 {
        let m = PeerMessage { id: PeerMessageID::KeepAlive, length: 0, payload: Vec::new() };
        assert(m@.payload =~= Seq::<u8>::empty());
        return Ok(Some((m, 4)));
    }
    let id = match id_from_byte(buf[4]) {
        Some(id) => id,
        None => {
            return Err(Error::ProtocolError);
        },
    };
    let end = 4 + n as usize;
    let payload = vstd::slice::slice_to_vec(vstd::slice::slice_subrange(buf, 5, end));
    Ok(Some((PeerMessage { id, length: n, payload }, end)))
}

/// All whole messages at the front of a buffer, and the bytes they took;
/// an unknown id among them is a protocol error.
pub open spec fn spec_frames(b: Seq<u8>) -> Result<(Seq<MessageModel>, nat), Error>
    decreases b.len(),
{
    match spec_frame(b) {
        FrameSpec::Incomplete => Ok((Seq::empty(), 0)),
        FrameSpec::Unknown => Err(Error::ProtocolError),
        FrameSpec::Frame(m, c) => if 0 < c <= b.len() {
            match spec_frames(b.subrange(c as int, b.len() as int)) {
                Ok((ms, d)) => Ok((seq![m] + ms, c + d)),
                Err(e) => Err(e),
            }
        } else {
            Err(Error::ProtocolError)
        },
    }
}

pub open spec fn message_views(ms: Seq<PeerMessage>) -> Seq<MessageModel> {
    Seq::new(ms.len(), |k: int| ms[k]@)
}

/// Reads every whole message in `buf`, in order; gives them and how many
/// bytes they took (the rest waits for more bytes).
pub fn parse_messages(buf: &[u8]) -> (r: Result<(Vec<PeerMessage>, usize), Error>)
    ensures
        match r {
            Ok((ms, c)) => spec_frames(buf@) == Ok::<(Seq<MessageModel>, nat), Error>(
                (message_views(ms@), c as nat),
            ),
            Err(e) => spec_frames(buf@) == Err::<(Seq<MessageModel>, nat), Error>(e),
        },
{
    let mut out: Vec<PeerMessage> = Vec::new();
    let mut i: usize = 0;
    assert(buf@.subrange(0, buf.len() as int) =~= buf@);
    assert(message_views(out@) + Seq::<MessageModel>::empty() =~= Seq::<MessageModel>::empty());
    loop
        invariant
            i <= buf.len(),
            spec_frames(buf@) == (match spec_frames(buf@.subrange(i as int, buf.len() as int)) {
                Ok((ms, d)) => Ok::<(Seq<MessageModel>, nat), Error>(
                    (message_views(out@) + ms, (i + d) as nat),
                ),
                Err(e) => Err::<(Seq<MessageModel>, nat), Error>(e),
            }),
        decreases buf.len() - i,
    {
        let rest = vstd::slice::slice_subrange(buf, i, buf.len());
        match parse_next_peer_message(rest) {
            Ok(None) => {
                assert(message_views(out@) + Seq::<MessageModel>::empty() =~= message_views(out@));
                return Ok((out, i));
            },
            Ok(Some((m, c))) => {
                if c == 0 || c > rest.len() {
                    return Err(Error::ProtocolError);
                }
                let ghost before = message_views(out@);
                let ghost mv = m@;
                assert(rest@.subrange(c as int, rest@.len() as int) =~= buf@.subrange(
                    i + c,
                    buf.len() as int,
                ));
                out.push(m);
                assert(message_views(out@) =~= before.push(mv));
                proof {
                    match spec_frames(buf@.subrange(i + c, buf.len() as int)) {
                        Ok((ms, d)) => {
                            assert(before + (seq![mv] + ms) =~= message_views(out@) + ms);
                        },
                        Err(_) => {},
                    }
                }
                i = i + c;
            },
            Err(e) => {
                return Err(e);
            },
        }
    }
}

/// The frames of a run of messages, one after the other.
pub open spec fn frames(ms: Seq<MessageModel>) -> Seq<u8>
    decreases ms.len(),
{
    if ms.len() == 0 {
        Seq::empty()
    } else {
        frame(ms[0]) + frames(ms.drop_first())
    }
}

proof fn lemma_frame_read(m: MessageModel, rest: Seq<u8>)
    requires
        well_formed(m),
    ensures
        spec_frame(frame(m) + rest) == FrameSpec::Frame(m, frame(m).len()),
        frame(m).len() > 0,
{
    let b = frame(m) + rest;
    let n = if m.id == PeerMessageID::KeepAlive { 0nat } else { m.length };
    assert(pow256(4) == 4294967296) by {
        reveal_with_fuel(pow256, 5);
    }
    lemma_be_round_trip(n, 4);
    assert(b.subrange(0, 4) =~= be_bytes(n, 4));
    if m.id == PeerMessageID::KeepAlive {
        assert(m.payload =~= Seq::<u8>::empty());
    } else {
        assert(b[4] == id_byte(m.id));
        assert(b.subrange(5, 4 + n as int) =~= m.payload);
    }
}

/// Any run of well-formed messages, framed one after the other, reads back
/// as exactly those messages in order, with no byte left over.
pub proof fn lemma_frames_round_trip(ms: Seq<MessageModel>)
    requires
        forall|k: int| 0 <= k < ms.len() ==> well_formed(#[trigger] ms[k]),
    ensures
        spec_frames(frames(ms)) == Ok::<(Seq<MessageModel>, nat), Error>((ms, frames(ms).len())),
    decreases ms.len(),
{
    if ms.len() == 0 {
        assert(frames(ms) =~= Seq::<u8>::empty());
        assert(ms =~= Seq::<MessageModel>::empty());
    } else {
        let rest = ms.drop_first();
        assert forall|k: int| 0 <= k < rest.len() implies well_formed(#[trigger] rest[k]) by {
            assert(rest[k] == ms[k + 1]);
        }
        lemma_frames_round_trip(rest);
        lemma_frame_read(ms[0], frames(rest));
        let b = frames(ms);
        let c = frame(ms[0]).len();
        assert(b.subrange(c as int, b.len() as int) =~= frames(rest));
        assert(seq![ms[0]] + rest =~= ms);
    }
}


/// The weight of bit `k` of a byte, counting from the least significant.
pub open spec fn bit_weight(k: int) -> int {
    if k == 0 {
        1
    } else if k == 1 {
        2
    } else if k == 2 {
        4
    } else if k == 3 {
        8
    } else if k == 4 {
        16
    } else if k == 5 {
        32
    } else if k == 6 {
        64
    } else {
        128
    }
}

/// Whether a bitfield marks chunk `i`: bit `i`, most significant bit of
/// the first byte first; chunks past its end are not marked.
pub open spec fn bit_set(p: Seq<u8>, i: int) -> bool {
    i / 8 < p.len() && (p[i / 8] as int / bit_weight(7 - i % 8)) % 2 == 1
}

fn weight(k: usize) -> (r: u8)
    requires
        k < 8,
    ensures
        r as int == bit_weight(k as int),
{
    match k {
        0 => 1,
        1 => 2,
        2 => 4,
        3 => 8,
        4 => 16,
        5 => 32,
        6 => 64,
        _ => 128,
    }
}

/// What we know of a peer: whether it chokes us, which chunks it has, and
/// whether its first message has come.
pub struct PeerState {
    pub peer_choking: bool,
    pub have: Vec<bool>,
    pub started: bool,
}

pub struct PeerStateModel {
    pub peer_choking: bool,
    pub have: Seq<bool>,
    pub started: bool,
}

impl View for PeerState {
    type V = PeerStateModel;

    open spec fn view(&self) -> PeerStateModel {
        PeerStateModel { peer_choking: self.peer_choking, have: self.have@, started: self.started }
    }
}

/// The state after a message from the peer. `have` marks one chunk; a
/// bitfield is accepted only as the first message; a keep-alive changes
/// nothing; requests and the rest are ignored by a pure downloader.
pub open spec fn spec_handle(st: PeerStateModel, m: MessageModel) -> Result<PeerStateModel, Error> {
    match m.id {
        PeerMessageID::KeepAlive => Ok(st),
        PeerMessageID::Choke => Ok(PeerStateModel { peer_choking: true, started: true, ..st }),
        PeerMessageID::Unchoke => Ok(PeerStateModel { peer_choking: false, started: true, ..st }),
        PeerMessageID::Have => if m.payload.len() == 4 && be_value(m.payload) < st.have.len() {
            Ok(
                PeerStateModel {
                    have: st.have.update(be_value(m.payload) as int, true),
                    started: true,
                    ..st
                },
            )
        } else {
            Err(Error::ProtocolError)
        },
        PeerMessageID::Bitfield => if st.started {
            Err(Error::ProtocolError)
        } else {
            Ok(
                PeerStateModel {
                    have: Seq::new(st.have.len(), |i: int| bit_set(m.payload, i)),
                    started: true,
                    ..st
                },
            )
        },
        _ => Ok(PeerStateModel { started: true, ..st }),
    }
}

impl PeerState {
    /// The state right after the handshake: choked, nothing known to be held.
    pub fn new(num_chunks: usize) -> (r: Self)
        ensures
            r.peer_choking,
            !r.started,
            r.have@ == Seq::new(num_chunks as nat, |i: int| false),
    {
        let mut have: Vec<bool> = Vec::new();
        let mut k: usize = 0;
        while k < num_chunks
            invariant
                k <= num_chunks,
                have@ == Seq::new(k as nat, |i: int| false),
            decreases num_chunks - k,
        {
            have.push(false);
            assert(have@ =~= Seq::new((k + 1) as nat, |i: int| false));
            k = k + 1;
        }
        PeerState { peer_choking: true, have, started: false }
    }

    /// Takes in a message from the peer.
    pub fn handle(&mut self, m: &PeerMessage) -> (r: Result<(), Error>)
        ensures
            match r {
                Ok(()) => spec_handle(old(self)@, m@) == Ok::<PeerStateModel, Error>(final(self)@),
                Err(e) => spec_handle(old(self)@, m@) == Err::<PeerStateModel, Error>(e)
                    && final(self)@ == old(self)@,
            },
    {
        match m.id {
            PeerMessageID::KeepAlive => Ok(()),
            PeerMessageID::Choke => {
                self.peer_choking = true;
                self.started = true;
                Ok(())
            },
            PeerMessageID::Unchoke => {
                self.peer_choking = false;
                self.started = true;
                Ok(())
            },
            PeerMessageID::Have => {
                if m.payload.len() != 4 {
                    return Err(Error::ProtocolError);
                }
                let index = read_u32(m.payload.as_slice(), 0);
                assert(m.payload@.subrange(0, 4) =~= m.payload@);
                if index as usize >= self.have.len() {
                    return Err(Error::ProtocolError);
                }
                self.have.set(index as usize, true);
                self.started = true;
                Ok(())
            },
            PeerMessageID::Bitfield => {
                if self.started {
                    return Err(Error::ProtocolError);
                }
                let ghost n = self.have.len();
                let mut k: usize = 0;
                while k < self.have.len()
                    invariant
                        k <= self.have.len(),
                        self.have.len() == n,
                        forall|i: int| 0 <= i < k ==> self.have@[i] == bit_set(m.payload@, i),
                        self.peer_choking == old(self).peer_choking,
                        !self.started,
                    decreases self.have.len() - k,
                {
                    let byte = k / 8;
                    let set = if byte < m.payload.len() {
                        let w = weight(7 - k % 8);
                        (m.payload[byte] / w) % 2 == 1
                    } else {
                        false
                    };
                    self.have.set(k, set);
                    k = k + 1;
                }
                self.started = true;
                assert(self.have@ =~= Seq::new(n as nat, |i: int| bit_set(m.payload@, i)));
                Ok(())
            },
            _ => {
                self.started = true;
                Ok(())
            },
        }
    }

    /// The first chunk that the peer has and that is not yet done.
    pub fn next_wanted(&self, done: &Vec<bool>) -> (r: Option<usize>)
        requires
            done.len() == self.have.len(),
        ensures
            match r {
                Some(i) => i < self.have.len() && self.have@[i as int] && !done@[i as int] && forall|
                    j: int,
                | 0 <= j < i ==> !(self.have@[j] && !done@[j]),
                None => forall|j: int|
                    0 <= j < self.have.len() ==> !(self.have@[j] && !done@[j]),
            },
    {
        let mut k: usize = 0;
        while k < self.have.len()
            invariant
                k <= self.have.len(),
                done.len() == self.have.len(),
                forall|j: int| 0 <= j < k ==> !(self.have@[j] && !done@[j]),
            decreases self.have.len() - k,
        {
            if self.have[k] && !done[k] {
                return Some(k);
            }
            k = k + 1;
        }
        None
    }
}

/// The state after a run of messages, in order, or the first fault.
pub open spec fn spec_handle_all(st: PeerStateModel, ms: Seq<MessageModel>) -> Result<PeerStateModel, Error>
    decreases ms.len(),
{
    if ms.len() == 0 {
        Ok(st)
    } else {
        match spec_handle_all(st, ms.drop_last()) {
            Ok(s) => spec_handle(s, ms.last()),
            Err(e) => Err(e),
        }
    }
}

/// Over any run of messages after the first, every chunk the peer had stays
/// marked, and every chunk a `have` named is marked at the end.
pub proof fn lemma_have_all_monotone(st: PeerStateModel, ms: Seq<MessageModel>, next: PeerStateModel)
    requires
        st.started,
        spec_handle_all(st, ms) == Ok::<PeerStateModel, Error>(next),
    ensures
        next.started,
        next.have.len() == st.have.len(),
        forall|i: int| 0 <= i < st.have.len() && st.have[i] ==> #[trigger] next.have[i],
        forall|k: int|
            0 <= k < ms.len() && (#[trigger] ms[k]).id == PeerMessageID::Have ==> be_value(
                ms[k].payload,
            ) < next.have.len() && next.have[be_value(ms[k].payload) as int],
    decreases ms.len(),
{
    if ms.len() > 0 {
        let init = ms.drop_last();
        let s = spec_handle_all(st, init)->Ok_0;
        lemma_have_all_monotone(st, init, s);
        lemma_have_monotone(s, ms.last(), next);
        assert forall|k: int| 0 <= k < ms.len() && (#[trigger] ms[k]).id == PeerMessageID::Have implies be_value(
            ms[k].payload,
        ) < next.have.len() && next.have[be_value(ms[k].payload) as int] by {
            if k < ms.len() - 1 {
                assert(init[k] == ms[k]);
            }
        }
    }
}

/// What a downloader does next with a peer.
#[derive(Debug, Clone, Copy, PartialEq, Eq, Structural)]
pub enum SessionAction {
    /// Tell the peer we are interested.
    SendInterested,
    /// Download this chunk: the peer has it, we lack it, and we are unchoked.
    Download(usize),
    /// Wait for the peer's next message.
    Wait,
    /// The peer has nothing more that we need.
    Finished,
}

/// The first chunk the peer has that is not done.
pub open spec fn first_wanted(have: Seq<bool>, done: Seq<bool>) -> Option<int> {
    if exists|i: int| 0 <= i < have.len() && have[i] && !done[i] {
        Some(
            choose|i: int|
                0 <= i < have.len() && have[i] && !done[i] && forall|j: int|
                    0 <= j < i ==> !(have[j] && !done[j]),
        )
    } else {
        None
    }
}

impl PeerState {
    /// The next step: once the peer has a chunk we lack, say we are
    /// interested (once); once it unchokes us, download the first such chunk;
    /// when its inventory is known and holds nothing we lack, stop.
    pub fn decide(&self, done: &Vec<bool>, interested: bool) -> (r: SessionAction)
        requires
            done.len() == self.have.len(),
        ensures
            r == (match first_wanted(self.have@, done@) {
                Some(i) => if !interested {
                    SessionAction::SendInterested
                } else if !self.peer_choking {
                    SessionAction::Download(i as usize)
                } else {
                    SessionAction::Wait
                },
                None => if self.started {
                    SessionAction::Finished
                } else {
                    SessionAction::Wait
                },
            }),
    {
        match self.next_wanted(done) {
            Some(i) => {
                proof {
                    let w = choose|k: int|
                        0 <= k < self.have@.len() && self.have@[k] && !done@[k] && forall|j: int|
                            0 <= j < k ==> !(self.have@[j] && !done@[j]);
                    assert(0 <= w < self.have@.len() && self.have@[w] && !done@[w] && forall|j: int|
                        0 <= j < w ==> !(self.have@[j] && !done@[j]));
                    if w < i {
                        assert(!(self.have@[w] && !done@[w]));
                    } else if w > i {
                        assert(!(self.have@[i as int] && !done@[i as int]));
                    }
                }
                if !interested {
                    SessionAction::SendInterested
                } else if !self.peer_choking {
                    SessionAction::Download(i)
                } else {
                    SessionAction::Wait
                }
            },
            None => {
                if self.started {
                    SessionAction::Finished
                } else {
                    SessionAction::Wait
                }
            },
        }
    }
}

/// A peer never takes back a chunk it has: once its first message has come,
/// every message leaves each marked chunk marked, and `have` marks one more.
pub proof fn lemma_have_monotone(st: PeerStateModel, m: MessageModel, next: PeerStateModel)
    requires
        st.started,
        spec_handle(st, m) == Ok::<PeerStateModel, Error>(next),
    ensures
        next.have.len() == st.have.len(),
        forall|i: int| 0 <= i < st.have.len() && st.have[i] ==> #[trigger] next.have[i],
        m.id == PeerMessageID::Have ==> be_value(m.payload) < next.have.len() && next.have[be_value(
            m.payload,
        ) as int],
{
}


/// How many blocks a chunk of `length` bytes takes.
pub open spec fn block_count(length: int) -> int {
    (length + BLOCK_SIZE - 1) / BLOCK_SIZE as int
}

/// The length of the block at `begin`: a whole block, or what is left.
pub open spec fn block_length(length: int, begin: int) -> int {
    if length - begin < BLOCK_SIZE {
        length - begin
    } else {
        BLOCK_SIZE as int
    }
}

/// The download of one chunk: a buffer of the chunk's length, which of its
/// bytes have come, and how many blocks were requested.
pub struct ChunkDownload {
    pub index: u32,
    pub length: u32,
    pub buffer: Vec<u8>,
    pub received: Vec<bool>,
    pub requested: u32,
}

/// `buf` with `block` written at `at`.
pub open spec fn splice(buf: Seq<u8>, at: int, block: Seq<u8>) -> Seq<u8> {
    buf.subrange(0, at) + block + buf.subrange(at + block.len(), buf.len() as int)
}

/// `rec` with the `n` bytes from `at` marked as come.
pub open spec fn mark(rec: Seq<bool>, at: int, n: int) -> Seq<bool> {
    Seq::new(rec.len(), |j: int| if at <= j < at + n { true } else { rec[j] })
}

/// What a `piece` message does to a download of one of `chunk_count`
/// chunks: an index past the last chunk, or a block that runs past the end
/// of the chunk, is a protocol error; a block for another chunk is left
/// aside (`false`); a block of ours is written where it says.
pub open spec fn spec_on_piece(d: ChunkDownload, chunk_count: nat, payload: Seq<u8>) -> Result<(bool, Seq<u8>, Seq<bool>), Error> {
    if payload.len() < 8 || be_value(payload.subrange(0, 4)) >= chunk_count {
        Err(Error::ProtocolError)
    } else if be_value(payload.subrange(0, 4)) != d.index {
        Ok((false, d.buffer@, d.received@))
    } else {
        let begin = be_value(payload.subrange(4, 8)) as int;
        let block = payload.subrange(8, payload.len() as int);
        if begin + block.len() > d.length {
            Err(Error::ProtocolError)
        } else {
            Ok((true, splice(d.buffer@, begin, block), mark(d.received@, begin, block.len() as int)))
        }
    }
}

/// Writes the bytes of `p` after its first eight into `buf` at `at`.
fn write_block(buf: &mut Vec<u8>, at: usize, p: &[u8])
    requires
        p.len() >= 8,
        at + (p.len() - 8) <= old(buf).len(),
    ensures
        final(buf)@ == splice(old(buf)@, at as int, p@.subrange(8, p@.len() as int)),
{
    let ghost old_buf = buf@;
    let ghost block = p@.subrange(8, p@.len() as int);
    let n = p.len() - 8;
    let mut k: usize = 0;
    while k < n
        invariant
            n == p.len() - 8,
            at + n <= old_buf.len(),
            buf.len() == old_buf.len(),
            block == p@.subrange(8, p@.len() as int),
            k <= n,
            forall|j: int| 0 <= j < at ==> buf@[j] == old_buf[j],
            forall|j: int| at + n <= j < old_buf.len() ==> buf@[j] == old_buf[j],
            forall|j: int| 0 <= j < k ==> buf@[at + j] == block[j],
        decreases n - k,
    {
        buf.set(at + k, p[8 + k]);
        k = k + 1;
    }
    assert(buf@ =~= splice(old_buf, at as int, block));
}

/// Marks the `n` bytes from `at` as come.
fn mark_received(rec: &mut Vec<bool>, at: usize, n: usize)
    requires
        at + n <= old(rec).len(),
    ensures
        final(rec)@ == mark(old(rec)@, at as int, n as int),
{
    let ghost old_rec = rec@;
    let mut k: usize = 0;
    while k < n
        invariant
            at + n <= old_rec.len(),
            rec.len() == old_rec.len(),
            k <= n,
            forall|j: int| 0 <= j < rec.len() ==> #[trigger] rec@[j] == (if at <= j < at + k {
                true
            } else {
                old_rec[j]
            }),
        decreases n - k,
    {
        rec.set(at + k, true);
        k = k + 1;
    }
    assert(rec@ =~= mark(old_rec, at as int, n as int));
}

impl ChunkDownload {
    pub open spec fn wf(&self) -> bool {
        &&& self.length > 0
        &&& self.buffer.len() == self.length
        &&& self.received.len() == self.length
        &&& self.requested <= block_count(self.length as int)
    }

    /// A download of chunk `index`, `length` bytes long, nothing requested.
    pub fn new(index: u32, length: u32) -> (r: Self)
        requires
            length > 0,
        ensures
            r.wf(),
            r.index == index,
            r.length == length,
            r.requested == 0,
            forall|k: int| 0 <= k < r.received.len() ==> !r.received@[k],
    {
        let mut buffer: Vec<u8> = Vec::new();
        let mut k: u32 = 0;
        while k < length
            invariant
                k <= length,
                buffer.len() == k,
            decreases length - k,
        {
            buffer.push(0);
            k = k + 1;
        }
        let mut received: Vec<bool> = Vec::new();
        let mut k: u32 = 0;
        while k < length
            invariant
                k <= length,
                received.len() == k,
                forall|j: int| 0 <= j < k ==> !received@[j],
            decreases length - k,
        {
            received.push(false);
            k = k + 1;
        }
        ChunkDownload { index, length, buffer, received, requested: 0 }
    }

    /// The next block request, in order of offset, until all are sent.
    pub fn next_request(&mut self) -> (r: Option<PeerMessage>)
        requires
            old(self).wf(),
        ensures
            final(self).wf(),
            final(self).index == old(self).index,
            final(self).length == old(self).length,
            final(self).buffer@ == old(self).buffer@,
            final(self).received@ == old(self).received@,
            match r {
                Some(m) => old(self).requested < block_count(old(self).length as int)
                    && final(self).requested == old(self).requested + 1
                    && m.id == PeerMessageID::Request && m.length == 13
                    && m.payload@ == be_bytes(old(self).index as nat, 4) + be_bytes(
                    (old(self).requested * BLOCK_SIZE) as nat,
                    4,
                ) + be_bytes(
                    block_length(old(self).length as int, old(self).requested * BLOCK_SIZE) as nat,
                    4,
                ),
                None => old(self).requested == block_count(old(self).length as int)
                    && final(self).requested == old(self).requested,
            },
    {
        let count: u32 = ((self.length as u64 + BLOCK_SIZE as u64 - 1) / BLOCK_SIZE as u64) as u32;
        if self.requested >= count {
            return None;
        }
        assert(self.requested * BLOCK_SIZE < self.length) by (nonlinear_arith)
            requires
                self.requested < (self.length + BLOCK_SIZE - 1) / BLOCK_SIZE as int,
        ;
        let begin: u32 = self.requested * BLOCK_SIZE;
        let len: u32 = if self.length - begin < BLOCK_SIZE {
            self.length - begin
        } else {
            BLOCK_SIZE
        };
        self.requested = self.requested + 1;
        Some(PeerMessage::create_request(self.index, begin, len))
    }

    /// Takes in a `piece` message: `Ok(true)` when its block was ours and
    /// is now in the buffer.
    pub fn on_piece(&mut self, m: &PeerMessage, chunk_count: usize) -> (r: Result<bool, Error>)
        requires
            old(self).wf(),
        ensures
            final(self).wf(),
            final(self).index == old(self).index,
            final(self).length == old(self).length,
            final(self).requested == old(self).requested,
            match r {
                Ok(taken) => spec_on_piece(*old(self), chunk_count as nat, m.payload@) == Ok::<
                    (bool, Seq<u8>, Seq<bool>),
                    Error,
                >((taken, final(self).buffer@, final(self).received@)),
                Err(e) => spec_on_piece(*old(self), chunk_count as nat, m.payload@) == Err::<
                    (bool, Seq<u8>, Seq<bool>),
                    Error,
                >(e) && final(self).buffer@ == old(self).buffer@ && final(self).received@ == old(
                    self,
                ).received@,
            },
    {
        let p = m.payload.as_slice();
        if p.len() < 8 {
            return Err(Error::ProtocolError);
        }
        let index = read_u32(p, 0);
        if index as usize >= chunk_count {
            return Err(Error::ProtocolError);
        }
        if index != self.index {
            return Ok(false);
        }
        let begin = read_u32(p, 4);
        let block_len = p.len() - 8;
        if begin > self.length || block_len > (self.length - begin) as usize {
            return Err(Error::ProtocolError);
        }
        write_block(&mut self.buffer, begin as usize, p);
        mark_received(&mut self.received, begin as usize, block_len);
        Ok(true)
    }

    /// Starts the requests over from the first block, as after a choke:
    /// bytes that already came stay.
    pub fn restart_requests(&mut self)
        requires
            old(self).wf(),
        ensures
            final(self).wf(),
            final(self).requested == 0,
            final(self).index == old(self).index,
            final(self).length == old(self).length,
            final(self).buffer@ == old(self).buffer@,
            final(self).received@ == old(self).received@,
    {
        self.requested = 0;
    }

    /// Whether every byte of the chunk has come.
    pub fn is_complete(&self) -> (r: bool)
        ensures
            r == forall|k: int| 0 <= k < self.received.len() ==> self.received@[k],
    {
        let mut k: usize = 0;
        while k < self.received.len()
            invariant
                k <= self.received.len(),
                forall|j: int| 0 <= j < k ==> self.received@[j],
            decreases self.received.len() - k,
        {
            if !self.received[k] {
                return false;
            }
            k = k + 1;
        }
        true
    }

    /// Checks the chunk against its published digest. On a match the chunk
    /// is exactly the buffer, with nothing left to change.
    pub fn finish(&self, expected: &[u8; 20]) -> (r: Result<Vec<u8>, Error>)
        ensures
            match r {
                Ok(b) => b@ == self.buffer@ && sha1_of(b@) == expected@,
                Err(e) => e == Error::DigestMismatch && sha1_of(self.buffer@) != expected@,
            },
    {
        let digest = sha1_digest(self.buffer.as_slice());
        let mut k: usize = 0;
        while k < 20
            invariant
                k <= 20,
                digest@ == sha1_of(self.buffer@),
                digest@.len() == 20,
                expected@.len() == 20,
                forall|j: int| 0 <= j < k ==> digest@[j] == expected@[j],
            decreases 20 - k,
        {
            if digest[k] != expected[k] {
                assert(digest@[k as int] != expected@[k as int]);
                return Err(Error::DigestMismatch);
            }
            k = k + 1;
        }
        assert(digest@ =~= expected@);
        Ok(vstd::slice::slice_to_vec(self.buffer.as_slice()))
    }
}


impl ChunkDownload {
    /// The download of chunk `index` of `info`, sized to that chunk: the
    /// final chunk may be shorter. `None` when the chunk length does not fit
    /// the 32-bit offsets of the wire.
    pub fn for_chunk(info: &Info, index: usize) -> (r: Option<ChunkDownload>)
        requires
            consistent(info@),
            index < info.pieces.len(),
        ensures
            match r {
                Some(d) => d.wf() && d.index == index && d.length == spec_chunk_length(
                    info@,
                    index as int,
                ) && d.requested == 0 && forall|k: int|
                    0 <= k < d.received.len() ==> !d.received@[k],
                None => spec_chunk_length(info@, index as int) > u32::MAX || index > u32::MAX,
            },
    {
        let len = info.chunk_length(index);
        if len > 0xffff_ffff || index > 0xffff_ffff {
            return None;
        }
        Some(ChunkDownload::new(index as u32, len as u32))
    }
}


/// How many times a chunk whose digest does not match is fetched again
/// before the peer is dropped.
pub const DIGEST_RETRIES: u32 = 1;

/// Whether a chunk that has now failed its digest check `failures` times may
/// be fetched again from the same peer: once, then the peer is dropped.
pub fn may_retry(failures: u32) -> (r: bool)
    ensures
        r == (failures <= DIGEST_RETRIES),
{
    failures <= DIGEST_RETRIES
}

impl ChunkDownload {
    /// Takes in a message while this chunk downloads. A `piece` goes to the
    /// chunk; any other message goes to the peer's state. `Ok(true)` says the
    /// peer has just unchoked us after a choke: the requests start over and
    /// must be sent again.
    pub fn on_message(&mut self, st: &mut PeerState, m: &PeerMessage, chunk_count: usize) -> (r:
        Result<bool, Error>)
        requires
            old(self).wf(),
        ensures
            final(self).wf(),
            final(self).index == old(self).index,
            final(self).length == old(self).length,
            m.id == PeerMessageID::Piece ==> final(st)@ == old(st)@ && match spec_on_piece(
                *old(self),
                chunk_count as nat,
                m.payload@,
            ) {
                Ok((_, buf, rec)) => r == Ok::<bool, Error>(false) && final(self).buffer@ == buf
                    && final(self).received@ == rec && final(self).requested == old(self).requested,
                Err(e) => r == Err::<bool, Error>(e) && final(self).buffer@ == old(self).buffer@
                    && final(self).received@ == old(self).received@ && final(self).requested
                    == old(self).requested,
            },
            m.id != PeerMessageID::Piece ==> final(self).buffer@ == old(self).buffer@
                && final(self).received@ == old(self).received@ && match spec_handle(old(st)@, m@) {
                Ok(next) => final(st)@ == next && r == Ok::<bool, Error>(
                    old(st).peer_choking && !next.peer_choking,
                ) && final(self).requested == (if old(st).peer_choking && !next.peer_choking {
                    0
                } else {
                    old(self).requested
                }),
                Err(e) => r == Err::<bool, Error>(e) && final(st)@ == old(st)@
                    && final(self).requested == old(self).requested,
            },
    {
        if m.id == PeerMessageID::Piece {
            match self.on_piece(m, chunk_count) {
                Ok(_) => Ok(false),
                Err(e) => Err(e),
            }
        } else {
            let was_choking = st.peer_choking;
            st.handle(m)?;
            if was_choking && !st.peer_choking {
                self.restart_requests();
                Ok(true)
            } else {
                Ok(false)
            }
        }
    }
}

} // verus!
