//! The tracker protocols: the UDP connect and announce exchange with its
//! retries, the HTTP announce query and response, and compact peer lists.
use vstd::prelude::*;

use crate::bencode::{
    entry_views, int_digits, nat_digits, parse_next, push_decimal, spec_value, Bencode, Value,
};
use crate::metainfo::{
    consistent, lookup, opt_view, spec_lookup, spec_text, text, total_length, Torrent,
};
use crate::text::utf8_string;
use crate::wire::{
    be_bytes, be_value, push_u16, push_u32, push_u64, push_u8s, read_u16, read_u32, read_u64,
    FromByte, ToByte,
};
use crate::Error;

verus! {

/// The protocol magic of a UDP connect request.
pub const PROTOCOL_ID: u64 = 0x41727101980;

/// UDP tracker actions.
#[derive(Copy, Clone, Debug, PartialEq, Eq, Structural)]
pub enum Action {
    ConnectRequest,
    ConnectResponse,
    AnnounceRequest,
    AnnounceResponse,
}

/// The action code on the wire: 0 to connect, 1 to announce.
pub open spec fn action_code(a: Action) -> u32 {
    match a {
        Action::ConnectRequest | Action::ConnectResponse => 0,
        Action::AnnounceRequest | Action::AnnounceResponse => 1,
    }
}

impl Action {
    pub fn code(&self) -> (r: u32)
        ensures
            r == action_code(*self),
    {
        match self {
            Action::ConnectRequest | Action::ConnectResponse => 0,
            Action::AnnounceRequest | Action::AnnounceResponse => 1,
        }
    }
}

/// Announce events.
#[derive(Copy, Clone, Debug, PartialEq, Eq, Structural)]
pub enum Event {
    Empty,
    Completed,
    Started,
    Stopped,
}

/// The event code of a UDP announce.
pub open spec fn event_code(e: Event) -> u32 {
    match e {
        Event::Empty => 0,
        Event::Completed => 1,
        Event::Started => 2,
        Event::Stopped => 3,
    }
}

/// The event name of an HTTP announce, as ASCII bytes; the regular
/// announce has an empty one.
pub open spec fn event_name(e: Event) -> Seq<u8> {
    match e {
        Event::Empty => Seq::empty(),
        Event::Completed => seq![99u8, 111, 109, 112, 108, 101, 116, 101, 100],
        Event::Started => seq![115u8, 116, 97, 114, 116, 101, 100],
        Event::Stopped => seq![115u8, 116, 111, 112, 112, 101, 100],
    }
}

impl Event {
    pub fn code(&self) -> (r: u32)
        ensures
            r == event_code(*self),
    {
        match self {
            Event::Empty => 0,
            Event::Completed => 1,
            Event::Started => 2,
            Event::Stopped => 3,
        }
    }

    /// The event's name in an HTTP announce.
    pub fn to_string(&self) -> (r: &'static str)
        ensures
            r@ == ascii_chars(event_name(*self)),
    {
        match self {
            Event::Empty => {
                proof {
                    reveal_strlit("");
                }
                assert(""@ =~= ascii_chars(event_name(*self)));
                ""
            },
            Event::Completed => {
                proof {
                    reveal_strlit("completed");
                }
                assert("completed"@ =~= ascii_chars(event_name(*self)));
                "completed"
            },
            Event::Started => {
                proof {
                    reveal_strlit("started");
                }
                assert("started"@ =~= ascii_chars(event_name(*self)));
                "started"
            },
            Event::Stopped => {
                proof {
                    reveal_strlit("stopped");
                }
                assert("stopped"@ =~= ascii_chars(event_name(*self)));
                "stopped"
            },
        }
    }

    fn name_bytes(&self) -> (r: Vec<u8>)
        ensures
            r@ == event_name(*self),
    {
        let r = match self {
            Event::Empty => Vec::new(),
            Event::Completed => vec![99u8, 111, 109, 112, 108, 101, 116, 101, 100],
            Event::Started => vec![115u8, 116, 97, 114, 116, 101, 100],
            Event::Stopped => vec![115u8, 116, 111, 112, 112, 101, 100],
        };
        assert(r@ =~= event_name(*self));
        r
    }
}

/// The characters that ASCII bytes stand for.
pub open spec fn ascii_chars(b: Seq<u8>) -> Seq<char> {
    Seq::new(b.len(), |k: int| b[k] as char)
}

/// A peer: an IPv4 address and a port.
#[derive(Debug, Clone, Copy)]
pub struct Peer {
    pub ip: [u8; 4],
    pub port: u16,
}

/// The peer that a 6-byte compact entry names.
pub open spec fn spec_peer(b: Seq<u8>) -> (Seq<u8>, nat) {
    (b.subrange(0, 4), be_value(b.subrange(4, 6)))
}

pub open spec fn peer_view(p: Peer) -> (Seq<u8>, nat) {
    (p.ip@, p.port as nat)
}

pub open spec fn peers_view(ps: Seq<Peer>) -> Seq<(Seq<u8>, nat)> {
    Seq::new(ps.len(), |k: int| peer_view(ps[k]))
}

fn peer_at(b: &[u8], at: usize) -> (r: Peer)
    requires
        at + 6 <= b.len(),
    ensures
        peer_view(r) == spec_peer(b@.subrange(at as int, at + 6)),
{
    let ip: [u8; 4] = [b[at], b[at + 1], b[at + 2], b[at + 3]];
    let port = read_u16(b, at + 4);
    let ghost e = b@.subrange(at as int, at + 6);
    assert(ip@ =~= e.subrange(0, 4));
    assert(e.subrange(4, 6) =~= b@.subrange(at + 4, at + 6));
    Peer { ip, port }
}

impl FromByte for Peer {
    open spec fn read_as(bytes: Seq<u8>, r: Option<Self>) -> bool {
        match r {
            Some(p) => bytes.len() >= 6 && peer_view(p) == spec_peer(bytes),
            None => bytes.len() < 6,
        }
    }

    fn from_be_bytes(bytes: &[u8]) -> (r: Option<Self>) {
        if bytes.len() < 6 {
            return None;
        }
        let p = peer_at(bytes, 0);
        proof {
            let e = bytes@.subrange(0, 6);
            assert(e.subrange(0, 4) =~= bytes@.subrange(0, 4));
            assert(e.subrange(4, 6) =~= bytes@.subrange(4, 6));
        }
        Some(p)
    }
}

/// A compact peer list: one peer per 6 bytes, in order.
pub open spec fn spec_compact_peers(b: Seq<u8>) -> Seq<(Seq<u8>, nat)> {
    Seq::new(b.len() / 6, |k: int| spec_peer(b.subrange(6 * k, 6 * k + 6)))
}

/// Reads a compact peer list; its length must be a multiple of 6.
pub fn parse_compact_peers(b: &[u8]) -> (r: Option<Vec<Peer>>)
    ensures
        match r {
            Some(ps) => b.len() % 6 == 0 && peers_view(ps@) == spec_compact_peers(b@),
            None => b.len() % 6 != 0,
        },
{
    if b.len() % 6 != 0 {
        return None;
    }
    assert(b@.subrange(0, b.len() as int) =~= b@);
    Some(peers_from(b, 0))
}

/// The peers of the 6-byte entries of `b` from `at` on.
fn peers_from(b: &[u8], at: usize) -> (r: Vec<Peer>)
    requires
        at <= b.len(),
        (b.len() - at) % 6 == 0,
    ensures
        peers_view(r@) == spec_compact_peers(b@.subrange(at as int, b.len() as int)),
{
    let mut out: Vec<Peer> = Vec::new();
    let mut k: usize = at;
    while k < b.len()
        invariant
            at <= k <= b.len(),
            (b.len() - at) % 6 == 0,
            (k - at) % 6 == 0,
            out.len() == (k - at) / 6,
            forall|m: int| 0 <= m < out.len() ==> peer_view(#[trigger] out@[m]) == spec_peer(
                b@.subrange(at + 6 * m, at + 6 * m + 6),
            ),
        decreases b.len() - k,
    {
        let p = peer_at(b, k);
        out.push(p);
        k = k + 6;
    }
    let ghost rest = b@.subrange(at as int, b.len() as int);
    assert forall|m: int| 0 <= m < out.len() implies #[trigger] rest.subrange(6 * m, 6 * m + 6)
        =~= b@.subrange(at + 6 * m, at + 6 * m + 6) by {}
    assert(peers_view(out@) =~= spec_compact_peers(rest));
    out
}

/// A compact peer list of `6k` bytes gives exactly `k` peers, in the order
/// of their entries.
pub proof fn lemma_compact_peers_count(b: Seq<u8>, k: nat)
    requires
        b.len() == 6 * k,
    ensures
        spec_compact_peers(b).len() == k,
        forall|i: int| 0 <= i < k ==> #[trigger] spec_compact_peers(b)[i] == spec_peer(
            b.subrange(6 * i, 6 * i + 6),
        ),
{
}

/// The peers of the entries that the bencode decoder read under `peers`.
pub fn peers_of_entries(entries: &Vec<[u8; 6]>) -> (r: Vec<Peer>)
    ensures
        peers_view(r@) == Seq::new(entries.len() as nat, |k: int| spec_peer(entries@[k]@)),
{
    let mut out: Vec<Peer> = Vec::new();
    let mut k: usize = 0;
    while k < entries.len()
        invariant
            k <= entries.len(),
            peers_view(out@) == Seq::new(k as nat, |m: int| spec_peer(entries@[m]@)),
        decreases entries.len() - k,
    {
        let e: [u8; 6] = entries[k];
        let p = peer_at(e.as_slice(), 0);
        assert(e@.subrange(0, 6) =~= e@);
        assert(e@ == entries@[k as int]@);
        assert(peer_view(p) == spec_peer(entries@[k as int]@));
        let ghost before = out@;
        out.push(p);
        assert(peers_view(out@) =~= peers_view(before).push(peer_view(p)));
        assert(peers_view(out@) =~= Seq::new((k + 1) as nat, |m: int| spec_peer(entries@[m]@)));
        k = k + 1;
    }
    out
}

/// The connect request: the protocol magic, action 0, our transaction id.
pub open spec fn spec_connect_request(transaction_id: u32) -> Seq<u8> {
    be_bytes(PROTOCOL_ID as nat, 8) + be_bytes(0, 4) + be_bytes(transaction_id as nat, 4)
}

pub fn connect_request(transaction_id: u32) -> (r: Vec<u8>)
    ensures
        r@ == spec_connect_request(transaction_id),
{
    let mut buf: Vec<u8> = Vec::new();
    push_u64(&mut buf, PROTOCOL_ID);
    push_u32(&mut buf, 0);
    push_u32(&mut buf, transaction_id);
    buf
}

/// What a connect response says: not ours (`None`: another transaction),
/// a connection id, or a protocol error (too short, or not a connect).
pub open spec fn spec_connect_response(b: Seq<u8>, transaction_id: u32) -> Result<Option<u64>, Error> {
    if b.len() < 16 || be_value(b.subrange(0, 4)) != 0 {
        Err(Error::ProtocolError)
    } else if be_value(b.subrange(4, 8)) != transaction_id {
        Ok(None)
    } else {
        Ok(Some(be_value(b.subrange(8, 16)) as u64))
    }
}

pub fn parse_connect_response(b: &[u8], transaction_id: u32) -> (r: Result<Option<u64>, Error>)
    ensures
        r == spec_connect_response(b@, transaction_id),
{
    if b.len() < 16 || read_u32(b, 0) != 0 {
        return Err(Error::ProtocolError);
    }
    if read_u32(b, 4) != transaction_id {
        return Ok(None);
    }
    Ok(Some(read_u64(b, 8)))
}

/// A UDP announce request.
pub struct AnnounceRequest {
    pub connection_id: u64,
    pub action: Action,
    pub transaction_id: u32,
    pub info_hash: [u8; 20],
    pub peer_id: [u8; 20],
    pub downloaded: u64,
    pub left: u64,
    pub uploaded: u64,
    pub event: Event,
    pub ip: Option<[u8; 4]>,
    pub key: u32,
    pub num_want: i32,
    pub port: u16,
}

/// An absent address is written as zero: the tracker uses the source.
pub open spec fn ip_bytes(ip: Option<[u8; 4]>) -> Seq<u8> {
    match ip {
        Some(a) => a@,
        None => seq![0u8, 0, 0, 0],
    }
}

impl ToByte for AnnounceRequest {
    open spec fn wire(&self) -> Seq<u8> {
        be_bytes(self.connection_id as nat, 8) + be_bytes(action_code(self.action) as nat, 4)
            + be_bytes(self.transaction_id as nat, 4) + self.info_hash@ + self.peer_id@ + be_bytes(
            self.downloaded as nat,
            8,
        ) + be_bytes(self.left as nat, 8) + be_bytes(self.uploaded as nat, 8) + be_bytes(
            event_code(self.event) as nat,
            4,
        ) + ip_bytes(self.ip) + be_bytes(self.key as nat, 4) + be_bytes(
            (self.num_want as u32) as nat,
            4,
        ) + be_bytes(self.port as nat, 2)
    }

    fn to_be_bytes(&self) -> (r: Vec<u8>) {
        let mut buf: Vec<u8> = Vec::new();
        push_u64(&mut buf, self.connection_id);
        push_u32(&mut buf, self.action.code());
        push_u32(&mut buf, self.transaction_id);
        push_u8s(&mut buf, self.info_hash.as_slice());
        push_u8s(&mut buf, self.peer_id.as_slice());
        push_u64(&mut buf, self.downloaded);
        push_u64(&mut buf, self.left);
        push_u64(&mut buf, self.uploaded);
        push_u32(&mut buf, self.event.code());
        let zero: [u8; 4] = [0; 4];
        assert(zero@ =~= seq![0u8, 0, 0, 0]);
        match &self.ip {
            Some(a) => push_u8s(&mut buf, a.as_slice()),
            None => push_u8s(&mut buf, zero.as_slice()),
        }
        push_u32(&mut buf, self.key);
        push_u32(&mut buf, self.num_want as u32);
        push_u16(&mut buf, self.port);
        assert(buf@ =~= self.wire());
        buf
    }
}


/// A UDP announce response: action, transaction id, interval, leechers,
/// seeders, then compact peers.
#[derive(Debug)]
pub struct AnnounceResponse {
    pub action: u32,
    pub transaction_id: u32,
    pub interval: u32,
    pub leechers: u32,
    pub seeders: u32,
    pub peers: Vec<Peer>,
}

impl FromByte for AnnounceResponse {
    open spec fn read_as(bytes: Seq<u8>, r: Option<Self>) -> bool {
        match r {
            Some(a) => bytes.len() >= 20 && (bytes.len() - 20) % 6 == 0 && a.action == be_value(
                bytes.subrange(0, 4),
            ) && a.transaction_id == be_value(bytes.subrange(4, 8)) && a.interval == be_value(
                bytes.subrange(8, 12),
            ) && a.leechers == be_value(bytes.subrange(12, 16)) && a.seeders == be_value(
                bytes.subrange(16, 20),
            ) && peers_view(a.peers@) == spec_compact_peers(
                bytes.subrange(20, bytes.len() as int),
            ),
            None => bytes.len() < 20 || (bytes.len() - 20) % 6 != 0,
        }
    }

    fn from_be_bytes(bytes: &[u8]) -> (r: Option<Self>) {
        if bytes.len() < 20 || (bytes.len() - 20) % 6 != 0 {
            return None;
        }
        Some(
            AnnounceResponse {
                action: read_u32(bytes, 0),
                transaction_id: read_u32(bytes, 4),
                interval: read_u32(bytes, 8),
                leechers: read_u32(bytes, 12),
                seeders: read_u32(bytes, 16),
                peers: peers_from(bytes, 20),
            },
        )
    }
}

/// A UDP scrape request for some content identifiers.
pub struct ScrapeRequest {
    pub connection_id: u64,
    pub action: u32,
    pub transaction_id: u32,
    pub hashes: Vec<[u8; 20]>,
}

impl ToByte for ScrapeRequest {
    open spec fn wire(&self) -> Seq<u8> {
        be_bytes(self.connection_id as nat, 8) + be_bytes(self.action as nat, 4) + be_bytes(
            self.transaction_id as nat,
            4,
        ) + crate::bencode::flatten(Seq::new(self.hashes.len() as nat, |k: int| self.hashes@[k]@))
    }

    fn to_be_bytes(&self) -> (r: Vec<u8>) {
        let mut buf: Vec<u8> = Vec::new();
        push_u64(&mut buf, self.connection_id);
        push_u32(&mut buf, self.action);
        push_u32(&mut buf, self.transaction_id);
        let ghost head = buf@;
        let mut k: usize = 0;
        while k < self.hashes.len()
            invariant
                k <= self.hashes.len(),
                buf@ == head + crate::bencode::flatten(
                    Seq::new(k as nat, |m: int| self.hashes@[m]@),
                ),
            decreases self.hashes.len() - k,
        {
            push_u8s(&mut buf, self.hashes[k].as_slice());
            assert(Seq::new((k + 1) as nat, |m: int| self.hashes@[m]@).drop_last() =~= Seq::new(
                k as nat,
                |m: int| self.hashes@[m]@,
            ));
            k = k + 1;
        }
        assert(buf@ =~= self.wire());
        buf
    }
}

/// The counts of one content identifier in a scrape response.
#[derive(Debug, Clone, Copy)]
pub struct ScrapeSubresponse {
    pub seeders: u32,
    pub completed: u32,
    pub leechers: u32,
}

impl FromByte for ScrapeSubresponse {
    open spec fn read_as(bytes: Seq<u8>, r: Option<Self>) -> bool {
        match r {
            Some(x) => bytes.len() >= 12 && x.seeders == be_value(bytes.subrange(0, 4))
                && x.completed == be_value(bytes.subrange(4, 8)) && x.leechers == be_value(
                bytes.subrange(8, 12),
            ),
            None => bytes.len() < 12,
        }
    }

    fn from_be_bytes(bytes: &[u8]) -> (r: Option<Self>) {
        if bytes.len() < 12 {
            return None;
        }
        Some(
            ScrapeSubresponse {
                seeders: read_u32(bytes, 0),
                completed: read_u32(bytes, 4),
                leechers: read_u32(bytes, 8),
            },
        )
    }
}

/// A UDP scrape response: action, transaction id, then 12 bytes per
/// content identifier.
pub struct ScrapeResponse {
    pub action: u32,
    pub transaction_id: u32,
    pub sub_response: Vec<ScrapeSubresponse>,
}

pub open spec fn counts_view(x: ScrapeSubresponse) -> (nat, nat, nat) {
    (x.seeders as nat, x.completed as nat, x.leechers as nat)
}

pub open spec fn spec_counts(b: Seq<u8>) -> (nat, nat, nat) {
    (be_value(b.subrange(0, 4)), be_value(b.subrange(4, 8)), be_value(b.subrange(8, 12)))
}

impl FromByte for ScrapeResponse {
    open spec fn read_as(bytes: Seq<u8>, r: Option<Self>) -> bool {
        match r {
            Some(x) => bytes.len() >= 8 && (bytes.len() - 8) % 12 == 0 && x.action == be_value(
                bytes.subrange(0, 4),
            ) && x.transaction_id == be_value(bytes.subrange(4, 8)) && x.sub_response.len() == (
            bytes.len() - 8) / 12 && forall|k: int|
                0 <= k < x.sub_response.len() ==> counts_view(#[trigger] x.sub_response@[k])
                    == spec_counts(bytes.subrange(8 + 12 * k, 20 + 12 * k)),
            None => bytes.len() < 8 || (bytes.len() - 8) % 12 != 0,
        }
    }

    fn from_be_bytes(bytes: &[u8]) -> (r: Option<Self>) {
        if bytes.len() < 8 || (bytes.len() - 8) % 12 != 0 {
            return None;
        }
        let mut subs: Vec<ScrapeSubresponse> = Vec::new();
        let mut at: usize = 8;
        while at < bytes.len()
            invariant
                8 <= at <= bytes.len(),
                (bytes.len() - 8) % 12 == 0,
                (at - 8) % 12 == 0,
                subs.len() == (at - 8) / 12,
                forall|k: int|
                    0 <= k < subs.len() ==> counts_view(#[trigger] subs@[k]) == spec_counts(
                        bytes@.subrange(8 + 12 * k, 20 + 12 * k),
                    ),
            decreases bytes.len() - at,
        {
            let x = ScrapeSubresponse {
                seeders: read_u32(bytes, at),
                completed: read_u32(bytes, at + 4),
                leechers: read_u32(bytes, at + 8),
            };
            proof {
                let e = bytes@.subrange(at as int, at + 12);
                assert(e.subrange(0, 4) =~= bytes@.subrange(at as int, at + 4));
                assert(e.subrange(4, 8) =~= bytes@.subrange(at + 4, at + 8));
                assert(e.subrange(8, 12) =~= bytes@.subrange(at + 8, at + 12));
            }
            subs.push(x);
            at = at + 12;
        }
        Some(
            ScrapeResponse {
                action: read_u32(bytes, 0),
                transaction_id: read_u32(bytes, 4),
                sub_response: subs,
            },
        )
    }
}

/// How far a UDP announce has come.
#[derive(Debug, Clone, Copy, PartialEq, Eq, Structural)]
pub enum UdpPhase {
    Connecting,
    Announcing(u64),
    Finished,
}

/// What the caller does next: send a datagram and wait for an answer at
/// most that many seconds, go on waiting, or stop with the response.
pub enum UdpStep {
    Send(Vec<u8>, u64),
    Wait,
    Done(AnnounceResponse),
}

/// What an announce reply is: a protocol error (not a whole response, or
/// not an announce), another transaction's (`false`), or ours (`true`).
pub open spec fn spec_announce_reply(b: Seq<u8>, transaction_id: u32) -> Result<bool, Error> {
    if b.len() < 20 || (b.len() - 20) % 6 != 0 || be_value(b.subrange(0, 4)) != 1 {
        Err(Error::ProtocolError)
    } else {
        Ok(be_value(b.subrange(4, 8)) == transaction_id)
    }
}

/// The most retransmissions of one request.
pub const MAX_ATTEMPT: u32 = 8;

/// How long to wait after attempt `n`: 15 seconds, doubled each time.
pub open spec fn retry_timeout(n: nat) -> nat
    decreases n,
{
    if n == 0 {
        15
    } else {
        2 * retry_timeout((n - 1) as nat)
    }
}

/// A UDP announce in progress: the connect handshake, then the announce,
/// each sent again on a timeout.
pub struct UdpAnnounce {
    pub phase: UdpPhase,
    pub transaction_id: u32,
    pub attempt: u32,
    pub info_hash: [u8; 20],
    pub peer_id: [u8; 20],
    pub downloaded: u64,
    pub left: u64,
    pub uploaded: u64,
    pub event: Event,
    pub key: u32,
    pub num_want: i32,
    pub port: u16,
}

/// The announce request of `u` under connection `c`.
pub open spec fn announce_datagram(u: UdpAnnounce, c: u64) -> Seq<u8> {
    be_bytes(c as nat, 8) + be_bytes(1, 4) + be_bytes(u.transaction_id as nat, 4) + u.info_hash@
        + u.peer_id@ + be_bytes(u.downloaded as nat, 8) + be_bytes(u.left as nat, 8) + be_bytes(
        u.uploaded as nat,
        8,
    ) + be_bytes(event_code(u.event) as nat, 4) + seq![0u8, 0, 0, 0] + be_bytes(u.key as nat, 4)
        + be_bytes((u.num_want as u32) as nat, 4) + be_bytes(u.port as nat, 2)
}

/// The request of the current phase.
pub open spec fn current_request(u: UdpAnnounce) -> Seq<u8> {
    match u.phase {
        UdpPhase::Announcing(c) => announce_datagram(u, c),
        _ => spec_connect_request(u.transaction_id),
    }
}

/// The announce request that follows a connect response carries the
/// connection id that the tracker gave, in its first eight bytes.
pub proof fn lemma_announce_carries_connection_id(u: UdpAnnounce, c: u64)
    ensures
        announce_datagram(u, c).subrange(0, 8) == be_bytes(c as nat, 8),
{
    reveal_with_fuel(be_bytes, 9);
    assert(announce_datagram(u, c).subrange(0, 8) =~= be_bytes(c as nat, 8));
}

impl UdpAnnounce {
    /// The datagram of the current phase.
    pub fn request(&self) -> (r: Vec<u8>)
        ensures
            r@ == current_request(*self),
    {
        match self.phase {
            UdpPhase::Announcing(c) => {
                let req = AnnounceRequest {
                    connection_id: c,
                    action: Action::AnnounceRequest,
                    transaction_id: self.transaction_id,
                    info_hash: self.info_hash,
                    peer_id: self.peer_id,
                    downloaded: self.downloaded,
                    left: self.left,
                    uploaded: self.uploaded,
                    event: self.event,
                    ip: None,
                    key: self.key,
                    num_want: self.num_want,
                    port: self.port,
                };
                req.to_be_bytes()
            },
            _ => connect_request(self.transaction_id),
        }
    }

    /// Takes in a datagram from the tracker. One for another transaction is
    /// set aside, the state unchanged; a connect response moves on to the
    /// announce under the connection id it gives.
    pub fn on_datagram(&mut self, b: &[u8]) -> (r: Result<UdpStep, Error>)
        requires
            old(self).attempt <= MAX_ATTEMPT,
        ensures
            final(self).attempt <= MAX_ATTEMPT,
            old(self).phase == UdpPhase::Connecting ==> match spec_connect_response(
                b@,
                old(self).transaction_id,
            ) {
                Err(e) => r == Err::<UdpStep, Error>(e) && *final(self) == *old(self),
                Ok(None) => r matches Ok(UdpStep::Wait) && *final(self) == *old(self),
                Ok(Some(c)) => r matches Ok(UdpStep::Send(d, t)) && d@ == announce_datagram(
                    *old(self),
                    c,
                ) && t == 15 && *final(self) == (UdpAnnounce {
                    phase: UdpPhase::Announcing(c),
                    attempt: 0,
                    ..*old(self)
                }),
            },
            old(self).phase is Announcing ==> match spec_announce_reply(b@, old(self).transaction_id) {
                Err(e) => r == Err::<UdpStep, Error>(e) && *final(self) == *old(self),
                Ok(false) => r matches Ok(UdpStep::Wait) && *final(self) == *old(self),
                Ok(true) => (r matches Ok(UdpStep::Done(a)) && AnnounceResponse::read_as(b@, Some(a)))
                    && *final(self) == (UdpAnnounce { phase: UdpPhase::Finished, ..*old(self) }),
            },
            old(self).phase == UdpPhase::Finished ==> (r matches Ok(UdpStep::Wait) && *final(self)
                == *old(self)),
    {
        match self.phase {
            UdpPhase::Connecting => {
                match parse_connect_response(b, self.transaction_id) {
                    Err(e) => Err(e),
                    Ok(None) => Ok(UdpStep::Wait),
                    Ok(Some(c)) => {
                        self.phase = UdpPhase::Announcing(c);
                        self.attempt = 0;
                        let d = self.request();
                        proof {
                            reveal_with_fuel(be_bytes, 5);
                        }
                        Ok(UdpStep::Send(d, 15))
                    },
                }
            },
            UdpPhase::Announcing(_) => {
                match AnnounceResponse::from_be_bytes(b) {
                    None => Err(Error::ProtocolError),
                    Some(a) => {
                        if a.action != 1 {
                            Err(Error::ProtocolError)
                        } else if a.transaction_id != self.transaction_id {
                            Ok(UdpStep::Wait)
                        } else {
                            self.phase = UdpPhase::Finished;
                            Ok(UdpStep::Done(a))
                        }
                    },
                }
            },
            UdpPhase::Finished => Ok(UdpStep::Wait),
        }
    }

    /// No answer came in time: send the same request again and wait twice as
    /// long, until the attempts run out.
    pub fn on_timeout(&mut self) -> (r: Result<UdpStep, Error>)
        requires
            old(self).attempt <= MAX_ATTEMPT,
        ensures
            final(self).attempt <= MAX_ATTEMPT,
            old(self).attempt == MAX_ATTEMPT ==> r == Err::<UdpStep, Error>(Error::Timeout)
                && *final(self) == *old(self),
            old(self).attempt < MAX_ATTEMPT ==> (*final(self) == (UdpAnnounce {
                attempt: (old(self).attempt + 1) as u32,
                ..*old(self)
            }) && (r matches Ok(UdpStep::Send(d, t)) && d@ == current_request(*old(self)) && t
                == retry_timeout((old(self).attempt + 1) as nat))),
    {
        if self.attempt >= MAX_ATTEMPT {
            return Err(Error::Timeout);
        }
        self.attempt = self.attempt + 1;
        let mut t: u64 = 15;
        let mut k: u32 = 0;
        while k < self.attempt
            invariant
                k <= self.attempt <= MAX_ATTEMPT,
                t == retry_timeout(k as nat),
                t <= 15 * 256,
            decreases self.attempt - k,
        {
            proof {
                lemma_retry_timeout_bound(k as nat);
            }
            t = t * 2;
            k = k + 1;
        }
        Ok(UdpStep::Send(self.request(), t))
    }
}

proof fn lemma_retry_timeout_bound(n: nat)
    requires
        n < MAX_ATTEMPT,
    ensures
        retry_timeout(n) <= 15 * 128,
{
    reveal_with_fuel(retry_timeout, 9);
}


/// The names of the announce parameters, with what leads them.
pub open spec fn q_info_hash() -> Seq<u8> {
    seq![63u8, 105, 110, 102, 111, 95, 104, 97, 115, 104, 61]
}

pub open spec fn q_peer_id() -> Seq<u8> {
    seq![38u8, 112, 101, 101, 114, 95, 105, 100, 61]
}

pub open spec fn q_port() -> Seq<u8> {
    seq![38u8, 112, 111, 114, 116, 61]
}

pub open spec fn q_uploaded() -> Seq<u8> {
    seq![38u8, 117, 112, 108, 111, 97, 100, 101, 100, 61]
}

pub open spec fn q_downloaded() -> Seq<u8> {
    seq![38u8, 100, 111, 119, 110, 108, 111, 97, 100, 101, 100, 61]
}

pub open spec fn q_left() -> Seq<u8> {
    seq![38u8, 108, 101, 102, 116, 61]
}

pub open spec fn q_compact() -> Seq<u8> {
    seq![38u8, 99, 111, 109, 112, 97, 99, 116, 61]
}

pub open spec fn q_no_peer_id() -> Seq<u8> {
    seq![38u8, 110, 111, 95, 112, 101, 101, 114, 95, 105, 100, 61]
}

pub open spec fn q_event() -> Seq<u8> {
    seq![38u8, 101, 118, 101, 110, 116, 61]
}

pub open spec fn q_ip() -> Seq<u8> {
    seq![38u8, 105, 112, 61]
}

pub open spec fn q_numwant() -> Seq<u8> {
    seq![38u8, 110, 117, 109, 119, 97, 110, 116, 61]
}

pub open spec fn q_key() -> Seq<u8> {
    seq![38u8, 107, 101, 121, 61]
}

pub open spec fn q_trackerid() -> Seq<u8> {
    seq![38u8, 116, 114, 97, 99, 107, 101, 114, 105, 100, 61]
}

/// A lower-case hex digit.
pub open spec fn hex_digit(n: int) -> u8 {
    if n < 10 {
        (48 + n) as u8
    } else {
        (87 + n) as u8
    }
}

/// Every byte as `%xx`: raw bytes are never sent as they are.
pub open spec fn percent_encode(b: Seq<u8>) -> Seq<u8>
    decreases b.len(),
{
    if b.len() == 0 {
        Seq::empty()
    } else {
        percent_encode(b.drop_last()) + seq![37u8, hex_digit(b.last() as int / 16), hex_digit(b.last() as int % 16)]
    }
}

/// An IPv4 address in dotted decimal.
pub open spec fn dotted(a: Seq<u8>) -> Seq<u8> {
    nat_digits(a[0] as nat) + seq![46u8] + nat_digits(a[1] as nat) + seq![46u8] + nat_digits(
        a[2] as nat,
    ) + seq![46u8] + nat_digits(a[3] as nat)
}

/// An HTTP announce request.
pub struct TrackerRequest {
    pub info_hash: [u8; 20],
    pub peer_id: [u8; 20],
    pub port: u16,
    pub uploaded: u64,
    pub downloaded: u64,
    pub left: u64,
    pub compact: u8,
    pub no_peer_id: bool,
    pub event: Event,
    pub ip: Option<[u8; 4]>,
    pub num_want: Option<i32>,
    pub key: Option<u32>,
    pub tracker_id: Option<String>,
}

/// The content identifier and peer identifier parameters.
pub open spec fn ids_part(r: TrackerRequest) -> Seq<u8> {
    q_info_hash() + percent_encode(r.info_hash@) + q_peer_id() + percent_encode(r.peer_id@)
}

/// The port and byte-count parameters.
pub open spec fn counts_part(r: TrackerRequest) -> Seq<u8> {
    q_port() + nat_digits(r.port as nat) + q_uploaded() + nat_digits(r.uploaded as nat)
        + q_downloaded() + nat_digits(r.downloaded as nat) + q_left() + nat_digits(r.left as nat)
}

/// The flag and event parameters.
pub open spec fn flags_part(r: TrackerRequest) -> Seq<u8> {
    q_compact() + nat_digits(r.compact as nat) + q_no_peer_id() + (if r.no_peer_id {
        seq![49u8]
    } else {
        seq![48u8]
    }) + q_event() + event_name(r.event)
}

pub open spec fn ip_part(ip: Option<[u8; 4]>) -> Seq<u8> {
    match ip {
        Some(a) => q_ip() + dotted(a@),
        None => Seq::empty(),
    }
}

pub open spec fn numwant_part(n: Option<i32>) -> Seq<u8> {
    match n {
        Some(n) => q_numwant() + int_digits(n as int),
        None => Seq::empty(),
    }
}

pub open spec fn key_part(k: Option<u32>) -> Seq<u8> {
    match k {
        Some(k) => q_key() + nat_digits(k as nat),
        None => Seq::empty(),
    }
}

pub open spec fn trackerid_part(t: Option<String>) -> Seq<u8> {
    match t {
        Some(t) => q_trackerid() + percent_encode(vstd::utf8::encode_utf8(t@)),
        None => Seq::empty(),
    }
}

/// The optional parameters: each stands only when it is set.
pub open spec fn optional_part(r: TrackerRequest) -> Seq<u8> {
    ip_part(r.ip) + numwant_part(r.num_want) + key_part(r.key) + trackerid_part(r.tracker_id)
}

/// The query string of an announce, as ASCII bytes.
pub open spec fn query_bytes(r: TrackerRequest) -> Seq<u8> {
    ids_part(r) + counts_part(r) + flags_part(r) + optional_part(r)
}

pub open spec fn all_ascii(b: Seq<u8>) -> bool {
    forall|k: int| 0 <= k < b.len() ==> #[trigger] b[k] < 128
}

pub broadcast proof fn lemma_ascii_concat(a: Seq<u8>, b: Seq<u8>)
    requires
        all_ascii(a),
        all_ascii(b),
    ensures
        #[trigger] all_ascii(a + b),
{
    assert forall|k: int| 0 <= k < (a + b).len() implies #[trigger] (a + b)[k] < 128 by {
        if k < a.len() {
            assert((a + b)[k] == a[k]);
        } else {
            assert((a + b)[k] == b[k - a.len()]);
        }
    }
}

/// A record written into a URL query.
pub trait ToUrl {
    /// The query, `?` and all.
    spec fn url_query(&self) -> Seq<char>;

    fn to_url_params(&self) -> (r: String)
        ensures
            r@ == self.url_query(),
    ;
}

fn hex(n: u8) -> (r: u8)
    requires
        n < 16,
    ensures
        r == hex_digit(n as int),
{
    if n < 10 {
        48 + n
    } else {
        87 + n
    }
}

fn push_percent(out: &mut Vec<u8>, b: &[u8])
    ensures
        final(out)@ == old(out)@ + percent_encode(b@),
{
    let ghost start = out@;
    let mut k: usize = 0;
    assert(b@.subrange(0, 0) =~= Seq::<u8>::empty());
    while k < b.len()
        invariant
            k <= b.len(),
            out@ == start + percent_encode(b@.subrange(0, k as int)),
        decreases b.len() - k,
    {
        out.push(37);
        out.push(hex(b[k] / 16));
        out.push(hex(b[k] % 16));
        assert(b@.subrange(0, k + 1).drop_last() =~= b@.subrange(0, k as int));
        k = k + 1;
    }
    assert(b@.subrange(0, k as int) =~= b@);
}

proof fn lemma_digits_ascii(n: nat)
    ensures
        all_ascii(nat_digits(n)),
    decreases n,
{
    if n >= 10 {
        lemma_digits_ascii(n / 10);
        let t = seq![(48 + n % 10) as u8];
        assert(all_ascii(t));
        lemma_ascii_concat(nat_digits(n / 10), t);
        assert(nat_digits(n) =~= nat_digits(n / 10) + t);
    } else {
        assert(all_ascii(nat_digits(n)));
    }
}

proof fn lemma_percent_ascii(b: Seq<u8>)
    ensures
        all_ascii(percent_encode(b)),
    decreases b.len(),
{
    if b.len() > 0 {
        lemma_percent_ascii(b.drop_last());
        let t = seq![37u8, hex_digit(b.last() as int / 16), hex_digit(b.last() as int % 16)];
        assert(all_ascii(t));
        lemma_ascii_concat(percent_encode(b.drop_last()), t);
    } else {
        assert(all_ascii(percent_encode(b)));
    }
}

/// A string of ASCII bytes.
fn ascii_string(bytes: Vec<u8>) -> (r: String)
    requires
        all_ascii(bytes@),
    ensures
        r@ == ascii_chars(bytes@),
{
    let ghost c = ascii_chars(bytes@);
    proof {
        assert(vstd::utf8::is_ascii_chars(c));
        vstd::utf8::is_ascii_chars_encode_utf8(c);
        assert(vstd::utf8::encode_utf8(c) =~= bytes@);
        vstd::utf8::encode_utf8_valid_utf8(c);
        vstd::utf8::encode_utf8_decode_utf8(c);
    }
    match utf8_string(bytes) {
        Some(s) => s,
        None => String::new(),
    }
}

fn push_ids(out: &mut Vec<u8>, r: &TrackerRequest)
    ensures
        final(out)@ == old(out)@ + ids_part(*r),
        all_ascii(ids_part(*r)),
{
    let ghost start = out@;
    let lit: [u8; 11] = [63, 105, 110, 102, 111, 95, 104, 97, 115, 104, 61];
    assert(lit@ =~= q_info_hash());
    push_u8s(out, lit.as_slice());
    push_percent(out, r.info_hash.as_slice());
    let lit: [u8; 9] = [38, 112, 101, 101, 114, 95, 105, 100, 61];
    assert(lit@ =~= q_peer_id());
    push_u8s(out, lit.as_slice());
    push_percent(out, r.peer_id.as_slice());
    assert(out@ =~= start + ids_part(*r));
    proof {
        broadcast use lemma_ascii_concat;

        lemma_percent_ascii(r.info_hash@);
        lemma_percent_ascii(r.peer_id@);
        assert(all_ascii(q_info_hash()) && all_ascii(q_peer_id()));
    }
}

fn push_counts(out: &mut Vec<u8>, r: &TrackerRequest)
    ensures
        final(out)@ == old(out)@ + counts_part(*r),
        all_ascii(counts_part(*r)),
{
    let ghost start = out@;
    let lit: [u8; 6] = [38, 112, 111, 114, 116, 61];
    assert(lit@ =~= q_port());
    push_u8s(out, lit.as_slice());
    push_decimal(r.port as u64, out);
    let lit: [u8; 10] = [38, 117, 112, 108, 111, 97, 100, 101, 100, 61];
    assert(lit@ =~= q_uploaded());
    push_u8s(out, lit.as_slice());
    push_decimal(r.uploaded, out);
    let lit: [u8; 12] = [38, 100, 111, 119, 110, 108, 111, 97, 100, 101, 100, 61];
    assert(lit@ =~= q_downloaded());
    push_u8s(out, lit.as_slice());
    push_decimal(r.downloaded, out);
    let lit: [u8; 6] = [38, 108, 101, 102, 116, 61];
    assert(lit@ =~= q_left());
    push_u8s(out, lit.as_slice());
    push_decimal(r.left, out);
    assert(out@ =~= start + counts_part(*r));
    proof {
        broadcast use lemma_ascii_concat;

        lemma_digits_ascii(r.port as nat);
        lemma_digits_ascii(r.uploaded as nat);
        lemma_digits_ascii(r.downloaded as nat);
        lemma_digits_ascii(r.left as nat);
        assert(all_ascii(q_port()) && all_ascii(q_uploaded()) && all_ascii(q_downloaded())
            && all_ascii(q_left()));
    }
}

fn push_flags(out: &mut Vec<u8>, r: &TrackerRequest)
    ensures
        final(out)@ == old(out)@ + flags_part(*r),
        all_ascii(flags_part(*r)),
{
    let ghost start = out@;
    let lit: [u8; 9] = [38, 99, 111, 109, 112, 97, 99, 116, 61];
    assert(lit@ =~= q_compact());
    push_u8s(out, lit.as_slice());
    push_decimal(r.compact as u64, out);
    let lit: [u8; 12] = [38, 110, 111, 95, 112, 101, 101, 114, 95, 105, 100, 61];
    assert(lit@ =~= q_no_peer_id());
    push_u8s(out, lit.as_slice());
    out.push(if r.no_peer_id { 49 } else { 48 });
    let lit: [u8; 7] = [38, 101, 118, 101, 110, 116, 61];
    assert(lit@ =~= q_event());
    push_u8s(out, lit.as_slice());
    let ev = r.event.name_bytes();
    push_u8s(out, ev.as_slice());
    assert(out@ =~= start + flags_part(*r));
    proof {
        broadcast use lemma_ascii_concat;

        lemma_digits_ascii(r.compact as nat);
        assert(all_ascii(q_compact()) && all_ascii(q_no_peer_id()) && all_ascii(q_event()));
        assert(all_ascii(seq![49u8]) && all_ascii(seq![48u8]));
        assert(all_ascii(event_name(r.event)));
    }
}

fn push_ip(out: &mut Vec<u8>, ip: &Option<[u8; 4]>)
    ensures
        final(out)@ == old(out)@ + ip_part(*ip),
        all_ascii(ip_part(*ip)),
{
    let ghost start = out@;
    if let Some(a) = ip {
        let lit: [u8; 4] = [38, 105, 112, 61];
        assert(lit@ =~= q_ip());
        push_u8s(out, lit.as_slice());
        push_decimal(a[0] as u64, out);
        out.push(46);
        push_decimal(a[1] as u64, out);
        out.push(46);
        push_decimal(a[2] as u64, out);
        out.push(46);
        push_decimal(a[3] as u64, out);
        assert(out@ =~= start + ip_part(*ip));
        proof {
            broadcast use lemma_ascii_concat;

            lemma_digits_ascii(a@[0] as nat);
            lemma_digits_ascii(a@[1] as nat);
            lemma_digits_ascii(a@[2] as nat);
            lemma_digits_ascii(a@[3] as nat);
            assert(all_ascii(q_ip()) && all_ascii(seq![46u8]));
        }
    } else {
        assert(out@ =~= start + ip_part(*ip));
        assert(all_ascii(ip_part(*ip)));
    }
}

fn push_numwant(out: &mut Vec<u8>, n: Option<i32>)
    ensures
        final(out)@ == old(out)@ + numwant_part(n),
        all_ascii(numwant_part(n)),
{
    let ghost start = out@;
    if let Some(n) = n {
        let lit: [u8; 9] = [38, 110, 117, 109, 119, 97, 110, 116, 61];
        assert(lit@ =~= q_numwant());
        push_u8s(out, lit.as_slice());
        if n < 0 {
            out.push(45);
            push_decimal((0 - (n as i64)) as u64, out);
        } else {
            push_decimal(n as u64, out);
        }
        assert(out@ =~= start + numwant_part(Some(n)));
        proof {
            broadcast use lemma_ascii_concat;

            lemma_digits_ascii(if n < 0 { (-n) as nat } else { n as nat });
            assert(all_ascii(q_numwant()) && all_ascii(seq![45u8]));
        }
    } else {
        assert(out@ =~= start + numwant_part(n));
        assert(all_ascii(numwant_part(n)));
    }
}

fn push_key(out: &mut Vec<u8>, k: Option<u32>)
    ensures
        final(out)@ == old(out)@ + key_part(k),
        all_ascii(key_part(k)),
{
    let ghost start = out@;
    if let Some(k) = k {
        let lit: [u8; 5] = [38, 107, 101, 121, 61];
        assert(lit@ =~= q_key());
        push_u8s(out, lit.as_slice());
        push_decimal(k as u64, out);
        assert(out@ =~= start + key_part(Some(k)));
        proof {
            broadcast use lemma_ascii_concat;

            lemma_digits_ascii(k as nat);
            assert(all_ascii(q_key()));
        }
    } else {
        assert(out@ =~= start + key_part(k));
        assert(all_ascii(key_part(k)));
    }
}

fn push_trackerid(out: &mut Vec<u8>, t: &Option<String>)
    ensures
        final(out)@ == old(out)@ + trackerid_part(*t),
        all_ascii(trackerid_part(*t)),
{
    let ghost start = out@;
    if let Some(t) = t {
        let lit: [u8; 11] = [38, 116, 114, 97, 99, 107, 101, 114, 105, 100, 61];
        assert(lit@ =~= q_trackerid());
        push_u8s(out, lit.as_slice());
        push_percent(out, t.as_str().as_bytes());
        assert(out@ =~= start + trackerid_part(Some(*t)));
        proof {
            broadcast use lemma_ascii_concat;

            lemma_percent_ascii(vstd::utf8::encode_utf8(t@));
            assert(all_ascii(q_trackerid()));
        }
    } else {
        assert(out@ =~= start + trackerid_part(*t));
        assert(all_ascii(trackerid_part(*t)));
    }
}

impl ToUrl for TrackerRequest {
    open spec fn url_query(&self) -> Seq<char> {
        ascii_chars(query_bytes(*self))
    }

    fn to_url_params(&self) -> (r: String) {
        let mut out: Vec<u8> = Vec::new();
        push_ids(&mut out, self);
        push_counts(&mut out, self);
        push_flags(&mut out, self);
        push_ip(&mut out, &self.ip);
        push_numwant(&mut out, self.num_want);
        push_key(&mut out, self.key);
        push_trackerid(&mut out, &self.tracker_id);
        proof {
            broadcast use lemma_ascii_concat;

        }
        assert(out@ =~= query_bytes(*self));
        ascii_string(out)
    }
}


/// A tracker's failure answer.
#[derive(Debug)]
pub struct TrackerResponseError {
    pub failure_reason: String,
}

/// A tracker's success answer.
#[derive(Debug)]
pub struct TrackerResponseGood {
    pub warning_message: Option<String>,
    pub interval: u32,
    pub min_interval: Option<u32>,
    pub tracker_id: Option<String>,
    pub complete: u32,
    pub incomplete: u32,
    pub peers: Vec<Peer>,
}

/// A tracker's answer to an HTTP announce: a failure or a success.
#[derive(Debug)]
pub struct TrackerResponse {
    pub failure: Option<TrackerResponseError>,
    pub success: Option<TrackerResponseGood>,
}

pub struct GoodModel {
    pub warning_message: Option<Seq<char>>,
    pub interval: nat,
    pub min_interval: Option<nat>,
    pub tracker_id: Option<Seq<char>>,
    pub complete: nat,
    pub incomplete: nat,
    pub peers: Seq<(Seq<u8>, nat)>,
}

pub open spec fn opt_text_view(t: Option<String>) -> Option<Seq<char>> {
    match t {
        Some(s) => Some(s@),
        None => None,
    }
}

pub open spec fn good_view(g: TrackerResponseGood) -> GoodModel {
    GoodModel {
        warning_message: opt_text_view(g.warning_message),
        interval: g.interval as nat,
        min_interval: match g.min_interval {
            Some(n) => Some(n as nat),
            None => None,
        },
        tracker_id: opt_text_view(g.tracker_id),
        complete: g.complete as nat,
        incomplete: g.incomplete as nat,
        peers: peers_view(g.peers@),
    }
}

/// A required field that holds a 32-bit unsigned integer.
pub open spec fn spec_u32_field(v: Option<Bencode>) -> Result<nat, Error> {
    match v {
        None => Err(Error::MissingField),
        Some(Bencode::Int(n)) => if 0 <= n <= u32::MAX {
            Ok(n as nat)
        } else {
            Err(Error::BadShape)
        },
        Some(_) => Err(Error::BadShape),
    }
}

/// An optional field that holds a 32-bit unsigned integer.
pub open spec fn spec_opt_u32(v: Option<Bencode>) -> Result<Option<nat>, Error> {
    match v {
        None => Ok(None),
        Some(x) => match spec_u32_field(Some(x)) {
            Ok(n) => Ok(Some(n)),
            Err(e) => Err(e),
        },
    }
}

/// An optional text field.
pub open spec fn spec_opt_text(v: Option<Bencode>) -> Result<Option<Seq<char>>, Error> {
    match v {
        None => Ok(None),
        Some(x) => match spec_text(Some(x)) {
            Ok(t) => Ok(Some(t)),
            Err(e) => Err(e),
        },
    }
}

/// The peers of a success answer: the compact list, or none when absent.
pub open spec fn spec_peers_field(v: Option<Bencode>) -> Result<Seq<(Seq<u8>, nat)>, Error> {
    match v {
        None => Ok(Seq::empty()),
        Some(Bencode::Peers(ps)) => Ok(Seq::new(ps.len(), |k: int| spec_peer(ps[k]))),
        Some(_) => Err(Error::BadShape),
    }
}

pub open spec fn failure_reason_key() -> Seq<u8> {
    seq![102u8, 97, 105, 108, 117, 114, 101, 32, 114, 101, 97, 115, 111, 110]
}

pub open spec fn warning_message_key() -> Seq<u8> {
    seq![119u8, 97, 114, 110, 105, 110, 103, 32, 109, 101, 115, 115, 97, 103, 101]
}

pub open spec fn interval_key() -> Seq<u8> {
    seq![105u8, 110, 116, 101, 114, 118, 97, 108]
}

pub open spec fn min_interval_key() -> Seq<u8> {
    seq![109u8, 105, 110, 32, 105, 110, 116, 101, 114, 118, 97, 108]
}

pub open spec fn tracker_id_key() -> Seq<u8> {
    seq![116u8, 114, 97, 99, 107, 101, 114, 32, 105, 100]
}

pub open spec fn complete_key() -> Seq<u8> {
    seq![99u8, 111, 109, 112, 108, 101, 116, 101]
}

pub open spec fn incomplete_key() -> Seq<u8> {
    seq![105u8, 110, 99, 111, 109, 112, 108, 101, 116, 101]
}

/// The success answer of a response dictionary, or the first fault in the
/// order interval, min interval, tracker id, warning, complete, incomplete,
/// peers.
pub open spec fn spec_good(es: Seq<(Seq<u8>, Bencode)>) -> Result<GoodModel, Error> {
    match spec_u32_field(spec_lookup(es, interval_key())) {
        Err(e) => Err(e),
        Ok(interval) => match spec_opt_u32(spec_lookup(es, min_interval_key())) {
            Err(e) => Err(e),
            Ok(min_interval) => match spec_opt_text(spec_lookup(es, tracker_id_key())) {
                Err(e) => Err(e),
                Ok(tracker_id) => match spec_opt_text(spec_lookup(es, warning_message_key())) {
                    Err(e) => Err(e),
                    Ok(warning_message) => match spec_u32_field(spec_lookup(es, complete_key())) {
                        Err(e) => Err(e),
                        Ok(complete) => match spec_u32_field(spec_lookup(es, incomplete_key())) {
                            Err(e) => Err(e),
                            Ok(incomplete) => match spec_peers_field(
                                spec_lookup(es, crate::bencode::peers_key()),
                            ) {
                                Err(e) => Err(e),
                                Ok(peers) => Ok(
                                    GoodModel {
                                        warning_message,
                                        interval,
                                        min_interval,
                                        tracker_id,
                                        complete,
                                        incomplete,
                                        peers,
                                    },
                                ),
                            },
                        },
                    },
                },
            },
        },
    }
}

/// What an HTTP announce response body says: a failure reason when one is
/// there, else the success fields.
pub open spec fn spec_http_response(b: Seq<u8>, r: Result<TrackerResponse, Error>) -> bool {
    match spec_value(b, 0) {
        None => r == Err::<TrackerResponse, Error>(Error::Malformed),
        Some((Bencode::Dict(es), _)) => match spec_lookup(es, failure_reason_key()) {
            Some(f) => match spec_text(Some(f)) {
                Ok(t) => r matches Ok(x) && x.success is None && (x.failure matches Some(fe)
                    && fe.failure_reason@ == t),
                Err(e) => r == Err::<TrackerResponse, Error>(e),
            },
            None => match spec_good(es) {
                Ok(g) => r matches Ok(x) && x.failure is None && (x.success matches Some(xg)
                    && good_view(xg) == g),
                Err(e) => r == Err::<TrackerResponse, Error>(e),
            },
        },
        Some(_) => r == Err::<TrackerResponse, Error>(Error::BadShape),
    }
}

/// A record read from an HTTP response body.
pub trait HTTPResponse: Sized {
    /// `r` is what the body reads as.
    spec fn read_response(body: Seq<u8>, r: Result<Self, Error>) -> bool;

    fn from_http_response(response: &[u8]) -> (r: Result<Self, Error>)
        ensures
            Self::read_response(response@, r),
    ;
}

fn u32_field(v: Option<&Value>) -> (r: Result<u32, Error>)
    ensures
        match r {
            Ok(n) => spec_u32_field(opt_view(v)) == Ok::<nat, Error>(n as nat),
            Err(e) => spec_u32_field(opt_view(v)) == Err::<nat, Error>(e),
        },
{
    match v {
        None => Err(Error::MissingField),
        Some(Value::Number(n)) => if *n >= 0 && *n <= 0xffff_ffff {
            Ok(*n as u32)
        } else {
            Err(Error::BadShape)
        },
        Some(_) => Err(Error::BadShape),
    }
}

fn opt_u32(v: Option<&Value>) -> (r: Result<Option<u32>, Error>)
    ensures
        match r {
            Ok(Some(n)) => spec_opt_u32(opt_view(v)) == Ok::<Option<nat>, Error>(Some(n as nat)),
            Ok(None) => spec_opt_u32(opt_view(v)) == Ok::<Option<nat>, Error>(None),
            Err(e) => spec_opt_u32(opt_view(v)) == Err::<Option<nat>, Error>(e),
        },
{
    match v {
        None => Ok(None),
        Some(x) => match u32_field(Some(x)) {
            Ok(n) => Ok(Some(n)),
            Err(e) => Err(e),
        },
    }
}

fn opt_text(v: Option<&Value>) -> (r: Result<Option<String>, Error>)
    ensures
        match r {
            Ok(t) => spec_opt_text(opt_view(v)) == Ok::<Option<Seq<char>>, Error>(opt_text_view(t)),
            Err(e) => spec_opt_text(opt_view(v)) == Err::<Option<Seq<char>>, Error>(e),
        },
{
    match v {
        None => Ok(None),
        Some(x) => match text(Some(x)) {
            Ok(t) => Ok(Some(t)),
            Err(e) => Err(e),
        },
    }
}

fn good(es: &Vec<crate::bencode::Entry>) -> (r: Result<TrackerResponseGood, Error>)
    ensures
        match r {
            Ok(g) => spec_good(entry_views(es@)) == Ok::<GoodModel, Error>(good_view(g)),
            Err(e) => spec_good(entry_views(es@)) == Err::<GoodModel, Error>(e),
        },
{
    let interval_k: [u8; 8] = [105, 110, 116, 101, 114, 118, 97, 108];
    let min_k: [u8; 12] = [109, 105, 110, 32, 105, 110, 116, 101, 114, 118, 97, 108];
    let tid_k: [u8; 10] = [116, 114, 97, 99, 107, 101, 114, 32, 105, 100];
    let warn_k: [u8; 15] = [119, 97, 114, 110, 105, 110, 103, 32, 109, 101, 115, 115, 97, 103, 101];
    let complete_k: [u8; 8] = [99, 111, 109, 112, 108, 101, 116, 101];
    let incomplete_k: [u8; 10] = [105, 110, 99, 111, 109, 112, 108, 101, 116, 101];
    let peers_k: [u8; 5] = [112, 101, 101, 114, 115];
    assert(interval_k@ =~= interval_key());
    assert(min_k@ =~= min_interval_key());
    assert(tid_k@ =~= tracker_id_key());
    assert(warn_k@ =~= warning_message_key());
    assert(complete_k@ =~= complete_key());
    assert(incomplete_k@ =~= incomplete_key());
    assert(peers_k@ =~= crate::bencode::peers_key());
    let interval = u32_field(lookup(es, interval_k.as_slice()))?;
    let min_interval = opt_u32(lookup(es, min_k.as_slice()))?;
    let tracker_id = opt_text(lookup(es, tid_k.as_slice()))?;
    let warning_message = opt_text(lookup(es, warn_k.as_slice()))?;
    let complete = u32_field(lookup(es, complete_k.as_slice()))?;
    let incomplete = u32_field(lookup(es, incomplete_k.as_slice()))?;
    let peers = match lookup(es, peers_k.as_slice()) {
        None => Vec::new(),
        Some(Value::Peers(p)) => peers_of_entries(p),
        Some(_) => {
            return Err(Error::BadShape);
        },
    };
    let g = TrackerResponseGood {
        warning_message,
        interval,
        min_interval,
        tracker_id,
        complete,
        incomplete,
        peers,
    };
    assert(good_view(g).peers =~= match spec_lookup(entry_views(es@), crate::bencode::peers_key()) {
        Some(Bencode::Peers(ps)) => Seq::new(ps.len(), |k: int| spec_peer(ps[k])),
        _ => Seq::<(Seq<u8>, nat)>::empty(),
    });
    Ok(g)
}

impl HTTPResponse for TrackerResponse {
    open spec fn read_response(body: Seq<u8>, r: Result<Self, Error>) -> bool {
        spec_http_response(body, r)
    }

    fn from_http_response(response: &[u8]) -> (r: Result<Self, Error>) {
        let (root, _) = match parse_next(response, 0) {
            Ok(p) => p,
            Err(e) => {
                return Err(e);
            },
        };
        let es = match &root {
            Value::Dict(es) => es,
            _ => {
                return Err(Error::BadShape);
            },
        };
        proof {
            crate::bencode::lemma_view_dict(*es);
        }
        let fail_k: [u8; 14] = [102, 97, 105, 108, 117, 114, 101, 32, 114, 101, 97, 115, 111, 110];
        assert(fail_k@ =~= failure_reason_key());
        if let Some(f) = lookup(es, fail_k.as_slice()) {
            let t = text(Some(f))?;
            return Ok(
                TrackerResponse {
                    failure: Some(TrackerResponseError { failure_reason: t }),
                    success: None,
                },
            );
        }
        let g = good(es)?;
        Ok(TrackerResponse { failure: None, success: Some(g) })
    }
}

impl TrackerResponse {
    /// The peers of a success answer; a failure answer is a rejection.
    pub fn peers(&self) -> (r: Result<&Vec<Peer>, Error>)
        ensures
            match r {
                Ok(p) => self.success matches Some(g) && self.failure is None && p@ == g.peers@,
                Err(e) => e == Error::TrackerReject && !(self.success is Some && self.failure is None),
            },
    {
        match (&self.failure, &self.success) {
            (None, Some(g)) => Ok(&g.peers),
            _ => Err(Error::TrackerReject),
        }
    }
}


/// The scheme of a URL, when `url::Url::parse` accepts it.
pub uninterp spec fn url_scheme_of(s: Seq<char>) -> Option<Seq<char>>;

/// The host of a URL, when `url::Url::parse` accepts it and it has one.
pub uninterp spec fn url_host_of(s: Seq<char>) -> Option<Seq<char>>;

/// The explicit port of a URL, when `url::Url::parse` accepts it and it
/// names one.
pub uninterp spec fn url_port_of(s: Seq<char>) -> Option<u16>;

/// Relies on `url::Url::parse` and `Url::scheme`: the scheme of a URL that
/// parses, which depends on the text alone.
#[verifier::external_body]
fn url_scheme(s: &str) -> (r: Option<String>)
    ensures
        opt_text_view(r) == url_scheme_of(s@),
{
    url::Url::parse(s).ok().map(|u| u.scheme().to_string())
}

/// Relies on `url::Url::parse` and `Url::host_str`: the host of a URL that
/// parses and has one, which depends on the text alone.
#[verifier::external_body]
fn url_host(s: &str) -> (r: Option<String>)
    ensures
        opt_text_view(r) == url_host_of(s@),
{
    url::Url::parse(s).ok().and_then(|u| u.host_str().map(|h| h.to_string()))
}

/// Relies on `url::Url::parse` and `Url::port`: the port that a URL names,
/// which depends on the text alone.
#[verifier::external_body]
fn url_port(s: &str) -> (r: Option<u16>)
    ensures
        r == url_port_of(s@),
{
    url::Url::parse(s).ok().and_then(|u| u.port())
}

/// The two kinds of tracker.
#[derive(Debug, Clone, Copy, PartialEq, Eq, Structural)]
pub enum TrackerKind {
    Http,
    Udp,
}

pub open spec fn udp_scheme() -> Seq<u8> {
    seq![117u8, 100, 112]
}

pub open spec fn http_scheme() -> Seq<u8> {
    seq![104u8, 116, 116, 112]
}

pub open spec fn https_scheme() -> Seq<u8> {
    seq![104u8, 116, 116, 112, 115]
}

/// The kind of tracker that a scheme names.
pub open spec fn spec_tracker_kind(scheme: Option<Seq<char>>) -> Result<TrackerKind, Error> {
    match scheme {
        Some(sc) => if sc == ascii_chars(udp_scheme()) {
            Ok(TrackerKind::Udp)
        } else if sc == ascii_chars(http_scheme()) || sc == ascii_chars(https_scheme()) {
            Ok(TrackerKind::Http)
        } else {
            Err(Error::ProtocolError)
        },
        None => Err(Error::ProtocolError),
    }
}

/// Whether a string is the ASCII text `lit`.
fn text_is(s: &String, lit: &[u8]) -> (r: bool)
    requires
        all_ascii(lit@),
    ensures
        r == (s@ == ascii_chars(lit@)),
{
    let b = s.as_str().as_bytes();
    let ghost c = ascii_chars(lit@);
    proof {
        assert(vstd::utf8::is_ascii_chars(c));
        vstd::utf8::is_ascii_chars_encode_utf8(c);
        assert(vstd::utf8::encode_utf8(c) =~= lit@);
        vstd::utf8::encode_utf8_decode_utf8(c);
        vstd::utf8::encode_utf8_decode_utf8(s@);
    }
    if b.len() != lit.len() {
        return false;
    }
    let mut k: usize = 0;
    while k < b.len()
        invariant
            b.len() == lit.len(),
            k <= b.len(),
            b@ == vstd::utf8::encode_utf8(s@),
            vstd::utf8::encode_utf8(c) == lit@,
            c == ascii_chars(lit@),
            forall|m: int| 0 <= m < k ==> b@[m] == lit@[m],
        decreases b.len() - k,
    {
        if b[k] != lit[k] {
            assert(b@[k as int] != lit@[k as int]);
            assert(b@ != lit@);
            return false;
        }
        k = k + 1;
    }
    assert(b@ =~= lit@);
    true
}

/// Which protocol a tracker URL speaks, by its scheme.
pub fn check_tracker(url: &str) -> (r: Result<TrackerKind, Error>)
    ensures
        r == spec_tracker_kind(url_scheme_of(url@)),
{
    let udp: [u8; 3] = [117, 100, 112];
    let http: [u8; 4] = [104, 116, 116, 112];
    let https: [u8; 5] = [104, 116, 116, 112, 115];
    assert(udp@ =~= udp_scheme());
    assert(http@ =~= http_scheme());
    assert(https@ =~= https_scheme());
    assert(all_ascii(udp@) && all_ascii(http@) && all_ascii(https@));
    match url_scheme(url) {
        Some(sc) => {
            if text_is(&sc, udp.as_slice()) {
                Ok(TrackerKind::Udp)
            } else if text_is(&sc, http.as_slice()) || text_is(&sc, https.as_slice()) {
                Ok(TrackerKind::Http)
            } else {
                Err(Error::ProtocolError)
            }
        },
        None => Err(Error::ProtocolError),
    }
}

/// The host and port to send UDP tracker datagrams to; the port is 80 when
/// the URL names none.
pub fn udp_tracker_address(url: &str) -> (r: Result<(String, u16), Error>)
    ensures
        match r {
            Ok((h, p)) => url_host_of(url@) == Some(h@) && p == (match url_port_of(url@) {
                Some(p) => p,
                None => 80u16,
            }),
            Err(e) => url_host_of(url@) is None && e == Error::ProtocolError,
        },
{
    let host = match url_host(url) {
        Some(h) => h,
        None => {
            return Err(Error::ProtocolError);
        },
    };
    let port = match url_port(url) {
        Some(p) => p,
        None => 80,
    };
    Ok((host, port))
}

pub assume_specification<T>[ rand::random::<T> ]() -> (r: T)
    where
        rand::distributions::Standard: rand::distributions::Distribution<T>,
;

impl UdpAnnounce {
    /// An announce about to connect, under transaction id `transaction_id`.
    pub fn new(
        info_hash: [u8; 20],
        peer_id: [u8; 20],
        left: u64,
        event: Event,
        key: u32,
        num_want: i32,
        port: u16,
        transaction_id: u32,
    ) -> (r: Self)
        ensures
            r.phase == UdpPhase::Connecting,
            r.attempt == 0,
            r.transaction_id == transaction_id,
            r.info_hash == info_hash,
            r.peer_id == peer_id,
            r.downloaded == 0,
            r.uploaded == 0,
            r.left == left,
            r.event == event,
            r.key == key,
            r.num_want == num_want,
            r.port == port,
    {
        UdpAnnounce {
            phase: UdpPhase::Connecting,
            transaction_id,
            attempt: 0,
            info_hash,
            peer_id,
            downloaded: 0,
            left,
            uploaded: 0,
            event,
            key,
            num_want,
            port,
        }
    }

    /// An announce with a random transaction id, and its first datagram:
    /// the connect request, to wait 15 seconds on.
    pub fn start(
        info_hash: [u8; 20],
        peer_id: [u8; 20],
        left: u64,
        event: Event,
        key: u32,
        num_want: i32,
        port: u16,
    ) -> (r: (Self, Vec<u8>))
        ensures
            r.0.phase == UdpPhase::Connecting,
            r.0.attempt == 0,
            r.0.info_hash == info_hash,
            r.0.peer_id == peer_id,
            r.0.left == left,
            r.0.event == event,
            r.0.key == key,
            r.0.num_want == num_want,
            r.0.port == port,
            r.0.downloaded == 0,
            r.0.uploaded == 0,
            r.1@ == spec_connect_request(r.0.transaction_id),
    {
        let transaction_id: u32 = rand::random::<u32>();
        let u = UdpAnnounce::new(info_hash, peer_id, left, event, key, num_want, port, transaction_id);
        let d = connect_request(transaction_id);
        (u, d)
    }
}


/// The port this client advertises.
pub const LISTEN_PORT: u16 = 6969;

/// How many peers this client asks for.
pub const NUM_WANT: i32 = 100;

/// The first HTTP announce for a torrent: nothing up or down yet, the whole
/// content left (all files, summed), event `started`, compact peers.
pub fn http_request_for(torrent: &Torrent, peer_id: [u8; 20]) -> (r: TrackerRequest)
    requires
        consistent(torrent.info@),
    ensures
        r.info_hash == torrent.info_hash,
        r.peer_id == peer_id,
        r.left as int == total_length(torrent.info@),
        r.uploaded == 0,
        r.downloaded == 0,
        r.event == Event::Started,
        r.compact == 1,
        !r.no_peer_id,
        r.port == LISTEN_PORT,
        r.ip is None,
        r.num_want == Some(NUM_WANT),
        r.key is None,
        r.tracker_id is None,
{
    let left = torrent.info.total_length();
    TrackerRequest {
        info_hash: torrent.info_hash,
        peer_id,
        port: LISTEN_PORT,
        uploaded: 0,
        downloaded: 0,
        left: left as u64,
        compact: 1,
        no_peer_id: false,
        event: Event::Started,
        ip: None,
        num_want: Some(NUM_WANT),
        key: None,
        tracker_id: None,
    }
}

} // verus!
