use bittorrent::metainfo::parse_metainfo;
use bittorrent::peer::{
    check_handshake, handshake_bytes, parse_messages, parse_next_peer_message, ChunkDownload,
    may_retry, PeerHandshake, PeerMessage, PeerMessageID, PeerState, SessionAction, BLOCK_SIZE,
};
use bittorrent::wire::{FromByte, ToByte};
use bittorrent::Error;
use sha1::{Digest, Sha1};

fn frame(id: u8, payload: &[u8]) -> Vec<u8> {
    let mut f = ((payload.len() + 1) as u32).to_be_bytes().to_vec();
    f.push(id);
    f.extend_from_slice(payload);
    f
}

#[test]
fn peer_handshake() {
    let info_hash = [0x11; 20];
    let peer_id = *b"-TR2940-abcdefghijkl";
    let hs = handshake_bytes(&info_hash, &peer_id);
    assert_eq!(hs.len(), 68);
    assert_eq!(hs[0], 19);
    assert_eq!(&hs[1..20], b"BitTorrent protocol");
    assert_eq!(&hs[20..28], &[0u8; 8]);
    assert_eq!(&hs[28..48], &info_hash);
    assert_eq!(&hs[48..68], &peer_id);
    let mut reply = hs.clone();
    reply[48..68].copy_from_slice(&[0x22; 20]);
    assert_eq!(check_handshake(&reply, &info_hash), Ok([0x22; 20]));
    let mut other = reply.clone();
    other[30] ^= 1;
    assert_eq!(check_handshake(&other, &info_hash), Err(Error::IdentifierMismatch));
    let mut wrong = reply.clone();
    wrong[5] = b'x';
    assert_eq!(check_handshake(&wrong, &info_hash), Err(Error::HandshakeFailure));
    assert_eq!(check_handshake(&reply[..67], &info_hash), Err(Error::HandshakeFailure));
}

#[test]
fn handshake_check_is_idempotent() {
    let info_hash = [0x33; 20];
    let reply = handshake_bytes(&info_hash, &[0x44; 20]);
    assert_eq!(check_handshake(&reply, &info_hash), check_handshake(&reply, &info_hash));
    let other = [0x55; 20];
    assert_eq!(check_handshake(&reply, &other), check_handshake(&reply, &other));
}

#[test]
fn handshake_struct_round_trip() {
    let h = PeerHandshake {
        pstr: "BitTorrent protocol".to_string(),
        reserved: [0; 8],
        info_hash: [1; 20],
        peer_id: [2; 20],
    };
    let b = h.to_be_bytes();
    assert_eq!(b, handshake_bytes(&[1; 20], &[2; 20]));
    let back = PeerHandshake::from_be_bytes(&b).unwrap();
    assert_eq!(back.pstr, "BitTorrent protocol");
    assert_eq!(back.info_hash, [1; 20]);
    assert_eq!(back.peer_id, [2; 20]);
    assert!(PeerHandshake::from_be_bytes(&b[..40]).is_none());
}

#[test]
fn message_constructors() {
    let r = PeerMessage::create_request(1, 16384, 100);
    assert_eq!(r.to_be_bytes(), vec![0, 0, 0, 13, 6, 0, 0, 0, 1, 0, 0, 0x40, 0, 0, 0, 0, 100]);
    let i = PeerMessage::create_interested();
    assert_eq!(i.to_be_bytes(), vec![0, 0, 0, 1, 2]);
    let k = PeerMessage { id: PeerMessageID::KeepAlive, length: 0, payload: vec![] };
    assert_eq!(k.to_be_bytes(), vec![0, 0, 0, 0]);
}

#[test]
fn framing_yields_frames_in_order() {
    let mut buf = Vec::new();
    buf.extend_from_slice(&frame(5, &[0x80]));
    buf.extend_from_slice(&[0, 0, 0, 0]);
    buf.extend_from_slice(&frame(1, &[]));
    buf.extend_from_slice(&frame(4, &[0, 0, 0, 3]));
    let (ms, used) = parse_messages(&buf).unwrap();
    assert_eq!(used, buf.len());
    let ids: Vec<PeerMessageID> = ms.iter().map(|m| m.id).collect();
    assert_eq!(
        ids,
        vec![PeerMessageID::Bitfield, PeerMessageID::KeepAlive, PeerMessageID::Unchoke, PeerMessageID::Have]
    );
    assert_eq!(ms[0].payload, vec![0x80]);
    assert_eq!(ms[3].payload, vec![0, 0, 0, 3]);
    let mut round = Vec::new();
    for m in &ms {
        round.extend_from_slice(&m.to_be_bytes());
    }
    assert_eq!(round, buf);
}

#[test]
fn framing_waits_for_whole_frames() {
    let f = frame(7, &[0, 0, 0, 0, 0, 0, 0, 0, 9, 9]);
    assert!(matches!(parse_next_peer_message(&f[..3]), Ok(None)));
    assert!(matches!(parse_next_peer_message(&f[..10]), Ok(None)));
    match parse_next_peer_message(&f) {
        Ok(Some((m, used))) => {
            assert_eq!(m.id, PeerMessageID::Piece);
            assert_eq!(m.length, 11);
            assert_eq!(used, 15);
        }
        _ => panic!("expected a frame"),
    }
    let (ms, used) = parse_messages(&f[..12]).unwrap();
    assert!(ms.is_empty());
    assert_eq!(used, 0);
}

#[test]
fn unknown_message_id_is_protocol_error() {
    assert!(matches!(parse_next_peer_message(&frame(20, &[])), Err(Error::ProtocolError)));
    let mut buf = frame(0, &[]);
    buf.extend_from_slice(&frame(10, &[1]));
    assert!(matches!(parse_messages(&buf), Err(Error::ProtocolError)));
}

#[test]
fn have_grows_the_bitfield() {
    let mut st = PeerState::new(10);
    let (ms, _) = parse_messages(&frame(5, &[0b1010_0000, 0b0100_0000])).unwrap();
    st.handle(&ms[0]).unwrap();
    assert_eq!(st.have, vec![true, false, true, false, false, false, false, false, false, true]);
    let before = st.have.clone();
    let (ms, _) = parse_messages(&frame(4, &[0, 0, 0, 3])).unwrap();
    st.handle(&ms[0]).unwrap();
    for (k, h) in before.iter().enumerate() {
        assert!(!h || st.have[k]);
    }
    assert!(st.have[3]);
    let (ms, _) = parse_messages(&frame(4, &[0, 0, 0, 10])).unwrap();
    assert_eq!(st.handle(&ms[0]), Err(Error::ProtocolError));
    let (ms, _) = parse_messages(&frame(5, &[0])).unwrap();
    assert_eq!(st.handle(&ms[0]), Err(Error::ProtocolError));
    assert!(st.have[0] && st.have[3]);
}

#[test]
fn choke_and_unchoke() {
    let mut st = PeerState::new(1);
    assert!(st.peer_choking);
    st.handle(&PeerMessage { id: PeerMessageID::Unchoke, length: 1, payload: vec![] }).unwrap();
    assert!(!st.peer_choking);
    st.handle(&PeerMessage { id: PeerMessageID::Choke, length: 1, payload: vec![] }).unwrap();
    assert!(st.peer_choking);
}

fn one_chunk_torrent(content: &[u8]) -> Vec<u8> {
    let digest: [u8; 20] = Sha1::digest(content).into();
    let mut m = format!("d4:infod6:lengthi{}e4:name1:x12:piece lengthi{}e6:pieces20:", content.len(), content.len())
        .into_bytes();
    m.extend_from_slice(&digest);
    m.extend_from_slice(b"ee");
    m
}

#[test]
fn single_chunk_download() {
    let content: Vec<u8> = (0..20000u32).map(|k| (k % 251) as u8).collect();
    let torrent = parse_metainfo(&one_chunk_torrent(&content)).unwrap();
    let mut st = PeerState::new(torrent.info.pieces.len());
    assert_eq!(st.decide(&vec![false], false), SessionAction::Wait);
    let (ms, _) = parse_messages(&frame(5, &[0x80])).unwrap();
    st.handle(&ms[0]).unwrap();
    assert_eq!(st.next_wanted(&vec![false]), Some(0));
    assert_eq!(st.decide(&vec![false], false), SessionAction::SendInterested);
    assert_eq!(PeerMessage::create_interested().to_be_bytes(), vec![0, 0, 0, 1, 2]);
    assert_eq!(st.decide(&vec![false], true), SessionAction::Wait);
    let (ms, _) = parse_messages(&frame(1, &[])).unwrap();
    st.handle(&ms[0]).unwrap();
    assert!(!st.peer_choking);
    assert_eq!(st.decide(&vec![false], true), SessionAction::Download(0));
    let mut dl = ChunkDownload::for_chunk(&torrent.info, 0).unwrap();
    let first = dl.next_request().unwrap();
    assert_eq!(first.to_be_bytes(), PeerMessage::create_request(0, 0, BLOCK_SIZE.min(20000)).to_be_bytes());
    let second = dl.next_request().unwrap();
    assert_eq!(second.to_be_bytes(), PeerMessage::create_request(0, 16384, 20000 - 16384).to_be_bytes());
    assert!(dl.next_request().is_none());
    for begin in [16384u32, 0] {
        let end = (begin as usize + 16384).min(20000);
        let mut payload = vec![0, 0, 0, 0];
        payload.extend_from_slice(&begin.to_be_bytes());
        payload.extend_from_slice(&content[begin as usize..end]);
        let (ms, _) = parse_messages(&frame(7, &payload)).unwrap();
        assert_eq!(dl.on_piece(&ms[0], 1), Ok(true));
    }
    assert!(dl.is_complete());
    assert_eq!(dl.finish(&torrent.info.pieces[0]), Ok(content));
    assert_eq!(st.decide(&vec![true], true), SessionAction::Finished);
}

#[test]
fn requests_start_over_after_a_choke() {
    let mut dl = ChunkDownload::new(3, 40000);
    let mut begins = Vec::new();
    while let Some(m) = dl.next_request() {
        begins.push(u32::from_be_bytes([m.payload[4], m.payload[5], m.payload[6], m.payload[7]]));
    }
    assert_eq!(begins, vec![0, 16384, 32768]);
    dl.restart_requests();
    assert_eq!(dl.requested, 0);
    let m = dl.next_request().unwrap();
    assert_eq!(m.payload, vec![0, 0, 0, 3, 0, 0, 0, 0, 0, 0, 0x40, 0]);
}

#[test]
fn piece_checks() {
    let mut dl = ChunkDownload::new(2, 100);
    assert!(!dl.is_complete());
    let mut wrong_index = vec![0, 0, 0, 1, 0, 0, 0, 0];
    wrong_index.extend_from_slice(&[1; 100]);
    let m = PeerMessage { id: PeerMessageID::Piece, length: 109, payload: wrong_index };
    assert_eq!(dl.on_piece(&m, 5), Ok(false));
    assert_eq!(dl.on_piece(&m, 1), Err(Error::ProtocolError));
    let mut past_end = vec![0, 0, 0, 2, 0, 0, 0, 1];
    past_end.extend_from_slice(&[1; 100]);
    let m = PeerMessage { id: PeerMessageID::Piece, length: 109, payload: past_end };
    assert_eq!(dl.on_piece(&m, 5), Err(Error::ProtocolError));
    let m = PeerMessage { id: PeerMessageID::Piece, length: 9, payload: vec![0, 0, 0, 2, 0, 0, 0, 101] };
    assert_eq!(dl.on_piece(&m, 5), Err(Error::ProtocolError));
    let m = PeerMessage { id: PeerMessageID::Piece, length: 5, payload: vec![0, 0, 0, 2] };
    assert_eq!(dl.on_piece(&m, 5), Err(Error::ProtocolError));
    assert!(!dl.is_complete());
}

#[test]
fn unaligned_blocks_in_range_are_taken() {
    let mut dl = ChunkDownload::new(2, 100);
    let mut head = vec![0, 0, 0, 2, 0, 0, 0, 0];
    head.extend_from_slice(&[7; 30]);
    let m = PeerMessage { id: PeerMessageID::Piece, length: 39, payload: head };
    assert_eq!(dl.on_piece(&m, 5), Ok(true));
    assert!(!dl.is_complete());
    let mut tail = vec![0, 0, 0, 2, 0, 0, 0, 30];
    tail.extend_from_slice(&[9; 70]);
    let m = PeerMessage { id: PeerMessageID::Piece, length: 79, payload: tail };
    assert_eq!(dl.on_piece(&m, 5), Ok(true));
    assert!(dl.is_complete());
    assert_eq!(&dl.buffer[..30], &[7u8; 30][..]);
    assert_eq!(&dl.buffer[30..], &[9u8; 70][..]);
}

#[test]
fn digest_mismatch() {
    let mut dl = ChunkDownload::new(0, 4);
    let m = PeerMessage { id: PeerMessageID::Piece, length: 13, payload: vec![0, 0, 0, 0, 0, 0, 0, 0, 1, 2, 3, 4] };
    assert_eq!(dl.on_piece(&m, 1), Ok(true));
    assert!(dl.is_complete());
    let good: [u8; 20] = Sha1::digest([1u8, 2, 3, 4]).into();
    assert_eq!(dl.finish(&good), Ok(vec![1, 2, 3, 4]));
    assert_eq!(dl.finish(&[0; 20]), Err(Error::DigestMismatch));
}

#[test]
fn messages_during_a_chunk() {
    let mut st = PeerState::new(2);
    st.handle(&PeerMessage { id: PeerMessageID::Unchoke, length: 1, payload: vec![] }).unwrap();
    let mut dl = ChunkDownload::new(1, 4);
    assert!(dl.next_request().is_some());
    let choke = PeerMessage { id: PeerMessageID::Choke, length: 1, payload: vec![] };
    assert_eq!(dl.on_message(&mut st, &choke, 2), Ok(false));
    assert!(st.peer_choking);
    assert_eq!(dl.requested, 1);
    let unchoke = PeerMessage { id: PeerMessageID::Unchoke, length: 1, payload: vec![] };
    assert_eq!(dl.on_message(&mut st, &unchoke, 2), Ok(true));
    assert_eq!(dl.requested, 0);
    let piece = PeerMessage { id: PeerMessageID::Piece, length: 13, payload: vec![0, 0, 0, 1, 0, 0, 0, 0, 9, 8, 7, 6] };
    assert_eq!(dl.on_message(&mut st, &piece, 2), Ok(false));
    assert!(dl.is_complete());
    assert_eq!(dl.buffer, vec![9, 8, 7, 6]);
    let bad_have = PeerMessage { id: PeerMessageID::Have, length: 5, payload: vec![0, 0, 0, 7] };
    assert_eq!(dl.on_message(&mut st, &bad_have, 2), Err(Error::ProtocolError));
}

#[test]
fn a_chunk_is_retried_once() {
    assert!(may_retry(1));
    assert!(!may_retry(2));
}
