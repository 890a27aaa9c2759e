use bittorrent::bencode::{decode_all, encode_value, Value};
use bittorrent::metainfo::{
    encode_torrent, file_to_value, get_info_hash, get_info_span, info_to_value, parse_metainfo,
    File, Info,
};
use bittorrent::Error;
use sha1::{Digest, Sha1};

fn info_bytes() -> Vec<u8> {
    let mut info = b"d6:lengthi30000e4:name5:hello12:piece lengthi16384e6:pieces40:".to_vec();
    info.extend_from_slice(&[0xaa; 20]);
    info.extend_from_slice(&[0xbb; 20]);
    info.push(b'e');
    info
}

fn metainfo_bytes() -> Vec<u8> {
    let mut m = b"d8:announce28:http://tracker.test/announce4:info".to_vec();
    m.extend_from_slice(&info_bytes());
    m.push(b'e');
    m
}

fn sha1(b: &[u8]) -> [u8; 20] {
    Sha1::digest(b).into()
}

#[test]
fn metainfo_round_trip_scenario() {
    let t = parse_metainfo(&metainfo_bytes()).unwrap();
    assert_eq!(t.info.name, "hello");
    assert_eq!(t.info.piece_length, 16384);
    assert_eq!(t.info.pieces.len(), 2);
    assert_eq!(t.info.pieces[0], [0xaa; 20]);
    assert_eq!(t.info.length, Some(30000));
    assert!(t.info.files.is_none());
    assert_eq!(t.info.total_length(), 30000);
    assert_eq!(t.info.chunk_length(0), 16384);
    assert_eq!(t.info.chunk_length(1), 13616);
    assert_eq!(t.info_hash, sha1(&info_bytes()));
    assert_eq!(t.trackers, vec!["http://tracker.test/announce".to_string()]);
}

#[test]
fn info_span_is_the_info_dictionary() {
    let m = metainfo_bytes();
    let (b, e) = get_info_span(&m).unwrap();
    assert_eq!(&m[b..e], &info_bytes()[..]);
    assert_eq!(m[b], b'd');
    assert_eq!(get_info_hash(&m).unwrap(), sha1(&info_bytes()));
}

#[test]
fn final_chunk_holds_the_remainder() {
    let t = parse_metainfo(&metainfo_bytes()).unwrap();
    assert_eq!(t.info.chunk_length(1) as i64, 30000 % 16384);
}

#[test]
fn final_chunk_is_whole_when_lengths_divide() {
    let mut info = b"d6:lengthi32768e4:name1:x12:piece lengthi16384e6:pieces40:".to_vec();
    info.extend_from_slice(&[1u8; 40]);
    info.push(b'e');
    let mut m = b"d4:info".to_vec();
    m.extend_from_slice(&info);
    m.push(b'e');
    let t = parse_metainfo(&m).unwrap();
    assert_eq!(t.info.chunk_length(1), 16384);
    assert!(t.trackers.is_empty());
}

#[test]
fn multi_file_length_is_the_sum() {
    let mut info =
        b"d5:filesld6:lengthi10e4:pathl1:a1:beed6:lengthi25e4:pathl1:ceee4:name3:dir12:piece lengthi32e6:pieces40:"
            .to_vec();
    info.extend_from_slice(&[5u8; 40]);
    info.push(b'e');
    let mut m = b"d13:announce-listll5:udp:a5:udp:bel5:udp:cee4:info".to_vec();
    m.extend_from_slice(&info);
    m.push(b'e');
    let t = parse_metainfo(&m).unwrap();
    let files = t.info.files.as_ref().unwrap();
    assert_eq!(files.len(), 2);
    assert_eq!(files[0].length, 10);
    assert_eq!(files[0].path, vec!["a".to_string(), "b".to_string()]);
    assert_eq!(files[1].path, vec!["c".to_string()]);
    assert_eq!(t.info.total_length(), 35);
    assert_eq!(t.info.chunk_length(1), 3);
    assert_eq!(t.trackers, vec!["udp:a".to_string(), "udp:b".to_string(), "udp:c".to_string()]);
}

#[test]
fn metainfo_errors() {
    assert!(matches!(parse_metainfo(&b"d4:info".to_vec()), Err(Error::Malformed)));
    assert!(matches!(parse_metainfo(&b"le".to_vec()), Err(Error::BadShape)));
    assert!(matches!(parse_metainfo(&b"de".to_vec()), Err(Error::MissingField)));
    assert!(matches!(parse_metainfo(&b"d4:infoi1ee".to_vec()), Err(Error::BadShape)));
    let no_name = b"d4:infod6:lengthi1e12:piece lengthi1e6:pieces0:ee".to_vec();
    assert!(matches!(parse_metainfo(&no_name), Err(Error::MissingField)));
    let mut bad_count = b"d4:infod6:lengthi1e4:name1:x12:piece lengthi1e6:pieces40:".to_vec();
    bad_count.extend_from_slice(&[0u8; 40]);
    bad_count.extend_from_slice(b"ee");
    assert!(matches!(parse_metainfo(&bad_count), Err(Error::BadShape)));
    let mut zero_piece = b"d4:infod6:lengthi1e4:name1:x12:piece lengthi0e6:pieces20:".to_vec();
    zero_piece.extend_from_slice(&[0u8; 20]);
    zero_piece.extend_from_slice(b"ee");
    assert!(matches!(parse_metainfo(&zero_piece), Err(Error::BadShape)));
    let mut bad_name = b"d4:infod6:lengthi1e4:name1:\xff12:piece lengthi1e6:pieces20:".to_vec();
    bad_name.extend_from_slice(&[0u8; 20]);
    bad_name.extend_from_slice(b"ee");
    assert!(matches!(parse_metainfo(&bad_name), Err(Error::BadShape)));
    let mut odd_pieces = b"d4:infod6:lengthi1e4:name1:x12:piece lengthi1e6:pieces19:".to_vec();
    odd_pieces.extend_from_slice(&[0u8; 19]);
    odd_pieces.extend_from_slice(b"ee");
    assert!(matches!(parse_metainfo(&odd_pieces), Err(Error::Malformed)));
}

#[test]
fn info_value_encodes_in_key_order() {
    let info = Info {
        name: "hello".to_string(),
        piece_length: 16384,
        pieces: vec![[0xaa; 20], [0xbb; 20]],
        length: Some(30000),
        files: None,
    };
    assert_eq!(encode_value(info_to_value(&info)), info_bytes());
}

#[test]
fn file_value_has_length_and_path() {
    let f = File { length: 7, path: vec!["x".to_string(), "yz".to_string()] };
    assert_eq!(encode_value(file_to_value(&f)), b"d6:lengthi7e4:pathl1:x2:yzee".to_vec());
}

#[test]
fn encoded_torrent_parses_back() {
    let t = parse_metainfo(&metainfo_bytes()).unwrap();
    let bytes = encode_torrent(&t);
    let back = parse_metainfo(&bytes).unwrap();
    assert_eq!(back.trackers, t.trackers);
    assert_eq!(back.info.name, t.info.name);
    assert_eq!(back.info.pieces, t.info.pieces);
    assert_eq!(back.info_hash, t.info_hash);
    assert!(matches!(decode_all(&bytes), Ok(Value::Dict(_))));
}

#[test]
fn consistency_check() {
    let mut t = parse_metainfo(&metainfo_bytes()).unwrap();
    assert!(t.info.is_consistent());
    t.info.length = Some(50000);
    assert!(!t.info.is_consistent());
}
