use rustorrent::bencode::decode::parse_value;
use rustorrent::bencode::encode::encode;
use rustorrent::bencode::model::{BencodeParseError, BencodeValue};
use rustorrent::bencode::value::JsonValue;
use rustorrent::bencode::dict::lookup;
use rustorrent::bencode::decode;
use rustorrent::peer::peer::{
    assemble_file, block_request, build_handshake, handshake_peer_id, num_blocks, peer_for_piece, piece_size,
    verify_piece, DownloadStep, PieceDownload, BLOCK_SIZE,
};
use rustorrent::peer::peer_id::PeerID;
use rustorrent::peer::value::{frame_length, frame_start, FrameStart, PeerError, PeerMessage, PeerMessageType};
use rustorrent::torrent::client::{Client, ClientError};
use rustorrent::torrent::value::{Info, MetaInfo, TorrentError};
use rustorrent::tracker::tracker::{build_request, parse_response, tracker_url};
use rustorrent::tracker::value::{PeerAddr, TrackerError, TrackerRequest, PEER_ID};

fn reencode(input: &[u8]) -> Vec<u8> {
    encode(&decode(input).expect("decodes"))
}

fn decode_err(input: &[u8]) -> BencodeParseError {
    match decode(input) {
        Ok(_) => panic!("expected an error for {:?}", String::from_utf8_lossy(input)),
        Err(e) => e,
    }
}

fn reason(e: BencodeParseError) -> String {
    match e {
        BencodeParseError::InvalidInteger { reason } => reason,
        other => panic!("expected InvalidInteger, got {:?}", other),
    }
}

#[test]
fn canonical_inputs_encode_back_to_themselves() {
    for input in [
        "i0e",
        "i-42e",
        "i9223372036854775807e",
        "i-9223372036854775808e",
        "0:",
        "11:hello:world",
        "le",
        "lli4eei5ee",
        "de",
        "d3:foo5:hello5:helloi52ee",
        "d10:inner_dictd4:key16:value14:key2i42e8:list_keyl5:item15:item2i3eeee",
    ] {
        assert_eq!(reencode(input.as_bytes()), input.as_bytes(), "input: {input}");
    }
}

#[test]
fn built_values_decode_back() {
    let value = BencodeValue::List(vec![
        BencodeValue::Integer(i64::MIN),
        BencodeValue::Integer(i64::MAX),
        BencodeValue::ByteString(vec![0, 255, b':', b'e']),
        BencodeValue::Dict(vec![
            (b"a".to_vec(), BencodeValue::List(vec![])),
            (b"b".to_vec(), BencodeValue::Dict(vec![])),
        ]),
    ]);
    let bytes = encode(&value);
    assert_eq!(
        bytes,
        b"li-9223372036854775808ei9223372036854775807e4:\x00\xff:ed1:ale1:bdeee".to_vec()
    );
    let back = decode(&bytes).unwrap();
    assert_eq!(encode(&back), bytes);
}

#[test]
fn integer_errors() {
    assert_eq!(reason(decode_err(b"ie")), "empty string");
    assert_eq!(reason(decode_err(b"i-0e")), "no leading 0s");
    assert_eq!(reason(decode_err(b"i05e")), "no leading 0s");
    assert_eq!(reason(decode_err(b"i+5e")), "plus sign (+) not allowed");
    assert_eq!(reason(decode_err(b"i-e")), "invalid digit found in string");
    assert_eq!(reason(decode_err(b"i1x2e")), "invalid digit found in string");
    assert_eq!(
        reason(decode_err(b"i9223372036854775808e")),
        "number too large to fit in target type"
    );
    assert_eq!(
        reason(decode_err(b"i-9223372036854775809e")),
        "number too small to fit in target type"
    );
    assert!(matches!(decode_err(b"i\xffe"), BencodeParseError::InvalidUtf8(_)));
    assert!(matches!(
        decode_err(b"i52"),
        BencodeParseError::MissingDelimiter { delimiter: 'e' }
    ));
}

#[test]
fn byte_string_errors() {
    assert!(matches!(
        decode_err(b"5hello"),
        BencodeParseError::MissingDelimiter { delimiter: ':' }
    ));
    assert!(matches!(decode_err(b"10:abc"), BencodeParseError::ShortInput));
    assert_eq!(reason(decode_err(b"3x:abc")), "invalid digit found in string");
    assert_eq!(
        reason(decode_err(b"99999999999999999999999:a")),
        "number too large to fit in target type"
    );
    assert!(matches!(decode_err(b"1\xff:a"), BencodeParseError::InvalidUtf8(_)));
}

#[test]
fn structure_errors() {
    assert!(matches!(decode_err(b""), BencodeParseError::UnexpectedEof));
    assert!(matches!(decode_err(b"x"), BencodeParseError::UnknownType('x')));
    assert!(matches!(decode_err(b"i1ei2e"), BencodeParseError::TrailingData));
    assert!(matches!(decode_err(b"li1e"), BencodeParseError::InvalidListElement));
    assert!(matches!(decode_err(b"lxe"), BencodeParseError::InvalidListElement));
    assert!(matches!(decode_err(b"di1ei2ee"), BencodeParseError::InvalidDictKey));
    assert!(matches!(decode_err(b"d1:ae"), BencodeParseError::InvalidDictValue));
    assert!(matches!(decode_err(b"d1:ai1e"), BencodeParseError::InvalidDictKey));
}

#[test]
fn parse_value_hands_back_the_rest() {
    let (value, rest) = parse_value(b"i1eabc").unwrap();
    assert_eq!(value.as_integer().unwrap(), 1);
    assert_eq!(rest, b"abc");
    let (value, rest) = parse_value(b"4:spamxyz").unwrap();
    assert_eq!(value.as_bytes().unwrap(), b"spam");
    assert_eq!(rest, b"xyz");
}

#[test]
fn from_bytes_is_decode() {
    assert_eq!(BencodeValue::from_bytes(b"i7e").unwrap().as_integer().unwrap(), 7);
    assert!(matches!(
        BencodeValue::from_bytes(b"i7ei8e"),
        Err(BencodeParseError::TrailingData)
    ));
}

#[test]
fn dictionaries_sort_keys_and_keep_the_last_value() {
    assert_eq!(reencode(b"d1:bi1e1:ai2ee"), b"d1:ai2e1:bi1ee".to_vec());
    assert_eq!(reencode(b"d1:ai1e1:ai2ee"), b"d1:ai2ee".to_vec());
    let v = decode(b"d2:abi1e1:ai2e1:bi3ee").unwrap();
    let d = v.as_dict().unwrap();
    let keys: Vec<&[u8]> = d.iter().map(|(k, _)| k.as_slice()).collect();
    assert_eq!(keys, vec![&b"a"[..], &b"ab"[..], &b"b"[..]]);
    assert_eq!(lookup(d, b"ab").unwrap().as_integer().unwrap(), 1);
    assert!(lookup(d, b"c").is_none());
}

#[test]
fn accessors_report_the_kind() {
    let v = decode(b"4:spam").unwrap();
    assert_eq!(v.as_bytes().unwrap(), b"spam");
    assert_eq!(v.as_byte_string().unwrap(), &b"spam".to_vec());
    match v.as_integer() {
        Err(BencodeParseError::TypeMismatch { expected, actual }) => {
            assert_eq!(expected, "integer");
            assert_eq!(actual, "byte string");
        }
        _ => panic!("expected a type mismatch"),
    }
    let l = decode(b"li1ei2ee").unwrap();
    assert_eq!(l.as_vec().unwrap().len(), 2);
    assert!(matches!(
        l.as_dict(),
        Err(BencodeParseError::TypeMismatch { expected: "dict", actual: "list" })
    ));
    let d = decode(b"de").unwrap();
    assert!(matches!(
        d.as_vec(),
        Err(BencodeParseError::TypeMismatch { expected: "list", actual: "dict" })
    ));
    assert_eq!(d.kind_label(), "dict");
}

fn sample_torrent(length: &str, pieces: &[u8]) -> Vec<u8> {
    let mut info = Vec::new();
    info.extend_from_slice(format!("d6:lengthi{length}e4:name10:sample.txt12:piece lengthi32768e6:pieces{}:", pieces.len()).as_bytes());
    info.extend_from_slice(pieces);
    info.push(b'e');
    let mut out = Vec::new();
    out.extend_from_slice(b"d8:announce31:http://tracker.example/announce4:info");
    out.extend_from_slice(&info);
    out.push(b'e');
    out
}

#[test]
fn metainfo_reads_fields_and_hash() {
    let pieces: Vec<u8> = (0u8..60).collect();
    let bytes = sample_torrent("92063", &pieces);
    let meta = MetaInfo::from_bytes(&bytes).unwrap();
    assert_eq!(meta.announce, "http://tracker.example/announce");
    assert_eq!(meta.info.length, 92063);
    assert_eq!(meta.info.name, "sample.txt");
    assert_eq!(meta.info.piece_length, 32768);
    assert_eq!(meta.info.pieces.len(), 3);
    assert_eq!(meta.info.pieces[1].to_vec(), (20u8..40).collect::<Vec<u8>>());
    let start = bytes.windows(5).position(|w| w == b"infod").unwrap() + 4;
    let info_bytes = &bytes[start..bytes.len() - 1];
    let expected: [u8; 20] = <sha1::Sha1 as sha1::Digest>::digest(info_bytes).into();
    assert_eq!(meta.info.hash, expected);
    assert_eq!(meta.info.hash_hex(), hex::encode(expected));
    let hexes = meta.info.piece_hashes_hex();
    assert_eq!(hexes[0], "000102030405060708090a0b0c0d0e0f10111213");
}

#[test]
fn metainfo_errors() {
    assert!(matches!(
        MetaInfo::from_bytes(b"d4:infodee"),
        Err(TorrentError::MissingKey(k)) if k == "announce"
    ));
    assert!(matches!(
        MetaInfo::from_bytes(b"li1ee"),
        Err(TorrentError::Bencode(BencodeParseError::TypeMismatch { expected: "dict", .. }))
    ));
    let negative = sample_torrent("-1", &[0u8; 20]);
    assert!(matches!(
        MetaInfo::from_bytes(&negative),
        Err(TorrentError::InvalidValue(m)) if m == "'length' is negative"
    ));
    let short = sample_torrent("10", &[0u8; 21]);
    assert!(matches!(
        MetaInfo::from_bytes(&short),
        Err(TorrentError::InvalidValue(m)) if m == "pieces is not multiple of 20"
    ));
    assert!(matches!(
        MetaInfo::from_bytes(b"i1ei2e"),
        Err(TorrentError::Bencode(BencodeParseError::TrailingData))
    ));
}

#[test]
fn client_starts_with_zero_counts() {
    let bytes = sample_torrent("92063", &[7u8; 60]);
    let client = Client::from_torrent_bytes(&bytes).unwrap();
    assert_eq!(client.peer_id, PEER_ID);
    assert_eq!(client.torrent.uploaded, 0);
    assert_eq!(client.torrent.downloaded, 0);
    assert_eq!(client.torrent.left, 0);
    assert!(matches!(
        Client::from_torrent_bytes(b"de"),
        Err(ClientError::ParseTorrent(TorrentError::MissingKey(_)))
    ));
}

#[test]
fn tracker_request_and_query() {
    let bytes = sample_torrent("92063", &[7u8; 60]);
    let meta = MetaInfo::from_bytes(&bytes).unwrap();
    let req = build_request(&meta);
    assert_eq!(req.url, "http://tracker.example/announce");
    assert_eq!(req.left, 92063);
    assert_eq!(req.port, 6881);
    assert_eq!(req.compact, 1);
    let q = TrackerRequest {
        url: "http://t/announce",
        info_hash: &[0x00, 0x41, 0x7e, 0xff, 0x2d],
        peer_id: b"ab c",
        port: 6881,
        uploaded: 1,
        downloaded: 22,
        left: 333,
        compact: 1,
    }
    .to_query();
    assert_eq!(
        q,
        "info_hash=%00A~%FF-&peer_id=ab%20c&port=6881&uploaded=1&downloaded=22&left=333&compact=1"
    );
}

#[test]
fn tracker_urls() {
    let req = TrackerRequest {
        url: "http://tracker.example/announce",
        info_hash: b"h",
        peer_id: b"p",
        port: 6881,
        uploaded: 0,
        downloaded: 0,
        left: 5,
        compact: 1,
    };
    assert_eq!(
        tracker_url(&req).unwrap(),
        "http://tracker.example/announce?info_hash=h&peer_id=p&port=6881&uploaded=0&downloaded=0&left=5&compact=1"
    );
    let udp = TrackerRequest { url: "udp://tracker.example:80", ..req };
    assert!(matches!(tracker_url(&udp), Err(TrackerError::InvalidUrl(u)) if u == "udp://tracker.example:80"));
    let bad = TrackerRequest { url: "no scheme here", ..req };
    assert!(matches!(tracker_url(&bad), Err(TrackerError::InvalidUrl(m)) if m == "relative URL without a base"));
}

#[test]
fn tracker_responses() {
    let mut body = b"d8:intervali1800e5:peers13:".to_vec();
    body.extend_from_slice(&[165, 232, 38, 164, 0xc8, 0xe9, 10, 0, 0, 1, 0x1a, 0xe1, 99]);
    body.push(b'e');
    let resp = parse_response(&body).unwrap();
    assert_eq!(resp.interval, 1800);
    assert_eq!(
        resp.peers,
        vec![
            PeerAddr { ip: [165, 232, 38, 164], port: 51433 },
            PeerAddr { ip: [10, 0, 0, 1], port: 6881 },
        ]
    );
    assert!(matches!(
        parse_response(b"d5:peers0:e"),
        Err(TrackerError::InvalidResponse(m)) if m == "missing 'interval'"
    ));
    assert!(matches!(
        parse_response(b"d8:intervali5ee"),
        Err(TrackerError::InvalidResponse(m)) if m == "missing 'peers'"
    ));
    assert!(matches!(
        parse_response(b"le"),
        Err(TrackerError::Bencode(BencodeParseError::TypeMismatch { .. }))
    ));
}

#[test]
fn peer_messages_on_the_wire() {
    let m = PeerMessage::new(PeerMessageType::Request, &[1, 2]);
    assert_eq!(m.as_bytes(), vec![0, 0, 0, 3, 6, 1, 2]);
    assert_eq!(PeerMessage::KeepAlive.as_bytes(), vec![0, 0, 0, 0]);
    let interested = PeerMessage::new(PeerMessageType::Interested, &[]);
    assert_eq!(interested.as_bytes(), vec![0, 0, 0, 1, 2]);
    let bytes = m.as_bytes();
    let header: [u8; 4] = bytes[0..4].try_into().unwrap();
    assert_eq!(frame_length(&header), 3);
    assert_eq!(frame_length(&[0, 0, 0x40, 0]), 16384);
    assert_eq!(frame_length(&[1, 2, 3, 4]), 0x01020304);
    match PeerMessage::from_frame(3, bytes[4], bytes[5..].to_vec()).unwrap() {
        PeerMessage::Message { length, kind, payload } => {
            assert_eq!(length, 3);
            assert_eq!(kind, PeerMessageType::Request);
            assert_eq!(payload, vec![1, 2]);
        }
        PeerMessage::KeepAlive => panic!("expected a message"),
    }
    assert!(matches!(
        PeerMessage::from_frame(5, 9, vec![]),
        Err(PeerError::InvalidMessageType(9))
    ));
    for code in 0u8..=8 {
        assert_eq!(PeerMessageType::from_code(code).unwrap().code(), code);
    }
    assert!(matches!(PeerMessageType::from_code(200), Err(PeerError::InvalidMessageType(200))));
}

#[test]
fn handshakes() {
    let hash = [0xabu8; 20];
    let id = [0x11u8; 20];
    let msg = build_handshake(&hash, &id);
    assert_eq!(msg[0], 19);
    assert_eq!(&msg[1..20], b"BitTorrent protocol");
    assert_eq!(&msg[20..28], &[0u8; 8]);
    assert_eq!(&msg[28..48], &hash);
    assert_eq!(&msg[48..68], &id);
    assert_eq!(handshake_peer_id(&msg), id);
}

#[test]
fn peer_ids() {
    let id = PeerID::from_bytes(&[0x0f; 20]).unwrap();
    assert_eq!(id.0, [0x0f; 20]);
    assert_eq!(id.to_hex(), "0f".repeat(20));
    assert!(PeerID::from_bytes(&[0; 19]).is_none());
    assert!(PeerID::from_bytes(&[0; 21]).is_none());
    assert_eq!(PeerID::generate().0.len(), 20);
}

fn sample_info(pieces: Vec<[u8; 20]>) -> Info {
    Info {
        length: 92063,
        name: "sample".to_string(),
        piece_length: 32768,
        pieces,
        hash: [0; 20],
    }
}

#[test]
fn piece_sizes_and_blocks() {
    let info = sample_info(vec![[0; 20]; 3]);
    assert_eq!(piece_size(&info, 0), 32768);
    assert_eq!(piece_size(&info, 1), 32768);
    assert_eq!(piece_size(&info, 2), 92063 - 65536);
    assert_eq!(num_blocks(32768), 2);
    assert_eq!(num_blocks(26527), 2);
    assert_eq!(num_blocks(0), 0);
    assert_eq!(num_blocks(1), 1);
    match block_request(2, 26527, 1) {
        PeerMessage::Message { length, kind, payload } => {
            assert_eq!(length, 13);
            assert_eq!(kind, PeerMessageType::Request);
            let mut expected = Vec::new();
            expected.extend_from_slice(&2u32.to_be_bytes());
            expected.extend_from_slice(&BLOCK_SIZE.to_be_bytes());
            expected.extend_from_slice(&(26527u32 - BLOCK_SIZE).to_be_bytes());
            assert_eq!(payload, expected);
        }
        PeerMessage::KeepAlive => panic!("expected a request"),
    }
    assert_eq!(peer_for_piece(0, 3), 0);
    assert_eq!(peer_for_piece(2, 3), 2);
    assert_eq!(peer_for_piece(5, 3), 2);
    assert_eq!(peer_for_piece(5, 1), 0);
}

#[test]
fn pieces_verify_against_their_hash() {
    let data = b"some piece data".to_vec();
    let digest: [u8; 20] = <sha1::Sha1 as sha1::Digest>::digest(&data).into();
    let info = sample_info(vec![[0; 20], digest]);
    assert!(verify_piece(&info, &data, 1));
    assert!(!verify_piece(&info, &data, 0));
    assert!(!verify_piece(&info, &data, 2));
}

fn piece_message(index: u32, begin: u32, block: &[u8]) -> PeerMessage {
    let mut payload = Vec::new();
    payload.extend_from_slice(&index.to_be_bytes());
    payload.extend_from_slice(&begin.to_be_bytes());
    payload.extend_from_slice(block);
    PeerMessage::new(PeerMessageType::Piece, &payload)
}

#[test]
fn downloading_a_piece() {
    let block0 = vec![1u8; BLOCK_SIZE as usize];
    let block1 = vec![2u8; 26527 - BLOCK_SIZE as usize];
    let mut whole = block0.clone();
    whole.extend_from_slice(&block1);
    let digest: [u8; 20] = <sha1::Sha1 as sha1::Digest>::digest(&whole).into();
    let info = sample_info(vec![[0; 20], [0; 20], digest]);

    let (mut dl, step) = PieceDownload::start(&info, 2);
    assert!(matches!(step, DownloadStep::Send(PeerMessage::Message { kind: PeerMessageType::Interested, .. })));
    assert!(matches!(dl.on_message(&info, PeerMessage::new(PeerMessageType::Have, &[0, 0, 0, 1])), DownloadStep::Receive));
    assert!(matches!(dl.on_message(&info, PeerMessage::KeepAlive), DownloadStep::Receive));
    match dl.on_message(&info, PeerMessage::new(PeerMessageType::Unchoke, &[])) {
        DownloadStep::Send(m) => assert_eq!(m.as_bytes(), block_request(2, 26527, 0).as_bytes()),
        _ => panic!("expected the first request"),
    }
    assert!(matches!(dl.on_message(&info, PeerMessage::new(PeerMessageType::Choke, &[])), DownloadStep::Receive));
    match dl.on_message(&info, piece_message(2, 0, &block0)) {
        DownloadStep::Send(m) => assert_eq!(m.as_bytes(), block_request(2, 26527, 1).as_bytes()),
        _ => panic!("expected the second request"),
    }
    assert!(matches!(dl.on_message(&info, piece_message(2, BLOCK_SIZE, &block1)), DownloadStep::Complete));
    assert_eq!(dl.data, whole);

    let (mut bad, _) = PieceDownload::start(&info, 2);
    bad.on_message(&info, PeerMessage::new(PeerMessageType::Unchoke, &[]));
    bad.on_message(&info, piece_message(2, 0, &block0));
    assert!(matches!(bad.on_message(&info, piece_message(2, BLOCK_SIZE, &block0[..10])), DownloadStep::Corrupt));
}

#[test]
fn clones_are_equal_copies() {
    let v = decode(b"d1:al1:xi-1ee1:bi2ee").unwrap();
    let c = v.clone();
    assert_eq!(encode(&c), encode(&v));
    assert_eq!(encode(&v.deep_copy()), b"d1:al1:xi-1ee1:bi2ee".to_vec());
}

#[test]
fn blocks_cover_the_piece() {
    for size in [0u32, 1, 16383, 16384, 16385, 32768, 26527, 100000] {
        let n = num_blocks(size);
        let mut covered = 0u32;
        for b in 0..n {
            match block_request(0, size, b) {
                PeerMessage::Message { payload, .. } => {
                    let begin = u32::from_be_bytes(payload[4..8].try_into().unwrap());
                    let len = u32::from_be_bytes(payload[8..12].try_into().unwrap());
                    assert_eq!(begin, covered);
                    assert!(len > 0 && len <= BLOCK_SIZE);
                    covered += len;
                }
                PeerMessage::KeepAlive => panic!("expected a request"),
            }
        }
        assert_eq!(covered, size);
    }
}

/// The integer rules written with std's own parser, to hold the decoder to.
fn std_integer(body: &str) -> Result<i64, String> {
    if body.is_empty() {
        return Err("empty string".into());
    }
    if body.starts_with("-0") || (body.starts_with('0') && body.len() > 1) {
        return Err("no leading 0s".into());
    }
    if body.starts_with('+') {
        return Err("plus sign (+) not allowed".into());
    }
    body.parse::<i64>().map_err(|e| e.to_string())
}

#[test]
fn integer_reading_agrees_with_std() {
    let bodies = [
        "0", "7", "-7", "10", "-10", "123x", "x123", "1-2", "-", "--1", "9223372036854775807",
        "9223372036854775808", "-9223372036854775808", "-9223372036854775809",
        "99999999999999999999999", "-99999999999999999999999", "9999999999999999999x",
        "1 ", " 1", "+", "+0", "00", "-00", "12345678901234567890",
    ];
    for body in bodies {
        let input = format!("i{body}e");
        let got = match decode(input.as_bytes()) {
            Ok(v) => Ok(v.as_integer().unwrap()),
            Err(BencodeParseError::InvalidInteger { reason }) => Err(reason),
            Err(other) => panic!("unexpected error {:?} for {body}", other),
        };
        assert_eq!(got, std_integer(body), "body: {body}");
    }
}

#[test]
fn length_reading_agrees_with_std() {
    for prefix in ["3", "03", "3x", "99999999999999999999999", "1844674407370955161x"] {
        let input = format!("{prefix}:abc");
        let expected = prefix.parse::<usize>().map_err(|e| e.to_string());
        match (decode(input.as_bytes()), expected) {
            (Ok(v), Ok(n)) => assert_eq!(v.as_bytes().unwrap().len(), n),
            (Err(BencodeParseError::InvalidInteger { reason }), Err(m)) => assert_eq!(reason, m),
            (Err(BencodeParseError::ShortInput), Ok(n)) => assert!(n > 3),
            (got, want) => panic!("prefix {prefix}: got {:?}, std says {:?}", got.err(), want),
        }
    }
}

#[test]
fn an_encoding_reads_back_whatever_follows_it() {
    let v = decode(b"l4:spami-3ee").unwrap();
    let mut bytes = encode(&v);
    bytes.extend_from_slice(b"tail");
    let (back, rest) = parse_value(&bytes).unwrap();
    assert_eq!(encode(&back), b"l4:spami-3ee".to_vec());
    assert_eq!(rest, b"tail");
}

#[test]
fn json_members_follow_the_text_of_their_keys() {
    // Two keys that are not UTF-8 read as the same text, U+FFFD: the object
    // keeps one member, with the value of the later key. The euro sign sorts
    // before U+FFFD as text, though its bytes sort after 0x80.
    let input: &[u8] = b"d1:\x80i1e1:\xffi2e3:\xe2\x82\xaci3ee";
    let value = decode(input).expect("input decodes");
    match value.to_json() {
        JsonValue::Object(members) => {
            let names: Vec<&str> = members.iter().map(|(k, _)| k.as_str()).collect();
            assert_eq!(names, vec!["\u{20ac}", "\u{fffd}"]);
            assert!(matches!(members[0].1, JsonValue::Number(3)));
            assert!(matches!(members[1].1, JsonValue::Number(2)));
        }
        _ => panic!("a dictionary gives an object"),
    }
}

#[test]
fn reading_never_looks_past_the_value() {
    for (value, tail) in [
        (&b"d1:bi1e1:ai2ee"[..], &b"xyz"[..]),
        (&b"03:abc"[..], &b"e"[..]),
        (&b"li1e4:spame"[..], &b"le"[..]),
        (&b"i-7e"[..], &b""[..]),
    ] {
        let (alone, rest_alone) = parse_value(value).unwrap();
        assert!(rest_alone.is_empty());
        let mut longer = value.to_vec();
        longer.extend_from_slice(tail);
        let (extended, rest) = parse_value(&longer).unwrap();
        assert_eq!(encode(&extended), encode(&alone));
        assert_eq!(rest, tail);
    }
}

#[test]
fn only_canonical_inputs_come_back_from_encoding() {
    // Written canonically: encoding what it decodes to gives it back.
    let info = b"d6:lengthi92063e4:name10:sample.txt12:piece lengthi32768e6:pieces0:e";
    assert_eq!(reencode(info), info.to_vec());
    // A length with a leading zero, or keys out of order, are written
    // otherwise by encoding.
    assert_eq!(reencode(b"03:abc"), b"3:abc".to_vec());
    assert_eq!(reencode(b"d1:bi1e1:ai2ee"), b"d1:ai2e1:bi1ee".to_vec());
}

#[test]
fn nothing_is_requested_before_the_unchoke() {
    let info = sample_info(vec![[0; 20], [0; 20], [0; 20]]);
    let (mut dl, step) = PieceDownload::start(&info, 0);
    match step {
        DownloadStep::Send(m) => assert_eq!(m.as_bytes(), vec![0, 0, 0, 1, 2]),
        _ => panic!("the first step sends interested"),
    }
    for msg in [
        PeerMessage::new(PeerMessageType::Bitfield, &[0b1110_0000]),
        PeerMessage::new(PeerMessageType::Have, &[0, 0, 0, 2]),
        PeerMessage::KeepAlive,
        PeerMessage::new(PeerMessageType::Choke, &[]),
        piece_message(0, 0, &[9; 4]),
    ] {
        assert!(matches!(dl.on_message(&info, msg), DownloadStep::Receive));
        assert!(!dl.unchoked);
        assert!(dl.data.is_empty());
    }
    match dl.on_message(&info, PeerMessage::new(PeerMessageType::Unchoke, &[])) {
        DownloadStep::Send(m) => assert_eq!(m.as_bytes(), block_request(0, dl.size, 0).as_bytes()),
        _ => panic!("the unchoke is answered with the first request"),
    }
}

#[test]
fn the_file_is_its_pieces_in_order() {
    let pieces = vec![vec![1u8, 2, 3], vec![], vec![4u8], vec![5u8, 6]];
    assert_eq!(assemble_file(&pieces), vec![1u8, 2, 3, 4, 5, 6]);
    assert!(assemble_file(&Vec::new()).is_empty());
}

#[test]
fn frame_lengths_decide_keep_alive_and_payload() {
    assert!(matches!(frame_start(&[0, 0, 0, 0]), FrameStart::KeepAlive));
    assert!(matches!(
        frame_start(&[0, 0, 0, 1]),
        FrameStart::Message { length: 1, payload_length: 0 }
    ));
    assert!(matches!(
        frame_start(&[0, 0, 0x40, 0x0d]),
        FrameStart::Message { length: 16397, payload_length: 16396 }
    ));
    assert!(matches!(
        frame_start(&[0xff, 0xff, 0xff, 0xff]),
        FrameStart::Message { length: 0xffff_ffff, payload_length: 0xffff_fffe }
    ));
}

#[test]
fn a_whole_run_requests_each_block_once_in_order() {
    let size = 40000u32;
    let mut info = sample_info(vec![[0; 20]]);
    info.length = size as usize;
    info.piece_length = 65536;
    let (mut dl, _) = PieceDownload::start(&info, 0);
    let mut step = dl.on_message(&info, PeerMessage::new(PeerMessageType::Unchoke, &[]));
    let mut requests = 0u32;
    let mut covered = 0u32;
    let mut expected = Vec::new();
    while let DownloadStep::Send(m) = step {
        assert_eq!(m.as_bytes(), block_request(0, size, requests).as_bytes());
        let len = match &m {
            PeerMessage::Message { payload, .. } => {
                assert_eq!(u32::from_be_bytes(payload[4..8].try_into().unwrap()), covered);
                u32::from_be_bytes(payload[8..12].try_into().unwrap())
            }
            PeerMessage::KeepAlive => panic!("a request"),
        };
        let block = vec![requests as u8; len as usize];
        expected.extend_from_slice(&block);
        step = dl.on_message(&info, piece_message(0, covered, &block));
        requests += 1;
        covered += len;
    }
    assert_eq!(requests, num_blocks(size));
    assert_eq!(requests, 3);
    assert_eq!(covered, size);
    assert_eq!(dl.data, expected);
    assert!(matches!(step, DownloadStep::Corrupt));
}
