use minikv::codec::{
    decode_reply, decode_request, encode_reply_bytes, DecodedReply, DecodedRequest, Reply,
};

fn complete(buf: &[u8]) -> (Vec<Vec<u8>>, usize) {
    match decode_request(&buf.to_vec()) {
        DecodedRequest::Complete(args, used) => (args, used),
        DecodedRequest::NeedMoreData => panic!("unexpected NeedMoreData"),
        DecodedRequest::ProtocolError => panic!("unexpected ProtocolError"),
    }
}

#[test]
fn decodes_a_simple_request_frame() {
    let (args, used) = complete(b"*1\r\n$4\r\nPING\r\n");
    assert_eq!(args, vec![b"PING".to_vec()]);
    assert_eq!(used, 14);
}

#[test]
fn decodes_arguments_with_embedded_delimiters() {
    let (args, used) = complete(b"*2\r\n$4\r\nECHO\r\n$7\r\nab\r\ncd!\r\n");
    assert_eq!(args.len(), 2);
    assert_eq!(args[1], b"ab\r\ncd!".to_vec());
    assert_eq!(used, 27);
}

#[test]
fn decode_reports_partial_frames() {
    for cut in 1..14 {
        let buf = b"*1\r\n$4\r\nPING\r\n"[..cut].to_vec();
        assert!(matches!(
            decode_request(&buf),
            DecodedRequest::NeedMoreData
        ));
    }
}

#[test]
fn decode_rejects_a_negative_count() {
    let buf = b"*-1\r\n".to_vec();
    assert!(matches!(decode_request(&buf), DecodedRequest::ProtocolError));
}

#[test]
fn decode_rejects_a_non_numeric_length() {
    let buf = b"*1\r\n$x\r\nPING\r\n".to_vec();
    assert!(matches!(decode_request(&buf), DecodedRequest::ProtocolError));
}

#[test]
fn decode_rejects_an_oversized_length() {
    let buf = b"*1\r\n$536870913\r\n".to_vec();
    assert!(matches!(decode_request(&buf), DecodedRequest::ProtocolError));
}

#[test]
fn decode_rejects_garbage() {
    let buf = b"PING value\r\n".to_vec();
    assert!(matches!(decode_request(&buf), DecodedRequest::ProtocolError));
}

#[test]
fn encodes_each_reply_form() {
    assert_eq!(
        encode_reply_bytes(&Reply::Simple(b"PONG".to_vec())),
        b"+PONG\r\n".to_vec()
    );
    assert_eq!(
        encode_reply_bytes(&Reply::Bulk(b"hello".to_vec())),
        b"$5\r\nhello\r\n".to_vec()
    );
    assert_eq!(encode_reply_bytes(&Reply::NullBulk), b"$-1\r\n".to_vec());
    assert_eq!(
        encode_reply_bytes(&Reply::Array(vec![b"dir".to_vec(), b"/tmp/x".to_vec()])),
        b"*2\r\n$3\r\ndir\r\n$6\r\n/tmp/x\r\n".to_vec()
    );
}

fn assert_roundtrip(reply: Reply) {
    let encoded = encode_reply_bytes(&reply);
    match decode_reply(&encoded) {
        DecodedReply::Complete(back, used) => {
            assert_eq!(used, encoded.len());
            match (reply, back) {
                (Reply::Simple(a), Reply::Simple(b)) => assert_eq!(a, b),
                (Reply::Bulk(a), Reply::Bulk(b)) => assert_eq!(a, b),
                (Reply::NullBulk, Reply::NullBulk) => {}
                (Reply::Array(a), Reply::Array(b)) => assert_eq!(a, b),
                _ => panic!("reply form changed across the round trip"),
            }
        }
        _ => panic!("round trip did not decode"),
    }
}

#[test]
fn replies_round_trip_through_a_client_decoder() {
    assert_roundtrip(Reply::Simple(b"OK".to_vec()));
    assert_roundtrip(Reply::Bulk(b"plain".to_vec()));
    assert_roundtrip(Reply::Bulk(b"with\r\ndelimiters\r\n".to_vec()));
    assert_roundtrip(Reply::Bulk(Vec::new()));
    assert_roundtrip(Reply::NullBulk);
    assert_roundtrip(Reply::Array(vec![]));
    assert_roundtrip(Reply::Array(vec![
        b"a".to_vec(),
        b"b\r\nc".to_vec(),
        Vec::new(),
    ]));
}
