use minikv::codec::{decode_request, encode_reply_bytes, DecodedRequest};
use minikv::dispatch::{dispatch, parse_command, Command, CommandError, ServerConfig};
use minikv::keyspace::KeySpace;
use minikv::snapshot::parse_snapshot;

fn no_config() -> ServerConfig {
    ServerConfig { dir: None, dbfilename: None }
}

/// Runs one full request frame through decode, recognition, dispatch and
/// encoding, as a connection handler would.
fn roundtrip(frame: &[u8], ks: &mut KeySpace, cfg: &ServerConfig, now: u64) -> Result<Vec<u8>, CommandError> {
    let (args, used) = match decode_request(&frame.to_vec()) {
        DecodedRequest::Complete(args, used) => (args, used),
        _ => panic!("test frame must be complete"),
    };
    assert_eq!(used, frame.len());
    let cmd = parse_command(&args);
    let reply = dispatch(cmd, ks, cfg, now)?;
    Ok(encode_reply_bytes(&reply))
}

#[test]
fn ping_replies_pong() {
    let mut ks = KeySpace::new();
    let out = roundtrip(b"*1\r\n$4\r\nPING\r\n", &mut ks, &no_config(), 0).unwrap();
    assert_eq!(out, b"+PONG\r\n".to_vec());
}

#[test]
fn echo_replies_the_argument_as_a_bulk_string() {
    let mut ks = KeySpace::new();
    let out = roundtrip(b"*2\r\n$4\r\nECHO\r\n$5\r\nhello\r\n", &mut ks, &no_config(), 0).unwrap();
    assert_eq!(out, b"$5\r\nhello\r\n".to_vec());
}

#[test]
fn set_with_px_expires_after_the_ttl() {
    let mut ks = KeySpace::new();
    let cfg = no_config();
    let now = 1_000_000;
    let out = roundtrip(
        b"*5\r\n$3\r\nSET\r\n$3\r\nfoo\r\n$3\r\nbar\r\n$2\r\nPX\r\n$3\r\n100\r\n",
        &mut ks,
        &cfg,
        now,
    )
    .unwrap();
    assert_eq!(out, b"+OK\r\n".to_vec());
    let got = roundtrip(b"*2\r\n$3\r\nGET\r\n$3\r\nfoo\r\n", &mut ks, &cfg, now).unwrap();
    assert_eq!(got, b"$3\r\nbar\r\n".to_vec());
    let later = roundtrip(b"*2\r\n$3\r\nGET\r\n$3\r\nfoo\r\n", &mut ks, &cfg, now + 150).unwrap();
    assert_eq!(later, b"$-1\r\n".to_vec());
}

#[test]
fn overwrite_leaves_the_second_value() {
    let mut ks = KeySpace::new();
    ks.set(b"k".to_vec(), b"v1".to_vec(), None, 7);
    ks.set(b"k".to_vec(), b"v2".to_vec(), None, 8);
    assert_eq!(ks.get(&b"k".to_vec(), 9), Some(b"v2".to_vec()));
}

#[test]
fn get_of_a_key_never_set_is_absent() {
    let ks = KeySpace::new();
    assert_eq!(ks.get(&b"missing".to_vec(), 123), None);
}

#[test]
fn expiry_is_checked_on_every_read() {
    let mut ks = KeySpace::new();
    ks.set(b"k".to_vec(), b"v".to_vec(), Some(50), 100);
    assert_eq!(ks.get(&b"k".to_vec(), 100), Some(b"v".to_vec()));
    assert_eq!(ks.get(&b"k".to_vec(), 149), Some(b"v".to_vec()));
    assert_eq!(ks.get(&b"k".to_vec(), 150), None);
    assert_eq!(ks.get(&b"k".to_vec(), 151), None);
}

#[test]
fn keys_lists_live_keys_and_omits_expired_ones() {
    let mut ks = KeySpace::new();
    ks.set(b"a".to_vec(), b"x".to_vec(), Some(1), 0);
    ks.set(b"b".to_vec(), b"y".to_vec(), None, 2);
    let keys = ks.keys(2);
    assert_eq!(keys, vec![b"b".to_vec()]);
}

#[test]
fn keys_command_replies_an_array_of_live_keys() {
    let mut ks = KeySpace::new();
    let cfg = no_config();
    ks.set(b"only".to_vec(), b"v".to_vec(), None, 0);
    let out = roundtrip(b"*2\r\n$4\r\nKEYS\r\n$1\r\n*\r\n", &mut ks, &cfg, 1).unwrap();
    assert_eq!(out, b"*1\r\n$4\r\nonly\r\n".to_vec());
}

#[test]
fn config_get_replies_the_name_and_its_value() {
    let mut ks = KeySpace::new();
    let cfg = ServerConfig { dir: Some(b"/tmp/data".to_vec()), dbfilename: None };
    let out = roundtrip(
        b"*3\r\n$6\r\nCONFIG\r\n$3\r\nGET\r\n$3\r\ndir\r\n",
        &mut ks,
        &cfg,
        0,
    )
    .unwrap();
    assert_eq!(out, b"*2\r\n$3\r\ndir\r\n$9\r\n/tmp/data\r\n".to_vec());
    let unset = roundtrip(
        b"*3\r\n$6\r\nCONFIG\r\n$3\r\nGET\r\n$10\r\ndbfilename\r\n",
        &mut ks,
        &cfg,
        0,
    )
    .unwrap();
    assert_eq!(unset, b"*2\r\n$10\r\ndbfilename\r\n$0\r\n\r\n".to_vec());
}

#[test]
fn command_names_match_case_insensitively() {
    let mut ks = KeySpace::new();
    let out = roundtrip(b"*1\r\n$4\r\nping\r\n", &mut ks, &no_config(), 0).unwrap();
    assert_eq!(out, b"+PONG\r\n".to_vec());
}

#[test]
fn an_unknown_command_is_a_typed_error() {
    let args = vec![b"FLUSH".to_vec()];
    let cmd = parse_command(&args);
    assert!(matches!(cmd, Command::Unknown));
    let mut ks = KeySpace::new();
    let r = dispatch(cmd, &mut ks, &no_config(), 0);
    assert!(matches!(r, Err(CommandError::UnknownCommand)));
}

#[test]
fn a_wrong_arity_is_unknown() {
    let args = vec![b"GET".to_vec()];
    assert!(matches!(parse_command(&args), Command::Unknown));
    let args = vec![b"SET".to_vec(), b"k".to_vec()];
    assert!(matches!(parse_command(&args), Command::Unknown));
    let args = vec![
        b"SET".to_vec(),
        b"k".to_vec(),
        b"v".to_vec(),
        b"EX".to_vec(),
        b"10".to_vec(),
    ];
    assert!(matches!(parse_command(&args), Command::Unknown));
}

#[test]
fn snapshot_records_load_into_the_key_space() {
    // Five header tokens, then the pair ("x", "y"), then the end marker.
    let mut bytes = b"aa bb cc dd ee x y".to_vec();
    bytes.push(0xFF);
    let records = parse_snapshot(&bytes, 1000);
    let mut ks = KeySpace::new();
    ks.load_bulk(&records);
    assert_eq!(ks.get(&b"x".to_vec(), 1000), Some(b"y".to_vec()));
    let out = roundtrip(
        b"*2\r\n$3\r\nGET\r\n$1\r\nx\r\n",
        &mut ks,
        &no_config(),
        1000,
    )
    .unwrap();
    assert_eq!(out, b"$1\r\ny\r\n".to_vec());
}

#[test]
fn snapshot_past_expiry_loads_but_reads_absent() {
    // 0xFC plus eight little-endian bytes: expiry at 500 ms for the pair.
    let mut bytes = b"aa bb cc dd ee ".to_vec();
    bytes.push(0xFC);
    bytes.extend_from_slice(&500u64.to_le_bytes());
    bytes.extend_from_slice(b" k v");
    bytes.push(0xFF);
    let records = parse_snapshot(&bytes, 1000);
    assert_eq!(records.len(), 1);
    assert_eq!(records[0].2, Some(0));
    let mut ks = KeySpace::new();
    ks.load_bulk(&records);
    assert_eq!(ks.get(&b"k".to_vec(), 1000), None);
}

#[test]
fn snapshot_future_expiry_keeps_the_timestamp() {
    let mut bytes = b"aa bb cc dd ee ".to_vec();
    bytes.push(0xFC);
    bytes.extend_from_slice(&5000u64.to_le_bytes());
    bytes.extend_from_slice(b" k v");
    bytes.push(0xFF);
    let records = parse_snapshot(&bytes, 1000);
    assert_eq!(records.len(), 1);
    assert_eq!(records[0].2, Some(5000));
    let mut ks = KeySpace::new();
    ks.load_bulk(&records);
    assert_eq!(ks.get(&b"k".to_vec(), 1000), Some(b"v".to_vec()));
    assert_eq!(ks.get(&b"k".to_vec(), 5000), None);
}

#[test]
fn snapshot_with_too_few_tokens_yields_nothing() {
    let bytes = b"aa bb".to_vec();
    assert!(parse_snapshot(&bytes, 0).is_empty());
}

#[test]
fn snapshot_trailing_token_without_a_partner_is_dropped() {
    let mut bytes = b"aa bb cc dd ee x y z".to_vec();
    bytes.push(0xFF);
    let records = parse_snapshot(&bytes, 0);
    assert_eq!(records.len(), 1);
    assert_eq!(records[0].0, b"x".to_vec());
    assert_eq!(records[0].1, b"y".to_vec());
}

#[test]
fn racing_readers_see_either_the_old_or_the_new_value() {
    // Both serializations of a GET racing a SET: the read sees the state
    // before the write or after it, never anything else.
    let mut before = KeySpace::new();
    before.set(b"z".to_vec(), b"old".to_vec(), None, 0);
    let seen_before = before.get(&b"z".to_vec(), 1);
    before.set(b"z".to_vec(), b"w".to_vec(), None, 1);
    let seen_after = before.get(&b"z".to_vec(), 2);
    assert_eq!(seen_before, Some(b"old".to_vec()));
    assert_eq!(seen_after, Some(b"w".to_vec()));
}
