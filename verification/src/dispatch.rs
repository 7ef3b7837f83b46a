//! Command recognition and dispatch: maps one decoded frame to a key-space
//! operation or a static reply.
//!
//! Command names are matched case-insensitively. A frame whose shape fits no
//! command row is `Unknown`, and dispatching it yields an error that the
//! caller treats as fatal for that connection only.

use vstd::prelude::*;

use crate::codec::{
    all_digits, digits_val, encode_reply, is_digit, lemma_digits_val_prefix, lemma_reply_roundtrip,
    parse_reply, Parsed, Reply, ReplyModel, MAX_FRAME_LEN,
};
use crate::keyspace::{bytes_eq, clone_bytes, expiry_of, live, live_value, EntryModel, KeySpace};

verus! {

/// ASCII upper-casing of one byte; all other bytes are left alone.
pub open spec fn ascii_upper(b: u8) -> u8 {
    if 97 <= b <= 122 {
        (b - 32) as u8
    } else {
        b
    }
}

pub open spec fn upper(s: Seq<u8>) -> Seq<u8> {
    s.map_values(|b: u8| ascii_upper(b))
}

fn upper_byte(b: u8) -> (r: u8)
    ensures
        r == ascii_upper(b),
{
    if 97 <= b && b <= 122 {
        b - 32
    } else {
        b
    }
}

/// Whether `a`, upper-cased, equals the (already upper-case) pattern `pat`.
fn upper_eq(a: &Vec<u8>, pat: &Vec<u8>) -> (r: bool)
    ensures
        r == (upper(a@) == pat@),
{
    if a.len() != pat.len() {
        assert(upper(a@).len() == a@.len());
        return false;
    }
    let mut i: usize = 0;
    while i < a.len()
        invariant
            i <= a.len(),
            a@.len() == pat@.len(),
            forall|j: int| 0 <= j < i ==> ascii_upper(a@[j]) == pat@[j],
        decreases a.len() - i,
    {
        if upper_byte(a[i]) != pat[i] {
            assert(upper(a@)[i as int] != pat@[i as int]);
            return false;
        }
        i = i + 1;
    }
    assert(upper(a@) =~= pat@);
    true
}

/// The number a decimal byte-string denotes, when it is non-empty, all
/// digits, and fits in 64 bits.
pub open spec fn parse_u64(s: Seq<u8>) -> Option<u64> {
    if s.len() > 0 && all_digits(s) && digits_val(s) <= u64::MAX {
        Some(digits_val(s) as u64)
    } else {
        None
    }
}

/// Reads a decimal byte-string as a 64-bit number.
pub fn parse_u64_bytes(s: &Vec<u8>) -> (r: Option<u64>)
    ensures
        r == parse_u64(s@),
{
    if s.len() == 0 {
        return None;
    }
    let mut i: usize = 0;
    let mut acc: u64 = 0;
    while i < s.len()
        invariant
            i <= s.len(),
            s@.len() > 0,
            forall|j: int| 0 <= j < i ==> is_digit(#[trigger] s@[j]),
            acc == digits_val(s@.subrange(0, i as int)),
        decreases s.len() - i,
    {
        let b = s[i];
        if !(48 <= b && b <= 57) {
            assert(!all_digits(s@));
            return None;
        }
        let d = (b - 48) as u64;
        proof {
            assert(s@.subrange(0, i + 1).drop_last() =~= s@.subrange(0, i as int));
            assert(digits_val(s@.subrange(0, i + 1)) == acc * 10 + d);
        }
        if acc > (u64::MAX - d) / 10 {
            proof {
                assert(acc * 10 + d > u64::MAX);
                if all_digits(s@) && digits_val(s@) <= u64::MAX {
                    lemma_digits_val_prefix(s@, i + 1);
                    assert(digits_val(s@.subrange(0, i + 1)) <= digits_val(s@));
                }
            }
            return None;
        }
        proof {
            assert(acc * 10 + d <= u64::MAX) by {
                assert(acc <= (u64::MAX - d) / 10);
                assert(acc * 10 <= ((u64::MAX - d) / 10) * 10) by (nonlinear_arith)
                    requires
                        acc <= (u64::MAX - d) / 10,
                ;
                assert(((u64::MAX - d) / 10) * 10 + d <= u64::MAX);
            }
        }
        acc = acc * 10 + d;
        i = i + 1;
    }
    proof {
        assert(s@.subrange(0, s@.len() as int) =~= s@);
    }
    Some(acc)
}

/// A decoded client request: a command tag and its arguments.
pub enum Command {
    Ping,
    Echo(Vec<u8>),
    SetKey { key: Vec<u8>, value: Vec<u8>, ttl: Option<u64> },
    Get(Vec<u8>),
    ConfigGet(Vec<u8>),
    Keys(Vec<u8>),
    Unknown,
}

/// The abstract form of a decoded client request.
pub enum CommandModel {
    Ping,
    Echo(Seq<u8>),
    SetKey { key: Seq<u8>, value: Seq<u8>, ttl: Option<u64> },
    Get(Seq<u8>),
    ConfigGet(Seq<u8>),
    Keys(Seq<u8>),
    Unknown,
}

impl View for Command {
    type V = CommandModel;

    open spec fn view(&self) -> CommandModel {
        match self {
            Command::Ping => CommandModel::Ping,
            Command::Echo(m) => CommandModel::Echo(m@),
            Command::SetKey { key, value, ttl } => CommandModel::SetKey {
                key: key@,
                value: value@,
                ttl: *ttl,
            },
            Command::Get(k) => CommandModel::Get(k@),
            Command::ConfigGet(n) => CommandModel::ConfigGet(n@),
            Command::Keys(p) => CommandModel::Keys(p@),
            Command::Unknown => CommandModel::Unknown,
        }
    }
}

pub open spec fn ping_name() -> Seq<u8> {
    seq![80u8, 73u8, 78u8, 71u8]
}

pub open spec fn echo_name() -> Seq<u8> {
    seq![69u8, 67u8, 72u8, 79u8]
}

pub open spec fn set_name() -> Seq<u8> {
    seq![83u8, 69u8, 84u8]
}

pub open spec fn get_name() -> Seq<u8> {
    seq![71u8, 69u8, 84u8]
}

pub open spec fn config_name() -> Seq<u8> {
    seq![67u8, 79u8, 78u8, 70u8, 73u8, 71u8]
}

pub open spec fn keys_name() -> Seq<u8> {
    seq![75u8, 69u8, 89u8, 83u8]
}

pub open spec fn px_name() -> Seq<u8> {
    seq![80u8, 88u8]
}

/// Which command a frame's elements denote, by the arity table: PING alone;
/// ECHO, GET and KEYS with one argument; SET with key and value, optionally
/// followed by PX and a TTL in milliseconds; CONFIG GET with one name.
/// Everything else is unknown.
pub open spec fn command_of(args: Seq<Seq<u8>>) -> CommandModel {
    if args.len() == 1 && upper(args[0]) == ping_name() {
        CommandModel::Ping
    } else if args.len() == 2 && upper(args[0]) == echo_name() {
        CommandModel::Echo(args[1])
    } else if args.len() == 2 && upper(args[0]) == get_name() {
        CommandModel::Get(args[1])
    } else if args.len() == 2 && upper(args[0]) == keys_name() {
        CommandModel::Keys(args[1])
    } else if args.len() == 3 && upper(args[0]) == set_name() {
        CommandModel::SetKey { key: args[1], value: args[2], ttl: None }
    } else if args.len() == 5 && upper(args[0]) == set_name() && upper(args[3]) == px_name()
        && parse_u64(args[4]) is Some {
        CommandModel::SetKey { key: args[1], value: args[2], ttl: parse_u64(args[4]) }
    } else if args.len() == 3 && upper(args[0]) == config_name() && upper(args[1]) == get_name() {
        CommandModel::ConfigGet(args[2])
    } else {
        CommandModel::Unknown
    }
}

fn ping_pat() -> (r: Vec<u8>)
    ensures
        r@ == ping_name(),
{
    let mut r: Vec<u8> = Vec::new();
    r.push(80);
    r.push(73);
    r.push(78);
    r.push(71);
    assert(r@ =~= ping_name());
    r
}

fn echo_pat() -> (r: Vec<u8>)
    ensures
        r@ == echo_name(),
{
    let mut r: Vec<u8> = Vec::new();
    r.push(69);
    r.push(67);
    r.push(72);
    r.push(79);
    assert(r@ =~= echo_name());
    r
}

fn set_pat() -> (r: Vec<u8>)
    ensures
        r@ == set_name(),
{
    let mut r: Vec<u8> = Vec::new();
    r.push(83);
    r.push(69);
    r.push(84);
    assert(r@ =~= set_name());
    r
}

fn get_pat() -> (r: Vec<u8>)
    ensures
        r@ == get_name(),
{
    let mut r: Vec<u8> = Vec::new();
    r.push(71);
    r.push(69);
    r.push(84);
    assert(r@ =~= get_name());
    r
}

fn config_pat() -> (r: Vec<u8>)
    ensures
        r@ == config_name(),
{
    let mut r: Vec<u8> = Vec::new();
    r.push(67);
    r.push(79);
    r.push(78);
    r.push(70);
    r.push(73);
    r.push(71);
    assert(r@ =~= config_name());
    r
}

fn keys_pat() -> (r: Vec<u8>)
    ensures
        r@ == keys_name(),
{
    let mut r: Vec<u8> = Vec::new();
    r.push(75);
    r.push(69);
    r.push(89);
    r.push(83);
    assert(r@ =~= keys_name());
    r
}

fn px_pat() -> (r: Vec<u8>)
    ensures
        r@ == px_name(),
{
    let mut r: Vec<u8> = Vec::new();
    r.push(80);
    r.push(88);
    assert(r@ =~= px_name());
    r
}

/// Recognizes the command a decoded frame carries.
pub fn parse_command(args: &Vec<Vec<u8>>) -> (c: Command)
    ensures
        c@ == command_of(args.deep_view()),
{
    let ghost dv = args.deep_view();
    proof {
        assert(dv.len() == args@.len());
        assert(forall|i: int| 0 <= i < args@.len() ==> dv[i] == (#[trigger] args@[i])@);
    }
    if args.len() == 1 && upper_eq(&args[0], &ping_pat()) {
        Command::Ping
    } else if args.len() == 2 && upper_eq(&args[0], &echo_pat()) {
        Command::Echo(clone_bytes(&args[1]))
    } else if args.len() == 2 && upper_eq(&args[0], &get_pat()) {
        Command::Get(clone_bytes(&args[1]))
    } else if args.len() == 2 && upper_eq(&args[0], &keys_pat()) {
        Command::Keys(clone_bytes(&args[1]))
    } else if args.len() == 3 && upper_eq(&args[0], &set_pat()) {
        Command::SetKey { key: clone_bytes(&args[1]), value: clone_bytes(&args[2]), ttl: None }
    } else if args.len() == 5 && upper_eq(&args[0], &set_pat()) && upper_eq(&args[3], &px_pat()) {
        match parse_u64_bytes(&args[4]) {
            Some(ms) => Command::SetKey {
                key: clone_bytes(&args[1]),
                value: clone_bytes(&args[2]),
                ttl: Some(ms),
            },
            None => Command::Unknown,
        }
    } else if args.len() == 3 && upper_eq(&args[0], &config_pat()) && upper_eq(
        &args[1],
        &get_pat(),
    ) {
        Command::ConfigGet(clone_bytes(&args[2]))
    } else {
        Command::Unknown
    }
}

/// The startup parameters that CONFIG GET exposes.
pub struct ServerConfig {
    pub dir: Option<Vec<u8>>,
    pub dbfilename: Option<Vec<u8>>,
}

pub open spec fn dir_name() -> Seq<u8> {
    seq![100u8, 105u8, 114u8]
}

pub open spec fn dbfilename_name() -> Seq<u8> {
    seq![100u8, 98u8, 102u8, 105u8, 108u8, 101u8, 110u8, 97u8, 109u8, 101u8]
}

/// The configured value a parameter name denotes: the matching startup
/// parameter, or the empty string when the name is unrecognized or the
/// parameter is unset.
pub open spec fn config_value(cfg: &ServerConfig, name: Seq<u8>) -> Seq<u8> {
    if name == dir_name() {
        match cfg.dir {
            Some(d) => d@,
            None => Seq::empty(),
        }
    } else if name == dbfilename_name() {
        match cfg.dbfilename {
            Some(d) => d@,
            None => Seq::empty(),
        }
    } else {
        Seq::empty()
    }
}

fn dir_pat() -> (r: Vec<u8>)
    ensures
        r@ == dir_name(),
{
    let mut r: Vec<u8> = Vec::new();
    r.push(100);
    r.push(105);
    r.push(114);
    assert(r@ =~= dir_name());
    r
}

fn dbfilename_pat() -> (r: Vec<u8>)
    ensures
        r@ == dbfilename_name(),
{
    let mut r: Vec<u8> = Vec::new();
    r.push(100);
    r.push(98);
    r.push(102);
    r.push(105);
    r.push(108);
    r.push(101);
    r.push(110);
    r.push(97);
    r.push(109);
    r.push(101);
    assert(r@ =~= dbfilename_name());
    r
}

/// Looks a runtime parameter up by name.
fn config_lookup(cfg: &ServerConfig, name: &Vec<u8>) -> (r: Vec<u8>)
    ensures
        r@ == config_value(cfg, name@),
{
    if bytes_eq(name, &dir_pat()) {
        match &cfg.dir {
            Some(d) => clone_bytes(d),
            None => Vec::new(),
        }
    } else if bytes_eq(name, &dbfilename_pat()) {
        match &cfg.dbfilename {
            Some(d) => clone_bytes(d),
            None => Vec::new(),
        }
    } else {
        Vec::new()
    }
}

/// Why a dispatch failed; fatal for the connection that sent the command.
#[derive(Debug)]
pub enum CommandError {
    /// The frame was well-formed but fits no command row.
    UnknownCommand,
}

pub open spec fn pong_text() -> Seq<u8> {
    seq![80u8, 79u8, 78u8, 71u8]
}

pub open spec fn ok_text() -> Seq<u8> {
    seq![79u8, 75u8]
}

/// Executes one command against the key space at time `now` and produces
/// the reply to send, or the error that ends the connection. Exactly the
/// unknown command fails; every recognized command succeeds, and only SET
/// changes the key space.
pub fn dispatch(cmd: Command, ks: &mut KeySpace, cfg: &ServerConfig, now: u64) -> (r: Result<
    Reply,
    CommandError,
>)
    requires
        old(ks).wf(),
    ensures
        final(ks).wf(),
        (r is Err) == (cmd@ is Unknown),
        cmd@ is Unknown ==> r == Err::<Reply, CommandError>(CommandError::UnknownCommand)
            && final(ks)@ == old(ks)@,
        cmd@ is Ping ==> (r matches Ok(rep) && rep@ == ReplyModel::Simple(pong_text())
            && final(ks)@ == old(ks)@),
        cmd@ matches CommandModel::Echo(m) ==> (r matches Ok(rep) && rep@ == ReplyModel::Bulk(m)
            && final(ks)@ == old(ks)@),
        cmd@ matches CommandModel::SetKey { key, value, ttl } ==> (r matches Ok(rep) && rep@
            == ReplyModel::Simple(ok_text()) && final(ks)@ == old(ks)@.insert(
            key,
            EntryModel { value, expires_at: expiry_of(ttl, now) },
        )),
        cmd@ matches CommandModel::Get(k) ==> (r matches Ok(rep) && rep@ == (match live_value(
            old(ks)@,
            k,
            now,
        ) {
            Some(v) => ReplyModel::Bulk(v),
            None => ReplyModel::NullBulk,
        }) && final(ks)@ == old(ks)@),
        cmd@ matches CommandModel::ConfigGet(name) ==> (r matches Ok(rep) && rep@
            == ReplyModel::Array(seq![name, config_value(cfg, name)]) && final(ks)@ == old(ks)@),
        cmd@ matches CommandModel::Keys(_) ==> (r matches Ok(rep) && (rep@
            matches ReplyModel::Array(items) && (forall|k: Seq<u8>|
            items.contains(k) <==> live(old(ks)@, k, now)) && (forall|m1: int, m2: int|
            0 <= m1 < m2 < items.len() ==> items[m1] != items[m2])) && final(ks)@ == old(ks)@),
{
    match cmd {
        Command::Ping => {
            let mut t: Vec<u8> = Vec::new();
            t.push(80);
            t.push(79);
            t.push(78);
            t.push(71);
            assert(t@ =~= pong_text());
            Ok(Reply::Simple(t))
        },
        Command::Echo(m) => Ok(Reply::Bulk(m)),
        Command::SetKey { key, value, ttl } => {
            ks.set(key, value, ttl, now);
            let mut t: Vec<u8> = Vec::new();
            t.push(79);
            t.push(75);
            assert(t@ =~= ok_text());
            Ok(Reply::Simple(t))
        },
        Command::Get(k) => match ks.get(&k, now) {
            Some(v) => Ok(Reply::Bulk(v)),
            None => Ok(Reply::NullBulk),
        },
        Command::ConfigGet(name) => {
            let value = config_lookup(cfg, &name);
            let ghost n = name@;
            let ghost v = value@;
            let mut items: Vec<Vec<u8>> = Vec::new();
            items.push(name);
            items.push(value);
            proof {
                assert(items.deep_view() =~~= seq![n, v]);
            }
            Ok(Reply::Array(items))
        },
        Command::Keys(_) => {
            let items = ks.keys(now);
            proof {
                assert(forall|m1: int, m2: int|
                    0 <= m1 < m2 < items.deep_view().len() ==> items.deep_view()[m1]
                        != items.deep_view()[m2]) by {
                    assert(forall|m: int|
                        0 <= m < items@.len() ==> items.deep_view()[m] == (#[trigger] items@[m])@);
                }
            }
            Ok(Reply::Array(items))
        },
        Command::Unknown => Err(CommandError::UnknownCommand),
    }
}


/// Lookup on the wire: the reply a GET produces is the bulk encoding of the
/// stored live value, or the null bulk string for an absent or expired key,
/// and under the frame cap a conformant client decode of that reply yields
/// the exact value back, also when it contains the protocol's delimiters.
pub proof fn lemma_get_reply_wire(m: Map<Seq<u8>, EntryModel>, k: Seq<u8>, now: u64)
    requires
        live(m, k, now) ==> m[k].value.len() <= MAX_FRAME_LEN,
    ensures
        match live_value(m, k, now) {
            Some(v) => parse_reply(encode_reply(ReplyModel::Bulk(v)), 0) == Parsed::Found(
                ReplyModel::Bulk(v),
                encode_reply(ReplyModel::Bulk(v)).len() as int,
            ),
            None => parse_reply(encode_reply(ReplyModel::NullBulk), 0) == Parsed::Found(
                ReplyModel::NullBulk,
                encode_reply(ReplyModel::NullBulk).len() as int,
            ),
        },
{
    match live_value(m, k, now) {
        Some(v) => lemma_reply_roundtrip(ReplyModel::Bulk(v)),
        None => lemma_reply_roundtrip(ReplyModel::NullBulk),
    }
}

/// Key listing on the wire: an array reply whose items are the live keys,
/// with the count and each key under the frame cap, decodes client-side to
/// exactly those keys.
pub proof fn lemma_keys_reply_wire(keys: Seq<Seq<u8>>)
    requires
        keys.len() <= MAX_FRAME_LEN,
        forall|i: int| 0 <= i < keys.len() ==> #[trigger] keys[i].len() <= MAX_FRAME_LEN,
    ensures
        parse_reply(encode_reply(ReplyModel::Array(keys)), 0) == Parsed::Found(
            ReplyModel::Array(keys),
            encode_reply(ReplyModel::Array(keys)).len() as int,
        ),
{
    lemma_reply_roundtrip(ReplyModel::Array(keys));
}

} // verus!

