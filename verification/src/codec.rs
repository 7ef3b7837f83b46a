//! Wire codec: decodes a byte stream into command frames and encodes replies.
//!
//! A request is an array of bulk strings: `*<N>\r\n` followed by `N` items of
//! the form `$<len>\r\n<len bytes>\r\n`. Decoding is length-driven, never
//! delimiter-scanned, so payloads that contain `\r\n` are carried intact.

use vstd::prelude::*;

verus! {

/// Largest declared length (array count or bulk-string payload) a frame may
/// carry; anything larger is a protocol error.
pub const MAX_FRAME_LEN: u64 = 536870912;

pub open spec fn is_digit(b: u8) -> bool {
    48 <= b <= 57
}

/// The decimal digit string of `n`, most significant digit first.
pub open spec fn dec_digits(n: nat) -> Seq<u8>
    decreases n,
{
    if n < 10 {
        seq![(48 + n) as u8]
    } else {
        dec_digits(n / 10).push((48 + n % 10) as u8)
    }
}

/// The number denoted by a digit string (most significant digit first).
pub open spec fn digits_val(s: Seq<u8>) -> nat
    decreases s.len(),
{
    if s.len() == 0 {
        0
    } else {
        (digits_val(s.drop_last()) * 10 + (s.last() - 48)) as nat
    }
}

pub open spec fn all_digits(s: Seq<u8>) -> bool {
    forall|i: int| 0 <= i < s.len() ==> is_digit(#[trigger] s[i])
}

pub proof fn lemma_dec_digits_wf(n: nat)
    ensures
        dec_digits(n).len() >= 1,
        all_digits(dec_digits(n)),
    decreases n,
{
    if n >= 10 {
        lemma_dec_digits_wf(n / 10);
        assert forall|i: int| 0 <= i < dec_digits(n).len() implies is_digit(
            #[trigger] dec_digits(n)[i],
        ) by {
            if i < dec_digits(n / 10).len() {
                assert(dec_digits(n)[i] == dec_digits(n / 10)[i]);
            }
        }
    }
}

/// Printing a number and reading the digits back yields the same number.
pub proof fn lemma_digits_roundtrip(n: nat)
    ensures
        digits_val(dec_digits(n)) == n,
    decreases n,
{
    if n < 10 {
        let s = dec_digits(n);
        assert(s.drop_last().len() == 0);
        assert(digits_val(s) == digits_val(s.drop_last()) * 10 + (s.last() - 48));
    } else {
        lemma_digits_roundtrip(n / 10);
        let s = dec_digits(n);
        assert(s.drop_last() =~= dec_digits(n / 10));
        assert(digits_val(s) == digits_val(s.drop_last()) * 10 + (s.last() - 48));
        assert(s.last() == (48 + n % 10) as u8);
        assert(digits_val(s) == (n / 10) * 10 + n % 10);
    }
}

/// A digit string is worth at least as much as any of its prefixes.
pub proof fn lemma_digits_val_prefix(s: Seq<u8>, k: int)
    requires
        all_digits(s),
        0 <= k <= s.len(),
    ensures
        digits_val(s.subrange(0, k)) <= digits_val(s),
    decreases s.len() - k,
{
    if k < s.len() {
        lemma_digits_val_prefix(s, k + 1);
        assert(s.subrange(0, k + 1).drop_last() =~= s.subrange(0, k));
        assert(digits_val(s.subrange(0, k + 1)) == digits_val(s.subrange(0, k)) * 10 + (
        s.subrange(0, k + 1).last() - 48));
    } else {
        assert(s.subrange(0, k) =~= s);
    }
}

/// Outcome of parsing one syntactic element starting at some index: the
/// element's meaning and the index just past it, or a verdict on the buffer.
pub enum Parsed<T> {
    /// The element was parsed; the second field is the index just past it.
    Found(T, int),
    /// The buffer ends before the element does; more bytes may complete it.
    Incomplete,
    /// The bytes cannot begin any well-formed element.
    Malformed,
}

/// Index just past the run of decimal digits that starts at `i`.
pub open spec fn digit_run_end(s: Seq<u8>, i: int) -> int
    decreases s.len() - i,
{
    if 0 <= i < s.len() && is_digit(s[i]) {
        digit_run_end(s, i + 1)
    } else {
        i
    }
}

pub proof fn lemma_digit_run_end(s: Seq<u8>, i: int)
    requires
        0 <= i <= s.len(),
    ensures
        i <= digit_run_end(s, i) <= s.len(),
        forall|j: int| i <= j < digit_run_end(s, i) ==> is_digit(#[trigger] s[j]),
        digit_run_end(s, i) == s.len() || !is_digit(s[digit_run_end(s, i)]),
    decreases s.len() - i,
{
    if i < s.len() && is_digit(s[i]) {
        lemma_digit_run_end(s, i + 1);
    }
}

/// The digit run starting at `i` ends exactly where the digits stop.
pub proof fn lemma_digit_run_exact(s: Seq<u8>, i: int, k: int)
    requires
        0 <= i <= k <= s.len(),
        forall|j: int| i <= j < k ==> is_digit(#[trigger] s[j]),
        k == s.len() || !is_digit(s[k]),
    ensures
        digit_run_end(s, i) == k,
    decreases k - i,
{
    if i < k {
        lemma_digit_run_exact(s, i + 1, k);
    }
}

/// Parses an unsigned decimal length starting at `i`, terminated by `\r\n`.
/// A value above `MAX_FRAME_LEN` is malformed even if further digits could
/// still arrive, since digits only ever increase it.
pub open spec fn parse_number(s: Seq<u8>, i: int) -> Parsed<u64> {
    if !(0 <= i <= s.len()) {
        Parsed::Malformed
    } else if i == s.len() {
        Parsed::Incomplete
    } else if !is_digit(s[i]) {
        Parsed::Malformed
    } else {
        let j = digit_run_end(s, i);
        let n = digits_val(s.subrange(i, j));
        if n > MAX_FRAME_LEN {
            Parsed::Malformed
        } else if j == s.len() || (j + 1 == s.len() && s[j] == 13) {
            Parsed::Incomplete
        } else if s[j] == 13 && s[j + 1] == 10 {
            Parsed::Found(n as u64, j + 2)
        } else {
            Parsed::Malformed
        }
    }
}

/// Parses one bulk string (`$<len>\r\n<len bytes>\r\n`) starting at `i`.
pub open spec fn parse_bulk(s: Seq<u8>, i: int) -> Parsed<Seq<u8>> {
    if !(0 <= i <= s.len()) {
        Parsed::Malformed
    } else if i == s.len() {
        Parsed::Incomplete
    } else if s[i] != 36 {
        Parsed::Malformed
    } else {
        match parse_number(s, i + 1) {
            Parsed::Malformed => Parsed::Malformed,
            Parsed::Incomplete => Parsed::Incomplete,
            Parsed::Found(n, j) => if j + n + 2 > s.len() {
                Parsed::Incomplete
            } else if s[j + n] == 13 && s[j + n + 1] == 10 {
                Parsed::Found(s.subrange(j, j + n), j + n + 2)
            } else {
                Parsed::Malformed
            },
        }
    }
}

/// Parses `cnt` consecutive bulk strings starting at `i`.
pub open spec fn parse_bulks(s: Seq<u8>, i: int, cnt: nat) -> Parsed<Seq<Seq<u8>>>
    decreases cnt,
{
    if cnt == 0 {
        Parsed::Found(Seq::empty(), i)
    } else {
        match parse_bulk(s, i) {
            Parsed::Malformed => Parsed::Malformed,
            Parsed::Incomplete => Parsed::Incomplete,
            Parsed::Found(v, j) => match parse_bulks(s, j, (cnt - 1) as nat) {
                Parsed::Malformed => Parsed::Malformed,
                Parsed::Incomplete => Parsed::Incomplete,
                Parsed::Found(rest, end) => Parsed::Found(seq![v] + rest, end),
            },
        }
    }
}

/// Parses one request frame from the front of the buffer: `*<N>\r\n`
/// followed by `N` bulk strings, the command name and its arguments.
pub open spec fn parse_request(s: Seq<u8>) -> Parsed<Seq<Seq<u8>>> {
    if s.len() == 0 {
        Parsed::Incomplete
    } else if s[0] != 42 {
        Parsed::Malformed
    } else {
        match parse_number(s, 1) {
            Parsed::Malformed => Parsed::Malformed,
            Parsed::Incomplete => Parsed::Incomplete,
            Parsed::Found(n, j) => parse_bulks(s, j, n as nat),
        }
    }
}

/// Executable counterpart of [`Parsed`]: one parsed element and the index
/// just past it, or a verdict on the buffer so far.
pub enum ExParsed<T> {
    Found(T, usize),
    Incomplete,
    Malformed,
}

/// Reads the decimal length that starts at `i` and its `\r\n` terminator.
fn scan_number(buf: &Vec<u8>, i: usize) -> (r: ExParsed<u64>)
    requires
        i <= buf.len(),
    ensures
        match r {
            ExParsed::Found(n, j) => parse_number(buf@, i as int) == Parsed::Found(n, j as int)
                && j <= buf.len(),
            ExParsed::Incomplete => parse_number(buf@, i as int) is Incomplete,
            ExParsed::Malformed => parse_number(buf@, i as int) is Malformed,
        },
{
    let ghost s = buf@;
    if i == buf.len() {
        return ExParsed::Incomplete;
    }
    if !(48 <= buf[i] && buf[i] <= 57) {
        return ExParsed::Malformed;
    }
    proof {
        lemma_digit_run_end(s, i as int);
    }
    let ghost run_end = digit_run_end(s, i as int);
    let mut k: usize = i;
    let mut acc: u64 = 0;
    while k < buf.len() && 48 <= buf[k] && buf[k] <= 57
        invariant
            i <= k <= buf.len(),
            s == buf@,
            forall|j: int| i <= j < k ==> is_digit(#[trigger] s[j]),
            acc == digits_val(s.subrange(i as int, k as int)),
            acc <= MAX_FRAME_LEN,
            run_end == digit_run_end(s, i as int),
            i <= run_end <= s.len(),
            forall|j: int| i <= j < run_end ==> is_digit(#[trigger] s[j]),
            run_end == s.len() || !is_digit(s[run_end]),
        decreases buf.len() - k,
    {
        let d = (buf[k] - 48) as u64;
        let next = acc * 10 + d;
        proof {
            assert(s.subrange(i as int, k + 1).drop_last() =~= s.subrange(i as int, k as int));
            assert(digits_val(s.subrange(i as int, k + 1)) == acc * 10 + d);
        }
        if next > MAX_FRAME_LEN {
            proof {
                assert(k + 1 <= run_end);
                let t = s.subrange(i as int, run_end);
                assert(all_digits(t));
                lemma_digits_val_prefix(t, k + 1 - i);
                assert(t.subrange(0, k + 1 - i) =~= s.subrange(i as int, k + 1));
                assert(digits_val(s.subrange(i as int, run_end)) > MAX_FRAME_LEN);
            }
            return ExParsed::Malformed;
        }
        acc = next;
        k = k + 1;
    }
    proof {
        lemma_digit_run_exact(s, i as int, k as int);
    }
    if k == buf.len() {
        return ExParsed::Incomplete;
    }
    if buf[k] == 13 {
        if k + 1 == buf.len() {
            return ExParsed::Incomplete;
        }
        if buf[k + 1] == 10 {
            return ExParsed::Found(acc, k + 2);
        }
    }
    ExParsed::Malformed
}

/// Reads one bulk string (`$<len>\r\n<len bytes>\r\n`) starting at `i`.
fn scan_bulk(buf: &Vec<u8>, i: usize) -> (r: ExParsed<Vec<u8>>)
    requires
        i <= buf.len(),
    ensures
        match r {
            ExParsed::Found(v, j) => parse_bulk(buf@, i as int) == Parsed::Found(v@, j as int)
                && j <= buf.len(),
            ExParsed::Incomplete => parse_bulk(buf@, i as int) is Incomplete,
            ExParsed::Malformed => parse_bulk(buf@, i as int) is Malformed,
        },
{
    if i == buf.len() {
        return ExParsed::Incomplete;
    }
    if buf[i] != 36 {
        return ExParsed::Malformed;
    }
    match scan_number(buf, i + 1) {
        ExParsed::Incomplete => ExParsed::Incomplete,
        ExParsed::Malformed => ExParsed::Malformed,
        ExParsed::Found(n, j) => {
            assert(n <= usize::MAX);
            let n = n as usize;
            if buf.len() - j < 2 || n > buf.len() - j - 2 {
                return ExParsed::Incomplete;
            }
            let mut payload: Vec<u8> = Vec::new();
            let mut m: usize = 0;
            while m < n
                invariant
                    j + n + 2 <= buf.len(),
                    m <= n,
                    payload@ =~= buf@.subrange(j as int, j + m),
                decreases n - m,
            {
                payload.push(buf[j + m]);
                m = m + 1;
            }
            if buf[j + n] == 13 && buf[j + n + 1] == 10 {
                ExParsed::Found(payload, j + n + 2)
            } else {
                ExParsed::Malformed
            }
        },
    }
}

/// Outcome of decoding one request frame from the front of a read buffer.
pub enum DecodedRequest {
    /// A complete frame: its elements (command name first, then the
    /// arguments) and how many bytes of the buffer it occupied.
    Complete(Vec<Vec<u8>>, usize),
    /// The buffer holds only a prefix of a frame; read more and retry.
    NeedMoreData,
    /// The buffer cannot begin any well-formed frame; the connection is to
    /// be closed.
    ProtocolError,
}

/// Decodes one request frame from the front of `buf`.
pub fn decode_request(buf: &Vec<u8>) -> (r: DecodedRequest)
    ensures
        match r {
            DecodedRequest::Complete(args, used) => parse_request(buf@) == Parsed::Found(
                args.deep_view(),
                used as int,
            ),
            DecodedRequest::NeedMoreData => parse_request(buf@) is Incomplete,
            DecodedRequest::ProtocolError => parse_request(buf@) is Malformed,
        },
{
    let ghost s = buf@;
    if buf.len() == 0 {
        return DecodedRequest::NeedMoreData;
    }
    if buf[0] != 42 {
        return DecodedRequest::ProtocolError;
    }
    let (n, start) = match scan_number(buf, 1) {
        ExParsed::Incomplete => {
            return DecodedRequest::NeedMoreData;
        },
        ExParsed::Malformed => {
            return DecodedRequest::ProtocolError;
        },
        ExParsed::Found(n, j) => (n as usize, j),
    };
    let mut out: Vec<Vec<u8>> = Vec::new();
    let mut pos: usize = start;
    let mut c: usize = 0;
    while c < n
        invariant
            s == buf@,
            c <= n,
            pos <= s.len(),
            out.len() == c,
            parse_request(s) == parse_bulks(s, start as int, n as nat),
            (parse_bulks(s, pos as int, (n - c) as nat) matches Parsed::Found(rest, end) ==>
                parse_bulks(s, start as int, n as nat) == Parsed::Found(
                    out.deep_view() + rest,
                    end,
                )),
            (parse_bulks(s, pos as int, (n - c) as nat) is Incomplete ==> parse_bulks(
                s,
                start as int,
                n as nat,
            ) is Incomplete),
            (parse_bulks(s, pos as int, (n - c) as nat) is Malformed ==> parse_bulks(
                s,
                start as int,
                n as nat,
            ) is Malformed),
        decreases n - c,
    {
        let ghost rem = (n - c) as nat;
        match scan_bulk(buf, pos) {
            ExParsed::Incomplete => {
                proof {
                    assert(parse_bulks(s, pos as int, rem) is Incomplete);
                }
                return DecodedRequest::NeedMoreData;
            },
            ExParsed::Malformed => {
                proof {
                    assert(parse_bulks(s, pos as int, rem) is Malformed);
                }
                return DecodedRequest::ProtocolError;
            },
            ExParsed::Found(v, j) => {
                proof {
                    let old_dv = out.deep_view();
                    assert(parse_bulk(s, pos as int) == Parsed::Found(v@, j as int));
                    match parse_bulks(s, j as int, (rem - 1) as nat) {
                        Parsed::Found(rest2, end2) => {
                            assert(parse_bulks(s, pos as int, rem) == Parsed::Found(
                                seq![v@] + rest2,
                                end2,
                            ));
                            assert((old_dv + (seq![v@] + rest2)) =~~= ((old_dv.push(v@)) + rest2));
                        },
                        _ => {},
                    }
                }
                let ghost prev = out.deep_view();
                out.push(v);
                proof {
                    assert(out.deep_view() =~~= prev.push(v@));
                }
                pos = j;
                c = c + 1;
            },
        }
    }
    proof {
        assert(parse_bulks(s, pos as int, 0) == Parsed::<Seq<Seq<u8>>>::Found(
            Seq::empty(),
            pos as int,
        ));
        assert(out.deep_view() + Seq::<Seq<u8>>::empty() =~~= out.deep_view());
    }
    DecodedRequest::Complete(out, pos)
}


/// The abstract form of a server reply, as the contracts speak of it.
pub enum ReplyModel {
    /// `+<text>\r\n`; the text may not contain CR or LF.
    Simple(Seq<u8>),
    /// `$<len>\r\n<bytes>\r\n`.
    Bulk(Seq<u8>),
    /// `$-1\r\n`, the reply for an absent or expired key.
    NullBulk,
    /// `*<N>\r\n` followed by `N` bulk strings.
    Array(Seq<Seq<u8>>),
}

/// A server reply ready for encoding.
pub enum Reply {
    Simple(Vec<u8>),
    Bulk(Vec<u8>),
    NullBulk,
    Array(Vec<Vec<u8>>),
}

impl View for Reply {
    type V = ReplyModel;

    open spec fn view(&self) -> ReplyModel {
        match self {
            Reply::Simple(t) => ReplyModel::Simple(t@),
            Reply::Bulk(v) => ReplyModel::Bulk(v@),
            Reply::NullBulk => ReplyModel::NullBulk,
            Reply::Array(items) => ReplyModel::Array(items.deep_view()),
        }
    }
}

pub open spec fn crlf() -> Seq<u8> {
    seq![13u8, 10u8]
}

/// The wire bytes of one bulk string.
pub open spec fn encode_bulk(v: Seq<u8>) -> Seq<u8> {
    seq![36u8] + dec_digits(v.len()) + crlf() + v + crlf()
}

/// The wire bytes of a run of bulk strings.
pub open spec fn encode_bulks(items: Seq<Seq<u8>>) -> Seq<u8>
    decreases items.len(),
{
    if items.len() == 0 {
        Seq::empty()
    } else {
        encode_bulk(items[0]) + encode_bulks(items.drop_first())
    }
}

/// The wire bytes of a reply.
pub open spec fn encode_reply(r: ReplyModel) -> Seq<u8> {
    match r {
        ReplyModel::Simple(t) => seq![43u8] + t + crlf(),
        ReplyModel::Bulk(v) => encode_bulk(v),
        ReplyModel::NullBulk => seq![36u8, 45u8, 49u8, 13u8, 10u8],
        ReplyModel::Array(items) => seq![42u8] + dec_digits(items.len()) + crlf() + encode_bulks(
            items,
        ),
    }
}

/// A reply the protocol can carry: simple-string text is free of CR and LF,
/// and every declared length fits under the frame cap.
pub open spec fn reply_valid(r: ReplyModel) -> bool {
    match r {
        ReplyModel::Simple(t) => forall|i: int| 0 <= i < t.len() ==> t[i] != 13 && #[trigger] t[i] != 10,
        ReplyModel::Bulk(v) => v.len() <= MAX_FRAME_LEN,
        ReplyModel::NullBulk => true,
        ReplyModel::Array(items) => items.len() <= MAX_FRAME_LEN && forall|i: int|
            0 <= i < items.len() ==> #[trigger] items[i].len() <= MAX_FRAME_LEN,
    }
}

/// Appends the decimal digits of `n` to `out`.
fn push_dec_digits(n: u64, out: &mut Vec<u8>)
    ensures
        final(out)@ == old(out)@ + dec_digits(n as nat),
    decreases n,
{
    if n < 10 {
        out.push(48 + n as u8);
        assert(out@ =~= old(out)@ + dec_digits(n as nat));
    } else {
        push_dec_digits(n / 10, out);
        out.push(48 + (n % 10) as u8);
        assert(out@ =~= old(out)@ + dec_digits(n as nat));
    }
}

/// Appends the bytes of `v` to `out`.
fn push_bytes(v: &Vec<u8>, out: &mut Vec<u8>)
    ensures
        final(out)@ == old(out)@ + v@,
{
    let mut i: usize = 0;
    while i < v.len()
        invariant
            i <= v.len(),
            out@ =~= old(out)@ + v@.subrange(0, i as int),
        decreases v.len() - i,
    {
        out.push(v[i]);
        i = i + 1;
    }
    assert(out@ =~= old(out)@ + v@);
}

/// Appends the wire form of one bulk string to `out`.
fn push_bulk(v: &Vec<u8>, out: &mut Vec<u8>)
    ensures
        final(out)@ == old(out)@ + encode_bulk(v@),
{
    out.push(36);
    assert(v.len() as u64 as nat == v@.len());
    push_dec_digits(v.len() as u64, out);
    out.push(13);
    out.push(10);
    push_bytes(v, out);
    out.push(13);
    out.push(10);
    assert(out@ =~= old(out)@ + encode_bulk(v@));
}

proof fn lemma_encode_bulks_snoc(items: Seq<Seq<u8>>, k: int)
    requires
        0 <= k < items.len(),
    ensures
        encode_bulks(items.subrange(0, k + 1)) == encode_bulks(items.subrange(0, k)) + encode_bulk(
            items[k],
        ),
    decreases k,
{
    let a = items.subrange(0, k + 1);
    if k == 0 {
        assert(a.len() == 1);
        assert(a[0] == items[0]);
        assert(a.drop_first() =~~= Seq::<Seq<u8>>::empty());
        assert(encode_bulks(a.drop_first()) =~= Seq::<u8>::empty());
        assert(encode_bulks(a) == encode_bulk(a[0]) + encode_bulks(a.drop_first()));
        assert(encode_bulks(items.subrange(0, 0)) =~= Seq::<u8>::empty());
        assert(encode_bulks(a) =~= Seq::<u8>::empty() + encode_bulk(items[0]));
    } else {
        lemma_encode_bulks_snoc(items.drop_first(), k - 1);
        assert(a.drop_first() =~~= items.drop_first().subrange(0, k));
        assert(items.subrange(0, k).drop_first() =~~= items.drop_first().subrange(0, k - 1));
        assert(encode_bulks(items.subrange(0, k)) == encode_bulk(items[0]) + encode_bulks(
            items.drop_first().subrange(0, k - 1),
        ));
        assert(items.drop_first()[k - 1] =~= items[k]);
        assert(encode_bulks(a) =~= encode_bulks(items.subrange(0, k)) + encode_bulk(items[k]));
    }
}

/// Encodes a reply into its wire bytes.
pub fn encode_reply_bytes(r: &Reply) -> (out: Vec<u8>)
    requires
        (r@ matches ReplyModel::Array(items) ==> items.len() <= u64::MAX),
    ensures
        out@ == encode_reply(r@),
{
    let mut out: Vec<u8> = Vec::new();
    match r {
        Reply::Simple(t) => {
            out.push(43);
            push_bytes(t, &mut out);
            out.push(13);
            out.push(10);
            assert(out@ =~= encode_reply(r@));
        },
        Reply::Bulk(v) => {
            push_bulk(v, &mut out);
            assert(out@ =~= encode_reply(r@));
        },
        Reply::NullBulk => {
            out.push(36);
            out.push(45);
            out.push(49);
            out.push(13);
            out.push(10);
            assert(out@ =~= encode_reply(r@));
        },
        Reply::Array(items) => {
            let ghost m = items.deep_view();
            out.push(42);
            push_dec_digits(items.len() as u64, &mut out);
            out.push(13);
            out.push(10);
            let ghost head = out@;
            assert(m.len() == items@.len());
            let mut i: usize = 0;
            while i < items.len()
                invariant
                    i <= items.len(),
                    m == items.deep_view(),
                    m.len() == items@.len(),
                    out@ =~= head + encode_bulks(m.subrange(0, i as int)),
                decreases items.len() - i,
            {
                proof {
                    lemma_encode_bulks_snoc(m, i as int);
                    assert(m[i as int] == items@[i as int]@);
                }
                push_bulk(&items[i], &mut out);
                i = i + 1;
            }
            proof {
                assert(m.subrange(0, m.len() as int) =~~= m);
                assert(out@ =~= head + encode_bulks(m));
                assert(encode_reply(r@) =~= head + encode_bulks(m));
            }
        },
    }
    out
}


/// Index of the first CR at or after `i`.
pub open spec fn line_end(s: Seq<u8>, i: int) -> int
    decreases s.len() - i,
{
    if 0 <= i < s.len() {
        if s[i] == 13 {
            i
        } else {
            line_end(s, i + 1)
        }
    } else {
        i
    }
}

pub proof fn lemma_line_end(s: Seq<u8>, i: int)
    requires
        0 <= i <= s.len(),
    ensures
        i <= line_end(s, i) <= s.len(),
        forall|j: int| i <= j < line_end(s, i) ==> #[trigger] s[j] != 13,
        line_end(s, i) == s.len() || s[line_end(s, i)] == 13,
    decreases s.len() - i,
{
    if i < s.len() && s[i] != 13 {
        lemma_line_end(s, i + 1);
    }
}

pub proof fn lemma_line_end_exact(s: Seq<u8>, i: int, k: int)
    requires
        0 <= i <= k <= s.len(),
        forall|j: int| i <= j < k ==> #[trigger] s[j] != 13,
        k == s.len() || s[k] == 13,
    ensures
        line_end(s, i) == k,
    decreases k - i,
{
    if i < k {
        lemma_line_end_exact(s, i + 1, k);
    }
}

/// Parses one reply starting at `i`, as a conformant client decodes it.
pub open spec fn parse_reply(s: Seq<u8>, i: int) -> Parsed<ReplyModel> {
    if !(0 <= i <= s.len()) {
        Parsed::Malformed
    } else if i == s.len() {
        Parsed::Incomplete
    } else if s[i] == 43 {
        let e = line_end(s, i + 1);
        if e == s.len() || e + 1 == s.len() {
            Parsed::Incomplete
        } else if s[e + 1] == 10 {
            Parsed::Found(ReplyModel::Simple(s.subrange(i + 1, e)), e + 2)
        } else {
            Parsed::Malformed
        }
    } else if s[i] == 36 && i + 1 < s.len() && s[i + 1] == 45 {
        if i + 2 == s.len() || (i + 3 == s.len() && s[i + 2] == 49) || (i + 4 == s.len() && s[i + 2]
            == 49 && s[i + 3] == 13) {
            Parsed::Incomplete
        } else if i + 4 < s.len() && s[i + 2] == 49 && s[i + 3] == 13 && s[i + 4] == 10 {
            Parsed::Found(ReplyModel::NullBulk, i + 5)
        } else {
            Parsed::Malformed
        }
    } else if s[i] == 36 {
        match parse_bulk(s, i) {
            Parsed::Malformed => Parsed::Malformed,
            Parsed::Incomplete => Parsed::Incomplete,
            Parsed::Found(v, j) => Parsed::Found(ReplyModel::Bulk(v), j),
        }
    } else if s[i] == 42 {
        match parse_number(s, i + 1) {
            Parsed::Malformed => Parsed::Malformed,
            Parsed::Incomplete => Parsed::Incomplete,
            Parsed::Found(n, j) => match parse_bulks(s, j, n as nat) {
                Parsed::Malformed => Parsed::Malformed,
                Parsed::Incomplete => Parsed::Incomplete,
                Parsed::Found(items, end) => Parsed::Found(ReplyModel::Array(items), end),
            },
        }
    } else {
        Parsed::Malformed
    }
}

/// A decimal length written by the encoder parses back to the same number.
proof fn lemma_parse_number_encoded(s: Seq<u8>, i: int, n: nat)
    requires
        0 <= i,
        n <= MAX_FRAME_LEN,
        i + dec_digits(n).len() + 2 <= s.len(),
        s.subrange(i, i + dec_digits(n).len()) == dec_digits(n),
        s[i + dec_digits(n).len()] == 13,
        s[i + dec_digits(n).len() + 1] == 10,
    ensures
        parse_number(s, i) == Parsed::Found(n as u64, i + dec_digits(n).len() + 2),
{
    let dd = dec_digits(n);
    lemma_dec_digits_wf(n);
    lemma_digits_roundtrip(n);
    assert forall|j: int| i <= j < i + dd.len() implies is_digit(#[trigger] s[j]) by {
        assert(s[j] == s.subrange(i, i + dd.len())[j - i]);
        assert(dd[j - i] == s[j]);
    }
    assert(!is_digit(s[i + dd.len()]));
    lemma_digit_run_exact(s, i, i + dd.len());
    assert(s[i] == dd[0]);
    assert(digits_val(s.subrange(i, i + dd.len())) == n);
}

/// A bulk string written by the encoder parses back to the same payload.
proof fn lemma_parse_bulk_encoded(s: Seq<u8>, i: int, v: Seq<u8>)
    requires
        0 <= i,
        v.len() <= MAX_FRAME_LEN,
        i + encode_bulk(v).len() <= s.len(),
        s.subrange(i, i + encode_bulk(v).len()) == encode_bulk(v),
    ensures
        parse_bulk(s, i) == Parsed::Found(v, i + encode_bulk(v).len()),
{
    let eb = encode_bulk(v);
    let dd = dec_digits(v.len());
    lemma_dec_digits_wf(v.len());
    assert forall|k: int| 0 <= k < eb.len() implies #[trigger] s[i + k] == eb[k] by {
        assert(s[i + k] == s.subrange(i, i + eb.len())[k]);
    }
    assert(eb[0] == 36);
    assert(s[i + 0] == eb[0]);
    assert(s.subrange(i + 1, i + 1 + dd.len() as int) =~= dd) by {
        assert forall|m: int| 0 <= m < dd.len() implies s.subrange(i + 1, i + 1 + dd.len() as int)[m]
            == dd[m] by {
            assert(s[i + (1 + m)] == eb[1 + m]);
            assert(eb[1 + m] == dd[m]);
        }
    }
    assert(s[i + (1 + dd.len() as int)] == eb[1 + dd.len() as int]);
    assert(eb[1 + dd.len() as int] == 13);
    assert(s[i + (1 + dd.len() as int + 1)] == eb[1 + dd.len() as int + 1]);
    assert(eb[1 + dd.len() as int + 1] == 10);
    lemma_parse_number_encoded(s, i + 1, v.len());
    let j = i + 1 + dd.len() + 2;
    assert(parse_number(s, i + 1) == Parsed::Found(v.len() as u64, j));
    assert(s.subrange(j, j + v.len() as int) =~= v) by {
        assert forall|m: int| 0 <= m < v.len() implies s.subrange(j, j + v.len() as int)[m] == v[m]
        by {
            assert(s[i + (1 + dd.len() as int + 2 + m)] == eb[1 + dd.len() as int + 2 + m]);
            assert(eb[1 + dd.len() as int + 2 + m] == v[m]);
        }
    }
    assert(s[i + (1 + dd.len() as int + 2 + v.len() as int)] == eb[1 + dd.len() as int + 2
        + v.len() as int]);
    assert(eb[1 + dd.len() as int + 2 + v.len() as int] == 13);
    assert(s[i + (1 + dd.len() as int + 2 + v.len() as int + 1)] == eb[1 + dd.len() as int + 2
        + v.len() as int + 1]);
    assert(eb[1 + dd.len() as int + 2 + v.len() as int + 1] == 10);
    assert(s[j + v.len()] == 13);
    assert(s[j + v.len() + 1] == 10);
    assert(j + v.len() + 2 == i + eb.len());
}

/// A run of bulk strings written by the encoder parses back to the same items.
proof fn lemma_parse_bulks_encoded(s: Seq<u8>, i: int, items: Seq<Seq<u8>>)
    requires
        0 <= i,
        forall|k: int| 0 <= k < items.len() ==> #[trigger] items[k].len() <= MAX_FRAME_LEN,
        i + encode_bulks(items).len() <= s.len(),
        s.subrange(i, i + encode_bulks(items).len()) == encode_bulks(items),
    ensures
        parse_bulks(s, i, items.len()) == Parsed::Found(items, i + encode_bulks(items).len()),
    decreases items.len(),
{
    if items.len() == 0 {
        assert(parse_bulks(s, i, 0) == Parsed::<Seq<Seq<u8>>>::Found(Seq::empty(), i));
        assert(items =~~= Seq::<Seq<u8>>::empty());
    } else {
        let v = items[0];
        let rest = items.drop_first();
        let eb = encode_bulk(v);
        let ebs = encode_bulks(items);
        assert(ebs == eb + encode_bulks(rest));
        assert(s.subrange(i, i + eb.len()) =~= eb) by {
            assert forall|k: int| 0 <= k < eb.len() implies s.subrange(i, i + eb.len())[k] == eb[k]
            by {
                assert(s[i + k] == s.subrange(i, i + ebs.len())[k]);
                assert(ebs[k] == eb[k]);
            }
        }
        lemma_parse_bulk_encoded(s, i, v);
        let j = i + eb.len();
        assert(s.subrange(j, j + encode_bulks(rest).len()) =~= encode_bulks(rest)) by {
            assert forall|k: int| 0 <= k < encode_bulks(rest).len() implies s.subrange(
                j,
                j + encode_bulks(rest).len(),
            )[k] == encode_bulks(rest)[k] by {
                assert(s[j + k] == s.subrange(i, i + ebs.len())[eb.len() + k]);
                assert(ebs[eb.len() + k] == encode_bulks(rest)[k]);
            }
        }
        lemma_parse_bulks_encoded(s, j, rest);
        assert(seq![v] + rest =~~= items);
    }
}

/// Round trip: a valid reply, encoded to wire bytes and decoded by a
/// conformant client-side decoder, comes back exactly, with the whole
/// encoding consumed. This holds for every payload byte-string, including
/// ones that contain the protocol's own delimiter bytes.
pub proof fn lemma_reply_roundtrip(r: ReplyModel)
    requires
        reply_valid(r),
    ensures
        parse_reply(encode_reply(r), 0) == Parsed::Found(r, encode_reply(r).len() as int),
{
    let s = encode_reply(r);
    match r {
        ReplyModel::Simple(t) => {
            assert(s[0] == 43);
            assert forall|j: int| 1 <= j < 1 + t.len() implies #[trigger] s[j] != 13 by {
                assert(s[j] == t[j - 1]);
            }
            assert(s[1 + t.len() as int] == 13);
            lemma_line_end_exact(s, 1, 1 + t.len() as int);
            assert(s[1 + t.len() as int + 1] == 10);
            assert(s.subrange(1, 1 + t.len() as int) =~= t);
        },
        ReplyModel::Bulk(v) => {
            assert(s.subrange(0, s.len() as int) =~= s);
            lemma_parse_bulk_encoded(s, 0, v);
            let dd = dec_digits(v.len());
            lemma_dec_digits_wf(v.len());
            assert(s[0] == 36);
            assert(s[1] == dd[0]);
            assert(s[1] != 45);
        },
        ReplyModel::NullBulk => {
            assert(s[0] == 36 && s[1] == 45 && s[2] == 49 && s[3] == 13 && s[4] == 10);
            assert(s.len() == 5);
        },
        ReplyModel::Array(items) => {
            let dd = dec_digits(items.len());
            lemma_dec_digits_wf(items.len());
            assert(s[0] == 42);
            assert(s.subrange(1, 1 + dd.len() as int) =~= dd);
            assert(s[1 + dd.len() as int] == 13);
            assert(s[1 + dd.len() as int + 1] == 10);
            lemma_parse_number_encoded(s, 1, items.len());
            let j = 1 + dd.len() + 2;
            assert(s.subrange(j as int, j + encode_bulks(items).len() as int) =~= encode_bulks(items));
            lemma_parse_bulks_encoded(s, j as int, items);
        },
    }
}

/// Outcome of decoding one reply from the front of a client's read buffer.
pub enum DecodedReply {
    Complete(Reply, usize),
    NeedMoreData,
    ProtocolError,
}

/// Decodes one reply from the front of `buf`, as a client would.
pub fn decode_reply(buf: &Vec<u8>) -> (r: DecodedReply)
    ensures
        match r {
            DecodedReply::Complete(rep, used) => parse_reply(buf@, 0) == Parsed::Found(
                rep@,
                used as int,
            ),
            DecodedReply::NeedMoreData => parse_reply(buf@, 0) is Incomplete,
            DecodedReply::ProtocolError => parse_reply(buf@, 0) is Malformed,
        },
{
    let ghost s = buf@;
    if buf.len() == 0 {
        return DecodedReply::NeedMoreData;
    }
    if buf[0] == 43 {
        proof {
            lemma_line_end(s, 1);
        }
        let mut e: usize = 1;
        while e < buf.len() && buf[e] != 13
            invariant
                1 <= e <= s.len(),
                s == buf@,
                forall|j: int| 1 <= j < e ==> #[trigger] s[j] != 13,
            decreases buf.len() - e,
        {
            e = e + 1;
        }
        proof {
            lemma_line_end_exact(s, 1, e as int);
        }
        if e == buf.len() || e + 1 == buf.len() {
            return DecodedReply::NeedMoreData;
        }
        if buf[e + 1] != 10 {
            return DecodedReply::ProtocolError;
        }
        let mut text: Vec<u8> = Vec::new();
        let mut m: usize = 1;
        while m < e
            invariant
                1 <= m <= e <= s.len(),
                s == buf@,
                text@ =~= s.subrange(1, m as int),
            decreases e - m,
        {
            text.push(buf[m]);
            m = m + 1;
        }
        return DecodedReply::Complete(Reply::Simple(text), e + 2);
    }
    if buf[0] == 36 && buf.len() >= 2 && buf[1] == 45 {
        if buf.len() == 2 || (buf.len() == 3 && buf[2] == 49) || (buf.len() == 4 && buf[2] == 49
            && buf[3] == 13) {
            return DecodedReply::NeedMoreData;
        }
        if buf.len() >= 5 && buf[2] == 49 && buf[3] == 13 && buf[4] == 10 {
            return DecodedReply::Complete(Reply::NullBulk, 5);
        }
        return DecodedReply::ProtocolError;
    }
    if buf[0] == 36 {
        return match scan_bulk(buf, 0) {
            ExParsed::Incomplete => DecodedReply::NeedMoreData,
            ExParsed::Malformed => DecodedReply::ProtocolError,
            ExParsed::Found(v, j) => DecodedReply::Complete(Reply::Bulk(v), j),
        };
    }
    if buf[0] != 42 {
        return DecodedReply::ProtocolError;
    }
    match decode_request(buf) {
        DecodedRequest::NeedMoreData => DecodedReply::NeedMoreData,
        DecodedRequest::ProtocolError => DecodedReply::ProtocolError,
        DecodedRequest::Complete(items, used) => DecodedReply::Complete(Reply::Array(items), used),
    }
}

} // verus!
