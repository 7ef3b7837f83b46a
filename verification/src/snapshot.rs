//! Best-effort snapshot reader: turns the bytes of an on-disk snapshot file
//! into initial key-space records.
//!
//! The format consumed is deliberately narrow: a stream of bytes in which
//! `0xFC` introduces an 8-byte little-endian expiry timestamp (milliseconds
//! since epoch) for the next key/value pair, `0xFF` ends the stream, ASCII
//! letters accumulate into text tokens and every other byte separates
//! tokens. The first five tokens are fixed header fields and are skipped;
//! the rest pair up as key and value. Reading the file itself is the
//! caller's concern; this module only computes on the bytes.

use vstd::prelude::*;

use crate::keyspace::clone_bytes;

verus! {

pub open spec fn is_letter(b: u8) -> bool {
    (65 <= b <= 90) || (97 <= b <= 122)
}

/// The little-endian value of the eight bytes starting at `i`.
pub open spec fn le8(s: Seq<u8>, i: int) -> u64 {
    (s[i] + 256 * (s[i + 1] + 256 * (s[i + 2] + 256 * (s[i + 3] + 256 * (s[i + 4] + 256 * (s[i + 5]
        + 256 * (s[i + 6] + 256 * s[i + 7]))))))) as u64
}

/// The token list with the current letter run appended, if it is non-empty.
pub open spec fn close_token(cur: Seq<u8>, toks: Seq<Seq<u8>>) -> Seq<Seq<u8>> {
    if cur.len() == 0 {
        toks
    } else {
        toks.push(cur)
    }
}

/// Scans the snapshot bytes from `i` with the letter run `cur`, the tokens
/// `toks` and the timestamps `stamps` collected so far, yielding all text
/// tokens and all expiry timestamps. The scan stops at the end marker, at
/// the end of the bytes, or at a truncated timestamp field.
pub open spec fn scan(
    s: Seq<u8>,
    i: int,
    cur: Seq<u8>,
    toks: Seq<Seq<u8>>,
    stamps: Seq<u64>,
) -> (Seq<Seq<u8>>, Seq<u64>)
    decreases s.len() - i,
{
    if !(0 <= i < s.len()) {
        (close_token(cur, toks), stamps)
    } else if s[i] == 255 {
        (close_token(cur, toks), stamps)
    } else if s[i] == 252 {
        if i + 9 <= s.len() {
            scan(s, i + 9, cur, toks, stamps.push(le8(s, i + 1)))
        } else {
            (close_token(cur, toks), stamps)
        }
    } else if is_letter(s[i]) {
        scan(s, i + 1, cur.push(s[i]), toks, stamps)
    } else {
        scan(s, i + 1, Seq::empty(), close_token(cur, toks), stamps)
    }
}

/// The expiry stored for pair number `j`: the `j`-th timestamp when there is
/// one, with an already-past timestamp mapped to the already-elapsed time
/// zero so that the record loads but reads as expired; no expiry otherwise.
pub open spec fn stamp_for(stamps: Seq<u64>, j: int, now: u64) -> Option<u64> {
    if 0 <= j < stamps.len() {
        if stamps[j] <= now {
            Some(0u64)
        } else {
            Some(stamps[j])
        }
    } else {
        None
    }
}

/// The records formed by pairing tokens from the 6th onward, starting at
/// pair number `j`; a trailing token without a partner is dropped.
pub open spec fn records_from(
    toks: Seq<Seq<u8>>,
    stamps: Seq<u64>,
    now: u64,
    j: int,
) -> Seq<(Seq<u8>, Seq<u8>, Option<u64>)>
    decreases toks.len() - (5 + 2 * j),
{
    if 0 <= j && 5 + 2 * j + 2 <= toks.len() {
        seq![(toks[5 + 2 * j], toks[5 + 2 * j + 1], stamp_for(stamps, j, now))] + records_from(
            toks,
            stamps,
            now,
            j + 1,
        )
    } else {
        Seq::empty()
    }
}

/// All records the snapshot bytes denote at load time `now`.
pub open spec fn snapshot_records(s: Seq<u8>, now: u64) -> Seq<(Seq<u8>, Seq<u8>, Option<u64>)> {
    records_from(
        scan(s, 0, Seq::empty(), Seq::empty(), Seq::empty()).0,
        scan(s, 0, Seq::empty(), Seq::empty(), Seq::empty()).1,
        now,
        0,
    )
}

pub open spec fn triples_view(v: Seq<(Vec<u8>, Vec<u8>, Option<u64>)>) -> Seq<
    (Seq<u8>, Seq<u8>, Option<u64>),
> {
    v.map_values(|r: (Vec<u8>, Vec<u8>, Option<u64>)| (r.0@, r.1@, r.2))
}

/// Reads the eight bytes starting at `i` as a little-endian number.
fn read_le8(data: &Vec<u8>, i: usize) -> (r: u64)
    requires
        i + 8 <= data@.len(),
    ensures
        r == le8(data@, i as int),
{
    let n = data.len();
    assert(i + 8 <= n);
    let b0 = data[i] as u64;
    let b1 = data[i + 1] as u64;
    let b2 = data[i + 2] as u64;
    let b3 = data[i + 3] as u64;
    let b4 = data[i + 4] as u64;
    let b5 = data[i + 5] as u64;
    let b6 = data[i + 6] as u64;
    let b7 = data[i + 7] as u64;
    let mut v: u64 = b7;
    assert(v < 256);
    v = v * 256 + b6;
    assert(v < 65536);
    v = v * 256 + b5;
    assert(v < 16777216);
    v = v * 256 + b4;
    assert(v < 4294967296);
    v = v * 256 + b3;
    assert(v < 1099511627776);
    v = v * 256 + b2;
    assert(v < 281474976710656);
    v = v * 256 + b1;
    assert(v < 72057594037927936);
    v = v * 256 + b0;
    v
}

/// Scans snapshot bytes into text tokens and expiry timestamps.
pub fn scan_snapshot(data: &Vec<u8>) -> (r: (Vec<Vec<u8>>, Vec<u64>))
    ensures
        r.0.deep_view() == scan(data@, 0, Seq::empty(), Seq::empty(), Seq::empty()).0,
        r.1@ == scan(data@, 0, Seq::empty(), Seq::empty(), Seq::empty()).1,
{
    let ghost s = data@;
    let ghost target = scan(s, 0, Seq::empty(), Seq::empty(), Seq::empty());
    let mut cur: Vec<u8> = Vec::new();
    let mut toks: Vec<Vec<u8>> = Vec::new();
    let mut stamps: Vec<u64> = Vec::new();
    let mut i: usize = 0;
    let mut done: bool = false;
    proof {
        assert(cur@ =~= Seq::<u8>::empty());
        assert(toks.deep_view() =~~= Seq::<Seq<u8>>::empty());
        assert(stamps@ =~= Seq::<u64>::empty());
    }
    while i < data.len() && !done
        invariant
            s == data@,
            i <= s.len(),
            !done ==> target == scan(s, i as int, cur@, toks.deep_view(), stamps@),
            done ==> target == (close_token(cur@, toks.deep_view()), stamps@),
        decreases s.len() - i, if done { 0int } else { 1int },
    {
        let b = data[i];
        if b == 255 {
            done = true;
        } else if b == 252 {
            if data.len() - i >= 9 {
                let ghost stamps0 = stamps@;
                let t = read_le8(data, i + 1);
                stamps.push(t);
                proof {
                    assert(stamps@ =~= stamps0.push(le8(s, i + 1)));
                }
                i = i + 9;
            } else {
                done = true;
            }
        } else if (65 <= b && b <= 90) || (97 <= b && b <= 122) {
            let ghost cur0 = cur@;
            cur.push(b);
            proof {
                assert(cur@ =~= cur0.push(s[i as int]));
            }
            i = i + 1;
        } else {
            let ghost toks0 = toks.deep_view();
            let ghost cur0 = cur@;
            if cur.len() > 0 {
                let finished = cur;
                cur = Vec::new();
                toks.push(finished);
                proof {
                    assert(toks.deep_view() =~~= toks0.push(cur0));
                    assert(toks.deep_view() =~~= close_token(cur0, toks0));
                }
            } else {
                proof {
                    assert(toks.deep_view() =~~= close_token(cur0, toks0));
                }
            }
            proof {
                assert(cur@ =~= Seq::<u8>::empty());
            }
            i = i + 1;
        }
    }
    let ghost toks0 = toks.deep_view();
    let ghost cur0 = cur@;
    if cur.len() > 0 {
        toks.push(cur);
        proof {
            assert(toks.deep_view() =~~= toks0.push(cur0));
        }
    }
    proof {
        assert(toks.deep_view() =~~= close_token(cur0, toks0));
        if !done {
            assert(i == s.len());
            assert(target == (close_token(cur0, toks0), stamps@));
        }
    }
    (toks, stamps)
}

/// Pairs tokens from the 6th onward into records, attaching the collected
/// expiry timestamps in order.
pub fn generate_entries(toks: &Vec<Vec<u8>>, stamps: &Vec<u64>, now: u64) -> (r: Vec<
    (Vec<u8>, Vec<u8>, Option<u64>),
>)
    ensures
        triples_view(r@) == records_from(toks.deep_view(), stamps@, now, 0),
{
    let ghost tv = toks.deep_view();
    let ghost target = records_from(tv, stamps@, now, 0);
    let mut out: Vec<(Vec<u8>, Vec<u8>, Option<u64>)> = Vec::new();
    let mut idx: usize = 5;
    let mut j: usize = 0;
    proof {
        assert(tv.len() == toks@.len());
        assert(triples_view(out@) =~~= Seq::<(Seq<u8>, Seq<u8>, Option<u64>)>::empty());
    }
    while idx < toks.len() && idx + 1 < toks.len()
        invariant
            tv == toks.deep_view(),
            tv.len() == toks@.len(),
            idx == 5 + 2 * j,
            target == triples_view(out@) + records_from(tv, stamps@, now, j as int),
        decreases toks@.len() - idx,
    {
        let ghost out0 = triples_view(out@);
        let key = clone_bytes(&toks[idx]);
        let value = clone_bytes(&toks[idx + 1]);
        let expires_at: Option<u64> = if j < stamps.len() {
            let t = stamps[j];
            if t <= now {
                Some(0)
            } else {
                Some(t)
            }
        } else {
            None
        };
        proof {
            assert(tv[idx as int] == toks@[idx as int]@);
            assert(tv[idx + 1] == toks@[idx + 1]@);
            assert(records_from(tv, stamps@, now, j as int) == seq![
                (tv[idx as int], tv[idx + 1], stamp_for(stamps@, j as int, now)),
            ] + records_from(tv, stamps@, now, j + 1));
            assert(expires_at == stamp_for(stamps@, j as int, now));
        }
        out.push((key, value, expires_at));
        proof {
            assert(triples_view(out@) =~~= out0.push((tv[idx as int], tv[idx + 1], expires_at)));
            assert(out0 + (seq![(tv[idx as int], tv[idx + 1], stamp_for(stamps@, j as int, now))]
                + records_from(tv, stamps@, now, j + 1)) =~~= triples_view(out@) + records_from(
                tv,
                stamps@,
                now,
                j + 1,
            ));
        }
        idx = idx + 2;
        j = j + 1;
    }
    proof {
        assert(records_from(tv, stamps@, now, j as int) =~~= Seq::<
            (Seq<u8>, Seq<u8>, Option<u64>),
        >::empty());
        assert(target =~~= triples_view(out@));
    }
    out
}

/// Turns the raw bytes of a snapshot file into key-space records, at load
/// time `now`.
pub fn parse_snapshot(data: &Vec<u8>, now: u64) -> (r: Vec<(Vec<u8>, Vec<u8>, Option<u64>)>)
    ensures
        triples_view(r@) == snapshot_records(data@, now),
{
    let (toks, stamps) = scan_snapshot(data);
    generate_entries(&toks, &stamps, now)
}

} // verus!
