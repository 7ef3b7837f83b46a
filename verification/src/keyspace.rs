//! The in-memory key space: a mapping from key to value-with-optional-expiry.
//!
//! Expiry is passive: an entry whose expiry time has been reached is logically
//! absent, and every lookup re-checks this against the caller-supplied clock.
//! The library never reads a clock itself; callers pass `now` in milliseconds.

use vstd::prelude::*;

verus! {

/// The abstract form of a stored entry.
pub struct EntryModel {
    pub value: Seq<u8>,
    pub expires_at: Option<u64>,
}

/// A stored value and, optionally, the absolute time (milliseconds) at which
/// it lapses.
pub struct Entry {
    pub value: Vec<u8>,
    pub expires_at: Option<u64>,
}

impl View for Entry {
    type V = EntryModel;

    open spec fn view(&self) -> EntryModel {
        EntryModel { value: self.value@, expires_at: self.expires_at }
    }
}

/// Whether an entry is still present at time `now`: entries without an
/// expiry never lapse; others are absent once `now` reaches the expiry.
pub open spec fn entry_live(e: EntryModel, now: u64) -> bool {
    match e.expires_at {
        None => true,
        Some(t) => now < t,
    }
}

/// Whether key `k` is present and unexpired in `m` at time `now`.
pub open spec fn live(m: Map<Seq<u8>, EntryModel>, k: Seq<u8>, now: u64) -> bool {
    m.contains_key(k) && entry_live(m[k], now)
}

/// What a lookup of `k` at time `now` yields: the stored value, or nothing
/// when the key is absent or expired.
pub open spec fn live_value(m: Map<Seq<u8>, EntryModel>, k: Seq<u8>, now: u64) -> Option<Seq<u8>> {
    if live(m, k, now) {
        Some(m[k].value)
    } else {
        None
    }
}

/// The mapping denoted by an association list; a later pair overrides an
/// earlier one with the same key.
pub open spec fn map_of(s: Seq<(Vec<u8>, Entry)>) -> Map<Seq<u8>, EntryModel>
    decreases s.len(),
{
    if s.len() == 0 {
        Map::empty()
    } else {
        map_of(s.drop_last()).insert(s.last().0@, s.last().1@)
    }
}

pub open spec fn unique_keys(s: Seq<(Vec<u8>, Entry)>) -> bool {
    forall|i: int, j: int| 0 <= i < j < s.len() ==> (#[trigger] s[i]).0@ != (#[trigger] s[j]).0@
}

proof fn lemma_map_of_domain(s: Seq<(Vec<u8>, Entry)>, k: Seq<u8>)
    ensures
        map_of(s).contains_key(k) <==> exists|i: int| 0 <= i < s.len() && (#[trigger] s[i]).0@ == k,
    decreases s.len(),
{
    if s.len() > 0 {
        lemma_map_of_domain(s.drop_last(), k);
        if map_of(s).contains_key(k) {
            if s.last().0@ != k {
                let i = choose|i: int| 0 <= i < s.len() - 1 && (#[trigger] s.drop_last()[i]).0@
                    == k;
                assert(s[i].0@ == k);
            } else {
                assert(s[s.len() - 1].0@ == k);
            }
        }
        if exists|i: int| 0 <= i < s.len() && (#[trigger] s[i]).0@ == k {
            let i = choose|i: int| 0 <= i < s.len() && (#[trigger] s[i]).0@ == k;
            if i < s.len() - 1 {
                assert(s.drop_last()[i].0@ == k);
            }
        }
    }
}

proof fn lemma_map_of_index(s: Seq<(Vec<u8>, Entry)>, i: int)
    requires
        unique_keys(s),
        0 <= i < s.len(),
    ensures
        map_of(s).contains_key(s[i].0@),
        map_of(s)[s[i].0@] == s[i].1@,
    decreases s.len(),
{
    if i == s.len() - 1 {
        assert(s.last() == s[i]);
    } else {
        assert(unique_keys(s.drop_last()));
        lemma_map_of_index(s.drop_last(), i);
        assert(s.drop_last()[i] == s[i]);
        assert(s.last().0@ != s[i].0@);
    }
}

proof fn lemma_map_of_remove(s: Seq<(Vec<u8>, Entry)>, idx: int)
    requires
        unique_keys(s),
        0 <= idx < s.len(),
    ensures
        map_of(s.remove(idx)) =~= map_of(s).remove(s[idx].0@),
    decreases s.len(),
{
    let k = s[idx].0@;
    if idx == s.len() - 1 {
        assert(s.remove(idx) =~= s.drop_last());
        lemma_map_of_domain(s.drop_last(), k);
        assert(!map_of(s.drop_last()).contains_key(k)) by {
            if map_of(s.drop_last()).contains_key(k) {
                let i = choose|i: int|
                    0 <= i < s.len() - 1 && (#[trigger] s.drop_last()[i]).0@ == k;
                assert(s[i].0@ == k);
            }
        }
        assert(map_of(s).remove(k) =~= map_of(s.drop_last()));
    } else {
        assert(unique_keys(s.drop_last()));
        lemma_map_of_remove(s.drop_last(), idx);
        assert(s.drop_last()[idx] == s[idx]);
        assert(s.remove(idx).drop_last() =~= s.drop_last().remove(idx));
        assert(s.remove(idx).last() == s.last());
        assert(map_of(s.remove(idx)) =~= map_of(s.drop_last().remove(idx)).insert(
            s.last().0@,
            s.last().1@,
        ));
        assert(s.last().0@ != k);
        assert(map_of(s.drop_last()).remove(k).insert(s.last().0@, s.last().1@) =~= map_of(
            s,
        ).remove(k));
    }
}

/// Byte-vector equality, decided element by element.
pub(crate) fn bytes_eq(a: &Vec<u8>, b: &Vec<u8>) -> (r: bool)
    ensures
        r == (a@ == b@),
{
    if a.len() != b.len() {
        assert(a@ != b@);
        return false;
    }
    let mut i: usize = 0;
    while i < a.len()
        invariant
            i <= a.len(),
            a@.len() == b@.len(),
            forall|j: int| 0 <= j < i ==> a@[j] == b@[j],
        decreases a.len() - i,
    {
        if a[i] != b[i] {
            return false;
        }
        i = i + 1;
    }
    assert(a@ =~= b@);
    true
}

/// A copy of a byte vector.
pub(crate) fn clone_bytes(v: &Vec<u8>) -> (out: Vec<u8>)
    ensures
        out@ == v@,
{
    let mut out: Vec<u8> = Vec::new();
    let mut i: usize = 0;
    while i < v.len()
        invariant
            i <= v.len(),
            out@ =~= v@.subrange(0, i as int),
        decreases v.len() - i,
    {
        out.push(v[i]);
        i = i + 1;
    }
    assert(out@ =~= v@);
    out
}

/// The expiry time a TTL denotes: `now + ttl`; a sum past the largest
/// representable timestamp never arrives, so such an entry never expires.
pub open spec fn expiry_of(ttl: Option<u64>, now: u64) -> Option<u64> {
    match ttl {
        None => None,
        Some(d) => if now + d > u64::MAX {
            None
        } else {
            Some((now + d) as u64)
        },
    }
}

/// The key space: every connection handler reads and writes this one shared
/// structure through its synchronized owner.
pub struct KeySpace {
    pub entries: Vec<(Vec<u8>, Entry)>,
}

impl View for KeySpace {
    type V = Map<Seq<u8>, EntryModel>;

    open spec fn view(&self) -> Map<Seq<u8>, EntryModel> {
        map_of(self.entries@)
    }
}

impl KeySpace {
    pub open spec fn wf(&self) -> bool {
        unique_keys(self.entries@)
    }

    /// An empty key space.
    pub fn new() -> (ks: KeySpace)
        ensures
            ks.wf(),
            ks@ =~= Map::<Seq<u8>, EntryModel>::empty(),
    {
        KeySpace { entries: Vec::new() }
    }

    /// The index holding `key`, if any.
    fn find(&self, key: &Vec<u8>) -> (r: Option<usize>)
        ensures
            match r {
                Some(i) => i < self.entries@.len() && self.entries@[i as int].0@ == key@,
                None => forall|j: int|
                    0 <= j < self.entries@.len() ==> (#[trigger] self.entries@[j]).0@ != key@,
            },
    {
        let mut i: usize = 0;
        while i < self.entries.len()
            invariant
                i <= self.entries@.len(),
                forall|j: int| 0 <= j < i ==> (#[trigger] self.entries@[j]).0@ != key@,
            decreases self.entries@.len() - i,
        {
            if bytes_eq(&self.entries[i].0, key) {
                return Some(i);
            }
            i = i + 1;
        }
        None
    }

    /// Stores `value` under `key` with the given absolute expiry,
    /// overwriting any previous entry. Always succeeds.
    pub fn set_entry(&mut self, key: Vec<u8>, value: Vec<u8>, expires_at: Option<u64>)
        requires
            old(self).wf(),
        ensures
            final(self).wf(),
            final(self)@ == old(self)@.insert(key@, EntryModel { value: value@, expires_at }),
    {
        let ghost s0 = self.entries@;
        let ghost k = key@;
        let entry = Entry { value, expires_at };
        match self.find(&key) {
            Some(idx) => {
                proof {
                    lemma_map_of_remove(s0, idx as int);
                }
                let _ = self.entries.remove(idx);
                let ghost s1 = self.entries@;
                proof {
                    assert(s1 =~= s0.remove(idx as int));
                    assert(unique_keys(s1));
                    lemma_map_of_domain(s1, k);
                    assert forall|j: int| 0 <= j < s1.len() implies (#[trigger] s1[j]).0@ != k by {
                        if j < idx {
                            assert(s1[j] == s0[j]);
                        } else {
                            assert(s1[j] == s0[j + 1]);
                        }
                    }
                }
                self.entries.push((key, entry));
                proof {
                    assert(self.entries@.drop_last() =~= s1);
                    assert(unique_keys(self.entries@));
                    assert(map_of(self.entries@) =~= map_of(s0).insert(
                        k,
                        EntryModel { value: entry.value@, expires_at },
                    ));
                }
            },
            None => {
                self.entries.push((key, entry));
                proof {
                    assert(self.entries@.drop_last() =~= s0);
                    assert(unique_keys(self.entries@));
                    assert(map_of(self.entries@) =~= map_of(s0).insert(
                        k,
                        EntryModel { value: entry.value@, expires_at },
                    ));
                }
            },
        }
    }

    /// Stores `value` under `key`; with a TTL (milliseconds) the entry
    /// expires at `now + ttl`, otherwise it never expires. A TTL whose sum
    /// lies past the largest representable timestamp never expires either.
    pub fn set(&mut self, key: Vec<u8>, value: Vec<u8>, ttl: Option<u64>, now: u64)
        requires
            old(self).wf(),
        ensures
            final(self).wf(),
            final(self)@ == old(self)@.insert(
                key@,
                EntryModel { value: value@, expires_at: expiry_of(ttl, now) },
            ),
    {
        let expires_at = match ttl {
            None => None,
            Some(d) => if d > u64::MAX - now {
                None
            } else {
                Some(now + d)
            },
        };
        self.set_entry(key, value, expires_at);
    }

    /// Looks `key` up at time `now`: the stored value if present and not
    /// expired, nothing otherwise. Never an error, never a panic.
    pub fn get(&self, key: &Vec<u8>, now: u64) -> (r: Option<Vec<u8>>)
        requires
            self.wf(),
        ensures
            (r is Some) == live(self@, key@, now),
            r matches Some(v) ==> Some(v@) == live_value(self@, key@, now),
    {
        match self.find(key) {
            None => {
                proof {
                    lemma_map_of_domain(self.entries@, key@);
                }
                None
            },
            Some(idx) => {
                proof {
                    lemma_map_of_index(self.entries@, idx as int);
                }
                let e = &self.entries[idx].1;
                match e.expires_at {
                    None => Some(clone_bytes(&e.value)),
                    Some(t) => if now < t {
                        Some(clone_bytes(&e.value))
                    } else {
                        None
                    },
                }
            },
        }
    }

    /// All keys that are present and unexpired at time `now`, each exactly
    /// once, in no promised order.
    pub fn keys(&self, now: u64) -> (r: Vec<Vec<u8>>)
        requires
            self.wf(),
        ensures
            forall|k: Seq<u8>| r.deep_view().contains(k) <==> live(self@, k, now),
            forall|m1: int, m2: int| 0 <= m1 < m2 < r@.len() ==> r@[m1]@ != r@[m2]@,
    {
        let ghost s = self.entries@;
        let mut out: Vec<Vec<u8>> = Vec::new();
        let mut i: usize = 0;
        while i < self.entries.len()
            invariant
                self.wf(),
                s == self.entries@,
                i <= s.len(),
                forall|m: int|
                    0 <= m < out@.len() ==> exists|j: int|
                        0 <= j < i && (#[trigger] out@[m])@ == s[j].0@ && entry_live(s[j].1@, now),
                forall|j: int|
                    0 <= j < i && entry_live((#[trigger] s[j]).1@, now) ==> exists|m: int|
                        0 <= m < out@.len() && out@[m]@ == s[j].0@,
                forall|m1: int, m2: int| 0 <= m1 < m2 < out@.len() ==> out@[m1]@ != out@[m2]@,
            decreases s.len() - i,
        {
            let e = &self.entries[i].1;
            let is_live = match e.expires_at {
                None => true,
                Some(t) => now < t,
            };
            if is_live {
                let ghost out0 = out@;
                out.push(clone_bytes(&self.entries[i].0));
                proof {
                    assert(out@[out@.len() - 1]@ == s[i as int].0@);
                    assert(forall|m: int| 0 <= m < out0.len() ==> out@[m] == out0[m]);
                    assert forall|m1: int, m2: int|
                        0 <= m1 < m2 < out@.len() implies out@[m1]@ != out@[m2]@ by {
                        if m2 == out@.len() - 1 {
                            let j = choose|j: int|
                                0 <= j < i && (#[trigger] out0[m1])@ == s[j].0@ && entry_live(
                                    s[j].1@,
                                    now,
                                );
                            assert(s[j].0@ != s[i as int].0@);
                        }
                    }
                }
            }
            i = i + 1;
        }
        proof {
            assert forall|k: Seq<u8>| out.deep_view().contains(k) <==> live(self@, k, now) by {
                lemma_map_of_domain(s, k);
                if out.deep_view().contains(k) {
                    let m = choose|m: int| 0 <= m < out.deep_view().len() && out.deep_view()[m]
                        == k;
                    assert(out@[m]@ == k);
                    let j = choose|j: int|
                        0 <= j < s.len() && (#[trigger] out@[m])@ == s[j].0@ && entry_live(
                            s[j].1@,
                            now,
                        );
                    lemma_map_of_index(s, j);
                }
                if live(self@, k, now) {
                    let j = choose|j: int| 0 <= j < s.len() && (#[trigger] s[j]).0@ == k;
                    lemma_map_of_index(s, j);
                    assert(entry_live(s[j].1@, now));
                    let m = choose|m: int| 0 <= m < out@.len() && (#[trigger] out@[m])@ == s[j].0@;
                    assert(out.deep_view()[m] == k);
                }
            }
        }
        out
    }

    /// The key space after storing `rs[0 .. n]` in order, used only by the
    /// snapshot loader before any connection is accepted.
    pub open spec fn loaded(
        m: Map<Seq<u8>, EntryModel>,
        rs: Seq<(Vec<u8>, Vec<u8>, Option<u64>)>,
        n: int,
    ) -> Map<Seq<u8>, EntryModel>
        decreases n,
    {
        if n <= 0 {
            m
        } else {
            Self::loaded(m, rs, n - 1).insert(
                rs[n - 1].0@,
                EntryModel { value: rs[n - 1].1@, expires_at: rs[n - 1].2 },
            )
        }
    }

    /// Stores every record in order; a later record with the same key wins.
    pub fn load_bulk(&mut self, records: &Vec<(Vec<u8>, Vec<u8>, Option<u64>)>)
        requires
            old(self).wf(),
        ensures
            final(self).wf(),
            final(self)@ == Self::loaded(old(self)@, records@, records@.len() as int),
    {
        let ghost m0 = self@;
        let mut i: usize = 0;
        while i < records.len()
            invariant
                self.wf(),
                i <= records@.len(),
                self@ == Self::loaded(m0, records@, i as int),
            decreases records@.len() - i,
        {
            let r = &records[i];
            self.set_entry(clone_bytes(&r.0), clone_bytes(&r.1), r.2);
            i = i + 1;
        }
    }
}

/// Overwrite law: storing `v1` and then `v2` under the same key leaves the
/// key space exactly as if only `v2` had been stored, and a lookup of the
/// key at any time returns `v2`.
pub proof fn lemma_idempotent_overwrite(
    m: Map<Seq<u8>, EntryModel>,
    k: Seq<u8>,
    v1: Seq<u8>,
    v2: Seq<u8>,
    now: u64,
)
    ensures
        m.insert(k, EntryModel { value: v1, expires_at: None }).insert(
            k,
            EntryModel { value: v2, expires_at: None },
        ) =~= m.insert(k, EntryModel { value: v2, expires_at: None }),
        live_value(
            m.insert(k, EntryModel { value: v1, expires_at: None }).insert(
                k,
                EntryModel { value: v2, expires_at: None },
            ),
            k,
            now,
        ) == Some(v2),
{
}

/// Expiry law: after a store with TTL `ttl` at time `now`, a lookup at any
/// time before `now + ttl` returns the value, and a lookup at or after
/// `now + ttl` finds the key absent.
pub proof fn lemma_expiry_monotonic(
    m: Map<Seq<u8>, EntryModel>,
    k: Seq<u8>,
    v: Seq<u8>,
    ttl: u64,
    now: u64,
    before: u64,
    after: u64,
)
    requires
        before < now + ttl,
        after >= now + ttl,
    ensures
        live_value(m.insert(k, EntryModel { value: v, expires_at: expiry_of(Some(ttl), now) }), k, before)
            == Some(v),
        live_value(m.insert(k, EntryModel { value: v, expires_at: expiry_of(Some(ttl), now) }), k, after)
            == None::<Seq<u8>>,
{
}

/// Absence law: a lookup of a key that is not in the key space returns
/// nothing — never an error — at every time.
pub proof fn lemma_absent(m: Map<Seq<u8>, EntryModel>, k: Seq<u8>, now: u64)
    requires
        !m.contains_key(k),
    ensures
        live_value(m, k, now) == None::<Seq<u8>>,
{
}

/// Key-listing law: once a key's TTL has elapsed the key is no longer live,
/// so `keys` omits it, while a different key stored afterwards without an
/// expiry is live, so `keys` includes it.
pub proof fn lemma_keys_exclude_expired(
    m: Map<Seq<u8>, EntryModel>,
    a: Seq<u8>,
    x: Seq<u8>,
    ta: u64,
    b: Seq<u8>,
    y: Seq<u8>,
    now: u64,
)
    requires
        ta <= now,
        a != b,
    ensures
        !live(
            m.insert(a, EntryModel { value: x, expires_at: Some(ta) }).insert(
                b,
                EntryModel { value: y, expires_at: None },
            ),
            a,
            now,
        ),
        live(
            m.insert(a, EntryModel { value: x, expires_at: Some(ta) }).insert(
                b,
                EntryModel { value: y, expires_at: None },
            ),
            b,
            now,
        ),
{
}

} // verus!
