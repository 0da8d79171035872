use vstd::prelude::*;

use crate::assoc::{lemma_u64_assoc_at, lemma_u64_assoc_none, lemma_u64_assoc_push,
    lemma_u64_assoc_remove, lemma_u64_assoc_update, u64_assoc, u64_find, u64_has_key,
    u64_keys_distinct};

verus! {

// The worker-side key/time multi-map: an index over `(key, timestamp)` pairs
// each holding a list of opaque values.  Keys are 64-bit identifiers, values
// opaque byte strings, instants u64 microseconds since the UNIX epoch.  Per
// key the timestamps are kept sorted ascending; an expiration index maps each
// key's earliest timestamp back to the key so that watermark-driven
// expiration can find stale keys without scanning.

/// Timestamps strictly ascending.
pub open spec fn tm_sorted(tm: Seq<(u64, Vec<Vec<u8>>)>) -> bool {
    forall|i: int, j: int| 0 <= i < j < tm.len() ==> tm[i].0 < tm[j].0
}

/// Bucket times strictly ascending.
pub open spec fn exp_sorted(s: Seq<(u64, Vec<u64>)>) -> bool {
    forall|i: int, j: int| 0 <= i < j < s.len() ==> s[i].0 < s[j].0
}

/// No key twice within one bucket.
pub open spec fn exp_buckets_distinct(s: Seq<(u64, Vec<u64>)>) -> bool {
    forall|b: int, i: int, j: int|
        0 <= b < s.len() && 0 <= i < j < s[b].1@.len() ==> s[b].1@[i] != s[b].1@[j]
}

/// Key `k` is registered under instant `t` in the expiration index.
pub open spec fn exp_reg(s: Seq<(u64, Vec<u64>)>, t: u64, k: u64) -> bool {
    exists|i: int| 0 <= i < s.len() && s[i].0 == t && s[i].1@.contains(k)
}

/// The list `vs` with its first element equal to `v` dropped, if any.
pub open spec fn remove_first_match(vs: Seq<Vec<u8>>, v: Seq<u8>) -> Seq<Vec<u8>>
    decreases vs.len(),
{
    if vs.len() == 0 {
        vs
    } else if vs[0]@ == v {
        vs.drop_first()
    } else {
        seq![vs[0]] + remove_first_match(vs.drop_first(), v)
    }
}

pub proof fn lemma_remove_first_match_at(vs: Seq<Vec<u8>>, v: Seq<u8>, i: int)
    requires
        0 <= i < vs.len(),
        vs[i]@ == v,
        forall|j: int| 0 <= j < i ==> vs[j]@ != v,
    ensures
        remove_first_match(vs, v) =~= vs.remove(i),
    decreases i,
{
    if i == 0 {
        assert(vs.remove(0) =~= vs.drop_first());
    } else {
        assert(vs.drop_first()[i - 1] == vs[i]);
        assert(forall|j: int| 0 <= j < i - 1 ==> vs.drop_first()[j] == vs[j + 1]);
        lemma_remove_first_match_at(vs.drop_first(), v, i - 1);
        assert(remove_first_match(vs, v) =~= seq![vs[0]] + vs.drop_first().remove(i - 1));
    }
}

pub proof fn lemma_remove_first_match_absent(vs: Seq<Vec<u8>>, v: Seq<u8>)
    requires
        forall|j: int| 0 <= j < vs.len() ==> vs[j]@ != v,
    ensures
        remove_first_match(vs, v) =~= vs,
    decreases vs.len(),
{
    if vs.len() > 0 {
        assert(forall|j: int| 0 <= j < vs.len() - 1 ==> vs.drop_first()[j] == vs[j + 1]);
        lemma_remove_first_match_absent(vs.drop_first(), v);
        assert(remove_first_match(vs, v) =~= seq![vs[0]] + vs.drop_first());
    }
}

/// Byte-string equality.
pub fn bytes_eq(a: &Vec<u8>, b: &Vec<u8>) -> (r: bool)
    ensures
        r == (a@ == b@),
{
    if a.len() != b.len() {
        return false;
    }
    let mut i: usize = 0;
    while i < a.len()
        invariant
            i <= a.len(),
            a@.len() == b@.len(),
            forall|j: int| 0 <= j < i ==> a@[j] == b@[j],
        decreases a.len() - i,
    {
        if a[i] != b[i] {
            return false;
        }
        i += 1;
    }
    proof {
        assert(a@ =~= b@);
    }
    true
}

/// Registers `k` under instant `t`, creating the bucket if it is absent.
fn exp_add(exps: &mut Vec<(u64, Vec<u64>)>, t: u64, k: u64)
    requires
        exp_sorted(old(exps)@),
        exp_buckets_distinct(old(exps)@),
    ensures
        exp_sorted(final(exps)@),
        exp_buckets_distinct(final(exps)@),
        forall|t2: u64, k2: u64|
            exp_reg(final(exps)@, t2, k2) <==> exp_reg(old(exps)@, t2, k2) || (t2 == t && k2 == k),
{
    let ghost pre = exps@;
    let mut pos: usize = 0;
    while pos < exps.len() && exps[pos].0 < t
        invariant
            pos <= exps@.len(),
            exps@ == pre,
            forall|j: int| 0 <= j < pos ==> pre[j].0 < t,
        decreases exps@.len() - pos,
    {
        pos += 1;
    }
    if pos < exps.len() && exps[pos].0 == t {
        let mut bucket = exps.remove(pos);
        let ghost b0 = bucket.1@;
        let mut seen = false;
        let mut j: usize = 0;
        while j < bucket.1.len()
            invariant
                j <= b0.len(),
                bucket.1@ == b0,
                seen <==> exists|w: int| 0 <= w < j && b0[w] == k,
            decreases b0.len() - j,
        {
            if bucket.1[j] == k {
                seen = true;
            }
            j += 1;
        }
        if !seen {
            bucket.1.push(k);
        }
        let ghost bnew = bucket;
        exps.insert(pos, bucket);
        proof {
            assert(exps@ =~= pre.update(pos as int, bnew));
            assert(bnew.0 == t);
            if seen {
                assert(bnew.1@ =~= b0);
                assert(exps@ =~= pre);
                let w = choose|w: int| 0 <= w < b0.len() && b0[w] == k;
                assert(pre[pos as int].1@.contains(k));
                assert(exp_reg(pre, t, k));
            } else {
                assert(bnew.1@ =~= b0.push(k));
            }
            assert forall|t2: u64, k2: u64|
                exp_reg(exps@, t2, k2) <==> exp_reg(pre, t2, k2) || (t2 == t && k2 == k) by {
                if exp_reg(exps@, t2, k2) {
                    let i = choose|i: int|
                        0 <= i < exps@.len() && exps@[i].0 == t2 && exps@[i].1@.contains(k2);
                    if i != pos {
                        assert(pre[i].0 == t2 && pre[i].1@.contains(k2));
                    } else {
                        let w = choose|w: int|
                            0 <= w < bnew.1@.len() && bnew.1@[w] == k2;
                        if w < b0.len() {
                            assert(pre[pos as int].1@.contains(k2));
                        }
                    }
                }
                if exp_reg(pre, t2, k2) {
                    let i = choose|i: int|
                        0 <= i < pre.len() && pre[i].0 == t2 && pre[i].1@.contains(k2);
                    if i != pos {
                        assert(exps@[i].0 == t2 && exps@[i].1@.contains(k2));
                    } else {
                        let w = choose|w: int| 0 <= w < b0.len() && b0[w] == k2;
                        assert(bnew.1@[w] == k2);
                        assert(exps@[i].1@.contains(k2));
                    }
                }
                if t2 == t && k2 == k {
                    if !seen {
                        assert(bnew.1@.last() == k);
                        assert(exps@[pos as int].1@.contains(k));
                    }
                }
            }
        }
    } else {
        let mut fresh: Vec<u64> = Vec::new();
        fresh.push(k);
        let ghost pair = (t, fresh);
        exps.insert(pos, (t, fresh));
        proof {
            assert(exps@ =~= pre.insert(pos as int, pair));
            assert(forall|j: int| 0 <= j < pos ==> exps@[j] == pre[j]);
            assert(forall|j: int| pos < j < exps@.len() ==> exps@[j] == pre[j - 1]);
            assert(exps@[pos as int] == pair);
            assert(forall|j: int| pos <= j < pre.len() ==> pre[j].0 > t || pre[j].0 == t);
            assert(forall|j: int| pos <= j < pre.len() ==> pre[j].0 != t);
            assert forall|t2: u64, k2: u64|
                exp_reg(exps@, t2, k2) <==> exp_reg(pre, t2, k2) || (t2 == t && k2 == k) by {
                if exp_reg(exps@, t2, k2) {
                    let i = choose|i: int|
                        0 <= i < exps@.len() && exps@[i].0 == t2 && exps@[i].1@.contains(k2);
                    if i < pos {
                        assert(pre[i].0 == t2 && pre[i].1@.contains(k2));
                    } else if i > pos {
                        assert(pre[i - 1].0 == t2 && pre[i - 1].1@.contains(k2));
                    } else {
                        assert(pair.1@ =~= seq![k]);
                    }
                }
                if exp_reg(pre, t2, k2) {
                    let i = choose|i: int|
                        0 <= i < pre.len() && pre[i].0 == t2 && pre[i].1@.contains(k2);
                    if i < pos {
                        assert(exps@[i].0 == t2 && exps@[i].1@.contains(k2));
                    } else {
                        assert(exps@[i + 1].0 == t2 && exps@[i + 1].1@.contains(k2));
                    }
                }
                if t2 == t && k2 == k {
                    assert(exps@[pos as int].1@[0] == k);
                    assert(exps@[pos as int].1@.contains(k));
                }
            }
        }
    }
}

/// Unregisters `k` from the bucket at instant `t`, dropping the bucket when
/// it empties.
fn exp_remove(exps: &mut Vec<(u64, Vec<u64>)>, t: u64, k: u64)
    requires
        exp_sorted(old(exps)@),
        exp_buckets_distinct(old(exps)@),
    ensures
        exp_sorted(final(exps)@),
        exp_buckets_distinct(final(exps)@),
        forall|t2: u64, k2: u64|
            exp_reg(final(exps)@, t2, k2) <==> exp_reg(old(exps)@, t2, k2) && !(t2 == t && k2
                == k),
{
    let ghost pre = exps@;
    match u64_find(exps, t) {
        None => {
            proof {
                assert forall|t2: u64, k2: u64|
                    exp_reg(exps@, t2, k2) <==> exp_reg(pre, t2, k2) && !(t2 == t && k2 == k) by {
                    if exp_reg(pre, t, k) {
                        let i = choose|i: int|
                            0 <= i < pre.len() && pre[i].0 == t && pre[i].1@.contains(k);
                        assert(u64_has_key(pre, t));
                    }
                }
            }
        },
        Some(i) => {
            let mut bucket = exps.remove(i);
            let ghost b0 = bucket.1@;
            let mut found: Option<usize> = None;
            let mut j: usize = 0;
            while j < bucket.1.len()
                invariant
                    j <= b0.len(),
                    bucket.1@ == b0,
                    match found {
                        Some(w) => w < j && b0[w as int] == k,
                        None => forall|w: int| 0 <= w < j ==> b0[w] != k,
                    },
            decreases b0.len() - j,
            {
                if bucket.1[j] == k && found.is_none() {
                    found = Some(j);
                }
                j += 1;
            }
            match found {
                Some(w) => {
                    bucket.1.remove(w);
                    let ghost bnew = bucket;
                    if bucket.1.len() > 0 {
                        exps.insert(i, bucket);
                        proof {
                            assert(exps@ =~= pre.update(i as int, bnew));
                        }
                    } else {
                        proof {
                            assert(exps@ =~= pre.remove(i as int));
                        }
                    }
                    proof {
                        assert(bnew.1@ =~= b0.remove(w as int));
                        assert(forall|x: int| 0 <= x < w ==> bnew.1@[x] == b0[x]);
                        assert(forall|x: int|
                            w <= x < bnew.1@.len() ==> bnew.1@[x] == b0[x + 1]);
                        assert forall|t2: u64, k2: u64|
                            exp_reg(exps@, t2, k2) <==> exp_reg(pre, t2, k2) && !(t2 == t && k2
                                == k) by {
                            if exp_reg(exps@, t2, k2) {
                                let b = choose|b: int|
                                    0 <= b < exps@.len() && exps@[b].0 == t2
                                        && exps@[b].1@.contains(k2);
                                if bnew.1@.len() > 0 {
                                    if b != i {
                                        assert(pre[b].0 == t2 && pre[b].1@.contains(k2));
                                    } else {
                                        let x = choose|x: int|
                                            0 <= x < bnew.1@.len() && bnew.1@[x] == k2;
                                        if x < w {
                                            assert(b0[x] == k2);
                                        } else {
                                            assert(b0[x + 1] == k2);
                                        }
                                        assert(pre[b].1@.contains(k2));
                                        assert(k2 != k) by {
                                            if k2 == k {
                                                if x < w {
                                                    assert(b0[x] != b0[w as int]);
                                                } else {
                                                    assert(b0[w as int] != b0[x + 1]);
                                                }
                                            }
                                        }
                                    }
                                } else {
                                    let bi = if b < i { b } else { b + 1 };
                                    assert(pre[bi].0 == t2 && pre[bi].1@.contains(k2));
                                }
                            }
                            if exp_reg(pre, t2, k2) && !(t2 == t && k2 == k) {
                                let b = choose|b: int|
                                    0 <= b < pre.len() && pre[b].0 == t2 && pre[b].1@.contains(
                                        k2,
                                    );
                                if b != i {
                                    if bnew.1@.len() > 0 {
                                        assert(exps@[b].0 == t2 && exps@[b].1@.contains(k2));
                                    } else {
                                        let bo = if b < i { b } else { b - 1 };
                                        assert(exps@[bo].0 == t2 && exps@[bo].1@.contains(k2));
                                    }
                                } else {
                                    assert(t2 == t);
                                    assert(k2 != k);
                                    let x = choose|x: int| 0 <= x < b0.len() && b0[x] == k2;
                                    assert(x != w);
                                    if x < w {
                                        assert(bnew.1@[x] == k2);
                                    } else {
                                        assert(bnew.1@[x - 1] == k2);
                                    }
                                    assert(bnew.1@.len() > 0);
                                    assert(exps@[i as int].0 == t2);
                                    assert(exps@[i as int].1@.contains(k2));
                                }
                            }
                        }
                    }
                },
                None => {
                    let ghost bsame = bucket;
                    exps.insert(i, bucket);
                    proof {
                        assert(bsame.1@ == b0);
                        assert(exps@ =~= pre.update(i as int, bsame));
                        assert(exps@ =~= pre);
                        assert forall|t2: u64, k2: u64|
                            exp_reg(exps@, t2, k2) <==> exp_reg(pre, t2, k2) && !(t2 == t && k2
                                == k) by {
                            if exp_reg(pre, t, k) {
                                let b = choose|b: int|
                                    0 <= b < pre.len() && pre[b].0 == t && pre[b].1@.contains(k);
                                assert(b == i);
                                let x = choose|x: int| 0 <= x < b0.len() && b0[x] == k;
                            }
                        }
                    }
                },
            }
        },
    }
}

/// Witnesses that `tm1` is `tm0` with `val` recorded at instant `t`:
/// appended to the bucket at `t` when one exists, and otherwise placed as a
/// new singleton bucket at the sorted position.
pub open spec fn tm_inserted(
    tm0: Seq<(u64, Vec<Vec<u8>>)>,
    tm1: Seq<(u64, Vec<Vec<u8>>)>,
    t: u64,
    val: Vec<u8>,
) -> bool {
    if u64_has_key(tm0, t) {
        exists|i: int|
            0 <= i < tm0.len() && #[trigger] tm0[i].0 == t && tm1.len() == tm0.len() && tm1[i].0
                == t && tm1[i].1@ == tm0[i].1@.push(val) && (forall|j: int|
                0 <= j < tm0.len() && j != i ==> tm1[j] == tm0[j])
    } else {
        exists|p: int|
            0 <= p <= tm0.len() && (forall|j: int| 0 <= j < p ==> (#[trigger] tm0[j]).0 < t) && (
            forall|j: int| p <= j < tm0.len() ==> (#[trigger] tm0[j]).0 > t) && tm1.len()
                == tm0.len() + 1 && #[trigger] tm1[p].0 == t && tm1[p].1@ =~= seq![val] && (
            forall|j: int| 0 <= j < p ==> tm1[j] == tm0[j]) && (forall|j: int|
                p < j < tm1.len() ==> tm1[j] == tm0[j - 1])
    }
}

/// The worker-side cache: per-key time-ordered value lists plus the
/// earliest-timestamp expiration index.
pub struct KeyTimeMultiMapCache {
    /// Per key, the buckets `(timestamp, values)` sorted by ascending
    /// timestamp; keys are unique and every present key has at least one
    /// bucket.
    pub values: Vec<(u64, Vec<(u64, Vec<Vec<u8>>)>)>,
    /// Buckets `(timestamp, keys)` sorted by ascending timestamp.  A key is
    /// registered exactly under its earliest timestamp.
    pub expirations: Vec<(u64, Vec<u64>)>,
}

impl KeyTimeMultiMapCache {
    /// The timestamp buckets of `k`, if the key is present.
    pub open spec fn spec_get(self, k: u64) -> Option<Vec<(u64, Vec<Vec<u8>>)>> {
        u64_assoc(self.values@, k)
    }

    pub open spec fn spec_has(self, k: u64) -> bool {
        u64_has_key(self.values@, k)
    }

    /// Earliest timestamp present for `k` (the key must be present).
    pub open spec fn min_time(self, k: u64) -> u64 {
        self.spec_get(k)->Some_0@[0].0
    }

    /// Latest timestamp present for `k` (the key must be present).
    pub open spec fn max_time(self, k: u64) -> u64 {
        let tm = self.spec_get(k)->Some_0@;
        tm[tm.len() - 1].0
    }

    /// Key `k` is registered under instant `t` in the expiration index.
    pub open spec fn registered(self, t: u64, k: u64) -> bool {
        exp_reg(self.expirations@, t, k)
    }

    /// The cache invariant.  Keys are unique, each key's buckets are sorted
    /// and nonempty, the expiration index is sorted with duplicate-free
    /// buckets, every registration points at a present key's earliest
    /// timestamp, and every present key is registered under its earliest
    /// timestamp.  Together the last two say: a key is registered exactly
    /// under its earliest timestamp.
    pub open spec fn wf(self) -> bool {
        &&& u64_keys_distinct(self.values@)
        &&& (forall|i: int|
            0 <= i < self.values@.len() ==> tm_sorted((#[trigger] self.values@[i]).1@)
                && self.values@[i].1@.len() > 0)
        &&& exp_sorted(self.expirations@)
        &&& exp_buckets_distinct(self.expirations@)
        &&& (forall|t: u64, k: u64|
            #[trigger] exp_reg(self.expirations@, t, k) ==> self.spec_has(k) && self.min_time(k)
                == t)
        &&& (forall|i: int|
            0 <= i < self.values@.len() ==> exp_reg(
                self.expirations@,
                (#[trigger] self.values@[i]).1@[0].0,
                self.values@[i].0,
            ))
    }

    /// An empty cache.
    pub fn new() -> (r: KeyTimeMultiMapCache)
        ensures
            r.wf(),
            r.values@.len() == 0,
            r.expirations@.len() == 0,
    {
        KeyTimeMultiMapCache { values: Vec::new(), expirations: Vec::new() }
    }

    /// Records `value` for `key` at instant `timestamp`.  A first value for
    /// the key registers it for expiration at `timestamp`; a value earlier
    /// than everything on record moves the key's registration down to
    /// `timestamp`; any other value leaves the registration alone.
    #[verifier::rlimit(100)]
    pub fn insert(&mut self, timestamp: u64, key: u64, value: Vec<u8>)
        requires
            old(self).wf(),
        ensures
            final(self).wf(),
            forall|k2: u64| final(self).spec_has(k2) <==> old(self).spec_has(k2) || k2 == key,
            forall|k2: u64|
                k2 != key ==> final(self).spec_get(k2) == old(self).spec_get(k2),
            match (old(self).spec_get(key), final(self).spec_get(key)) {
                (None, Some(v)) => v@.len() == 1 && v@[0].0 == timestamp && v@[0].1@ == seq![
                    value,
                ],
                (Some(tm0), Some(v)) => tm_inserted(tm0@, v@, timestamp, value),
                _ => false,
            },
    {
        let ghost pre_values = self.values@;
        let ghost pre_exps = self.expirations@;
        match u64_find(&self.values, key) {
            None => {
                let mut vals: Vec<Vec<u8>> = Vec::new();
                vals.push(value);
                let mut tm: Vec<(u64, Vec<Vec<u8>>)> = Vec::new();
                tm.push((timestamp, vals));
                let ghost pair = (key, tm);
                self.values.push((key, tm));
                exp_add(&mut self.expirations, timestamp, key);
                proof {
                    lemma_u64_assoc_none(pre_values, key);
                    assert(self.values@ =~= pre_values.push(pair));
                    assert forall|k2: u64| #![auto]
                        final(self).spec_has(k2) <==> old(self).spec_has(k2) || k2 == key by {
                        if u64_has_key(self.values@, k2) {
                            let w = choose|w: int|
                                0 <= w < self.values@.len() && self.values@[w].0 == k2;
                            if w < pre_values.len() {
                                assert(pre_values[w].0 == k2);
                            }
                        }
                        if u64_has_key(pre_values, k2) {
                            let w = choose|w: int|
                                0 <= w < pre_values.len() && pre_values[w].0 == k2;
                            assert(self.values@[w].0 == k2);
                        }
                        if k2 == key {
                            assert(self.values@.last().0 == key);
                        }
                    }
                    assert forall|k2: u64|
                        k2 != key implies final(self).spec_get(k2) == old(self).spec_get(k2) by {
                        lemma_u64_assoc_push(pre_values, pair, k2);
                        lemma_u64_assoc_none(pre_values, k2);
                    }
                    lemma_u64_assoc_push(pre_values, pair, key);
                    assert(final(self).spec_get(key) == Some(pair.1));
                    assert(pair.1@[0].1@ =~= seq![value]);
                    assert forall|t2: u64, k2: u64|
                        #[trigger] exp_reg(self.expirations@, t2, k2) implies self.spec_has(k2)
                        && self.min_time(k2) == t2 by {
                        if !(t2 == timestamp && k2 == key) {
                            assert(exp_reg(pre_exps, t2, k2));
                            assert(u64_has_key(pre_values, k2));
                            assert(k2 != key);
                        }
                    }
                    assert forall|i: int|
                        0 <= i < self.values@.len() implies exp_reg(
                        self.expirations@,
                        (#[trigger] self.values@[i]).1@[0].0,
                        self.values@[i].0,
                    ) by {
                        if i < pre_values.len() {
                            assert(self.values@[i] == pre_values[i]);
                            assert(exp_reg(pre_exps, pre_values[i].1@[0].0, pre_values[i].0));
                        } else {
                            assert(self.values@[i] == pair);
                        }
                    }
                }
            },
            Some(i) => {
                proof {
                    lemma_u64_assoc_at(pre_values, key, i as int);
                }
                let mut entry = self.values.remove(i);
                let ghost tm0 = entry.1@;
                let earliest = entry.1[0].0;
                if timestamp < earliest {
                    let mut vals: Vec<Vec<u8>> = Vec::new();
                    vals.push(value);
                    entry.1.insert(0, (timestamp, vals));
                    let ghost enew = entry;
                    self.values.insert(i, entry);
                    exp_remove(&mut self.expirations, earliest, key);
                    exp_add(&mut self.expirations, timestamp, key);
                    proof {
                        assert(self.values@ =~= pre_values.update(i as int, enew));
                        assert(enew.1@ =~= tm0.insert(0, enew.1@[0]));
                        assert(enew.1@[0].0 == timestamp);
                        assert(enew.1@[0].1@ =~= seq![value]);
                        assert(forall|j: int| 0 < j < enew.1@.len() ==> enew.1@[j] == tm0[j - 1]);
                        assert(tm_inserted(tm0, enew.1@, timestamp, value)) by {
                            if u64_has_key(tm0, timestamp) {
                                let w = choose|w: int|
                                    0 <= w < tm0.len() && tm0[w].0 == timestamp;
                                assert(tm0[0].0 <= tm0[w].0);
                                assert(false);
                            }
                            assert(0 <= 0 <= tm0.len());
                            assert(enew.1@[0].0 == timestamp && enew.1@[0].1@ =~= seq![value]);
                        }
                        assert forall|k2: u64|
                            k2 != key implies final(self).spec_get(k2) == u64_assoc(
                            pre_values,
                            k2,
                        ) by {
                            lemma_u64_assoc_update(pre_values, i as int, enew, k2);
                        }
                        lemma_u64_assoc_update(pre_values, i as int, enew, key);
                        assert forall|k2: u64| #![auto]
                            final(self).spec_has(k2) <==> u64_has_key(pre_values, k2) || k2
                            == key by {
                            lemma_u64_assoc_update(pre_values, i as int, enew, key);
                            if k2 == key {
                                assert(self.values@[i as int].0 == key);
                            }
                        }
                        // the expiration index moved the key from `earliest`
                        // down to `timestamp`
                        assert forall|t2: u64, k2: u64|
                            #[trigger] exp_reg(self.expirations@, t2, k2) implies self.spec_has(
                            k2,
                        ) && self.min_time(k2) == t2 by {
                            if t2 == timestamp && k2 == key {
                                assert(self.min_time(key) == timestamp);
                            } else {
                                assert(exp_reg(pre_exps, t2, k2) && !(t2 == earliest && k2
                                    == key));
                                assert(u64_has_key(pre_values, k2));
                                if k2 == key {
                                    assert(t2 == earliest);
                                    assert(false);
                                }
                                lemma_u64_assoc_update(pre_values, i as int, enew, k2);
                            }
                        }
                        assert forall|w: int|
                            0 <= w < self.values@.len() implies exp_reg(
                            self.expirations@,
                            (#[trigger] self.values@[w]).1@[0].0,
                            self.values@[w].0,
                        ) by {
                            if w != i {
                                assert(self.values@[w] == pre_values[w]);
                                assert(exp_reg(pre_exps, pre_values[w].1@[0].0, pre_values[w].0));
                                assert(pre_values[w].0 != key);
                                assert(u64_has_key(pre_values, pre_values[w].0)) by {
                                    assert(pre_values[w].0 == pre_values[w].0);
                                }
                            } else {
                                assert(self.values@[w].1@[0].0 == timestamp);
                            }
                        }
                    }
                } else {
                    let mut pos: usize = 0;
                    while pos < entry.1.len() && entry.1[pos].0 < timestamp
                        invariant
                            pos <= tm0.len(),
                            entry.1@ == tm0,
                            forall|j: int| 0 <= j < pos ==> (#[trigger] tm0[j]).0 < timestamp,
                        decreases tm0.len() - pos,
                    {
                        pos += 1;
                    }
                    if pos < entry.1.len() && entry.1[pos].0 == timestamp {
                        let mut bucket = entry.1.remove(pos);
                        bucket.1.push(value);
                        let ghost bnew = bucket;
                        entry.1.insert(pos, bucket);
                        proof {
                            assert(entry.1@ =~= tm0.update(pos as int, bnew));
                        }
                    } else {
                        let mut vals: Vec<Vec<u8>> = Vec::new();
                        vals.push(value);
                        entry.1.insert(pos, (timestamp, vals));
                        proof {
                            assert(forall|j: int|
                                pos <= j < tm0.len() ==> (#[trigger] tm0[j]).0 > timestamp);
                        }
                    }
                    let ghost enew = entry;
                    self.values.insert(i, entry);
                    proof {
                        assert(self.values@ =~= pre_values.update(i as int, enew));
                        assert(tm_inserted(tm0, enew.1@, timestamp, value)) by {
                            if u64_has_key(tm0, timestamp) {
                                let w = choose|w: int|
                                    0 <= w < tm0.len() && tm0[w].0 == timestamp;
                                assert(forall|j: int|
                                    0 <= j < w ==> tm0[j].0 < tm0[w].0);
                                assert(w >= pos);
                                assert(pos < tm0.len());
                                assert(tm0[pos as int].0 >= timestamp);
                                assert(w <= pos);
                                assert(enew.1@[w].1@ == tm0[w].1@.push(value));
                            } else {
                                assert(!(pos < tm0.len() && tm0[pos as int].0 == timestamp));
                                assert(forall|j: int|
                                    pos <= j < tm0.len() ==> (#[trigger] tm0[j]).0 > timestamp);
                                assert(enew.1@[pos as int].0 == timestamp);
                                assert(enew.1@[pos as int].1@ =~= seq![value]);
                            }
                        }
                        assert(enew.1@[0].0 == tm0[0].0);
                        assert(tm_sorted(enew.1@));
                        assert forall|k2: u64|
                            k2 != key implies final(self).spec_get(k2) == u64_assoc(
                            pre_values,
                            k2,
                        ) by {
                            lemma_u64_assoc_update(pre_values, i as int, enew, k2);
                        }
                        lemma_u64_assoc_update(pre_values, i as int, enew, key);
                        assert forall|k2: u64| #![auto]
                            final(self).spec_has(k2) <==> u64_has_key(pre_values, k2) || k2
                            == key by {
                            lemma_u64_assoc_update(pre_values, i as int, enew, key);
                            if k2 == key {
                                assert(self.values@[i as int].0 == key);
                            }
                        }
                        assert forall|t2: u64, k2: u64|
                            #[trigger] exp_reg(self.expirations@, t2, k2) implies self.spec_has(
                            k2,
                        ) && self.min_time(k2) == t2 by {
                            assert(exp_reg(pre_exps, t2, k2));
                            lemma_u64_assoc_update(pre_values, i as int, enew, k2);
                        }
                        assert forall|w: int|
                            0 <= w < self.values@.len() implies exp_reg(
                            self.expirations@,
                            (#[trigger] self.values@[w]).1@[0].0,
                            self.values@[w].0,
                        ) by {
                            if w != i {
                                assert(self.values@[w] == pre_values[w]);
                            } else {
                                assert(self.values@[i as int].1@[0].0 == pre_values[i as int].1@[0].0);
                            }
                            assert(exp_reg(pre_exps, pre_values[w].1@[0].0, pre_values[w].0));
                        }
                    }
                }
            },
        }
    }
}

/// Copies a byte string.
pub fn clone_bytes(v: &Vec<u8>) -> (r: Vec<u8>)
    ensures
        r@ == v@,
{
    let mut r: Vec<u8> = Vec::new();
    let mut i: usize = 0;
    while i < v.len()
        invariant
            i <= v.len(),
            r@ =~= v@.take(i as int),
        decreases v.len() - i,
    {
        r.push(v[i]);
        proof {
            assert(r@ =~= v@.take(i + 1));
        }
        i += 1;
    }
    proof {
        assert(v@.take(v@.len() as int) =~= v@);
    }
    r
}

/// Values stored in `[lo, hi)`, in ascending timestamp order, each bucket's
/// values in insertion order.
pub open spec fn tm_range_vals(tm: Seq<(u64, Vec<Vec<u8>>)>, lo: u64, hi: u64) -> Seq<Seq<u8>>
    decreases tm.len(),
{
    if tm.len() == 0 {
        seq![]
    } else {
        let rest = tm_range_vals(tm.drop_last(), lo, hi);
        if lo <= tm.last().0 < hi {
            rest + tm.last().1.deep_view()
        } else {
            rest
        }
    }
}

/// All `(timestamp, value)` pairs, ascending by timestamp, insertion order
/// within a timestamp.
pub open spec fn tm_flat(tm: Seq<(u64, Vec<Vec<u8>>)>) -> Seq<(u64, Seq<u8>)>
    decreases tm.len(),
{
    if tm.len() == 0 {
        seq![]
    } else {
        tm_flat(tm.drop_last()) + tm.last().1.deep_view().map_values(
            |v: Seq<u8>| (tm.last().0, v),
        )
    }
}

impl KeyTimeMultiMapCache {
    /// Forgets the key entirely: its buckets and every expiration
    /// registration it holds.  Emptied expiration buckets are left in place.
    pub fn remove_key(&mut self, key: u64)
        requires
            old(self).wf(),
        ensures
            final(self).wf(),
            !final(self).spec_has(key),
            forall|k2: u64|
                final(self).spec_has(k2) <==> old(self).spec_has(k2) && k2 != key,
            forall|k2: u64|
                k2 != key ==> final(self).spec_get(k2) == old(self).spec_get(k2),
            forall|t2: u64, k2: u64|
                exp_reg(final(self).expirations@, t2, k2) <==> exp_reg(
                    old(self).expirations@,
                    t2,
                    k2,
                ) && k2 != key,
    {
        let ghost pre_values = self.values@;
        let ghost pre_exps = self.expirations@;
        match u64_find(&self.values, key) {
            Some(i) => {
                self.values.remove(i);
                proof {
                    lemma_u64_assoc_remove(pre_values, i as int, key);
                    assert forall|k2: u64|
                        k2 != key implies u64_assoc(self.values@, k2) == u64_assoc(
                        pre_values,
                        k2,
                    ) by {
                        lemma_u64_assoc_remove(pre_values, i as int, k2);
                    }
                    lemma_u64_assoc_none(self.values@, key);
                    assert(!u64_has_key(self.values@, key)) by {
                        lemma_u64_assoc_remove(pre_values, i as int, key);
                    }
                }
            },
            None => {
                proof {
                    lemma_u64_assoc_none(pre_values, key);
                }
            },
        }
        proof {
            assert forall|k2: u64|
                u64_has_key(self.values@, k2) <==> u64_has_key(old(self).values@, k2) && k2
                    != key by {
                lemma_u64_assoc_none(self.values@, k2);
                lemma_u64_assoc_none(old(self).values@, k2);
                if k2 == key {
                    if u64_has_key(self.values@, key) {
                        lemma_u64_assoc_none(self.values@, key);
                    }
                }
            }
        }
        let ghost mid_values = self.values@;
        let mut b: usize = 0;
        while b < self.expirations.len()
            invariant
                old(self).wf(),
                b <= self.expirations@.len(),
                self.values@ == mid_values,
                u64_keys_distinct(self.values@),
                !u64_has_key(self.values@, key),
                forall|k2: u64|
                    k2 != key ==> u64_assoc(self.values@, k2) == u64_assoc(
                        old(self).values@,
                        k2,
                    ),
                forall|k2: u64|
                    u64_has_key(self.values@, k2) <==> u64_has_key(old(self).values@, k2) && k2
                        != key,
                forall|i: int|
                    0 <= i < self.values@.len() ==> tm_sorted((#[trigger] self.values@[i]).1@)
                        && self.values@[i].1@.len() > 0,
                self.expirations@.len() == pre_exps.len(),
                forall|j: int|
                    0 <= j < pre_exps.len() ==> (#[trigger] self.expirations@[j]).0
                        == pre_exps[j].0,
                forall|j: int|
                    b <= j < pre_exps.len() ==> (#[trigger] self.expirations@[j]) == pre_exps[j],
                forall|j: int, k2: u64|
                    0 <= j < b ==> ((#[trigger] self.expirations@[j].1@.contains(k2))
                        <==> pre_exps[j].1@.contains(k2) && k2 != key),
                forall|j: int, x: int, y: int|
                    0 <= j < pre_exps.len() && 0 <= x < y < self.expirations@[j].1@.len() ==> (
                    #[trigger] self.expirations@[j].1@[x]) != (
                    #[trigger] self.expirations@[j].1@[y]),
            decreases self.expirations@.len() - b,
        {
            let ghost cur = self.expirations@;
            let mut bucket = self.expirations.remove(b);
            let ghost b0 = bucket.1@;
            let mut found: Option<usize> = None;
            let mut j: usize = 0;
            while j < bucket.1.len()
                invariant
                    j <= b0.len(),
                    bucket.1@ == b0,
                    match found {
                        Some(w) => w < j && b0[w as int] == key,
                        None => forall|w: int| 0 <= w < j ==> b0[w] != key,
                    },
                decreases b0.len() - j,
            {
                if bucket.1[j] == key && found.is_none() {
                    found = Some(j);
                }
                j += 1;
            }
            if let Some(w) = found {
                bucket.1.remove(w);
                proof {
                    assert(bucket.1@ =~= b0.remove(w as int));
                }
            }
            let ghost bnew = bucket;
            self.expirations.insert(b, bucket);
            proof {
                assert(self.expirations@ =~= cur.update(b as int, bnew));
                assert forall|k2: u64|
                    (#[trigger] self.expirations@[b as int].1@.contains(k2)) <==> pre_exps[b as int].1@.contains(
                    k2,
                ) && k2 != key by {
                    match found {
                        Some(w) => {
                            if bnew.1@.contains(k2) {
                                let x = choose|x: int|
                                    0 <= x < bnew.1@.len() && bnew.1@[x] == k2;
                                if x < w {
                                    assert(b0[x] == k2);
                                } else {
                                    assert(b0[x + 1] == k2);
                                }
                                if k2 == key {
                                    if x < w {
                                        assert(b0[x] != b0[w as int]);
                                    } else {
                                        assert(b0[w as int] != b0[x + 1]);
                                    }
                                }
                            }
                            if b0.contains(k2) && k2 != key {
                                let x = choose|x: int| 0 <= x < b0.len() && b0[x] == k2;
                                if x < w {
                                    assert(bnew.1@[x] == k2);
                                } else {
                                    assert(x != w);
                                    assert(bnew.1@[x - 1] == k2);
                                }
                            }
                        },
                        None => {
                            assert(bnew.1@ == b0);
                            if b0.contains(key) {
                                let x = choose|x: int| 0 <= x < b0.len() && b0[x] == key;
                            }
                        },
                    }
                }
            }
            b += 1;
        }
        proof {
            assert forall|t2: u64, k2: u64|
                exp_reg(self.expirations@, t2, k2) <==> exp_reg(pre_exps, t2, k2) && k2
                != key by {
                if exp_reg(self.expirations@, t2, k2) {
                    let i = choose|i: int|
                        0 <= i < self.expirations@.len() && self.expirations@[i].0 == t2
                            && self.expirations@[i].1@.contains(k2);
                    assert(pre_exps[i].1@.contains(k2) && k2 != key);
                    assert(pre_exps[i].0 == t2);
                }
                if exp_reg(pre_exps, t2, k2) && k2 != key {
                    let i = choose|i: int|
                        0 <= i < pre_exps.len() && pre_exps[i].0 == t2 && pre_exps[i].1@.contains(
                            k2,
                        );
                    assert(self.expirations@[i].1@.contains(k2));
                    assert(self.expirations@[i].0 == t2);
                }
            }
            assert forall|t2: u64, k2: u64|
                #[trigger] exp_reg(self.expirations@, t2, k2) implies u64_has_key(
                self.values@,
                k2,
            ) && u64_assoc(self.values@, k2)->Some_0@[0].0 == t2 by {
                assert(exp_reg(pre_exps, t2, k2) && k2 != key);
                assert(u64_has_key(pre_values, k2));
                assert(u64_assoc(self.values@, k2) == u64_assoc(pre_values, k2));
                lemma_u64_assoc_none(self.values@, k2);
                lemma_u64_assoc_none(pre_values, k2);
            }
            assert forall|i: int|
                0 <= i < self.values@.len() implies exp_reg(
                self.expirations@,
                (#[trigger] self.values@[i]).1@[0].0,
                self.values@[i].0,
            ) by {
                let k2 = self.values@[i].0;
                assert(u64_has_key(self.values@, k2));
                assert(k2 != key);
                assert(u64_assoc(self.values@, k2) == u64_assoc(pre_values, k2));
                assert(u64_has_key(pre_values, k2)) by {
                    lemma_u64_assoc_none(self.values@, k2);
                    lemma_u64_assoc_none(pre_values, k2);
                }
                let w = choose|w: int| 0 <= w < pre_values.len() && pre_values[w].0 == k2;
                assert(exp_reg(pre_exps, pre_values[w].1@[0].0, k2));
                assert(forall|x: int| 0 <= x < w ==> pre_values[x].0 != k2 || x == w);
                assert(u64_assoc(pre_values, k2) == Some(pre_values[w].1)) by {
                    assert(forall|x: int| 0 <= x < w ==> pre_values[x].0 != k2);
                    lemma_u64_assoc_at(pre_values, k2, w);
                }
            }
        }
    }

    /// Drops the first value equal to `value` recorded for `key` at
    /// `timestamp`.  An absent key or timestamp is a no-op, and an emptied
    /// value list stays in place, so the key's earliest timestamp — and with
    /// it the expiration index — never moves.
    pub fn remove_value(&mut self, timestamp: u64, key: u64, value: &Vec<u8>)
        requires
            old(self).wf(),
        ensures
            final(self).wf(),
            final(self).expirations@ == old(self).expirations@,
            forall|k2: u64| final(self).spec_has(k2) <==> old(self).spec_has(k2),
            forall|k2: u64|
                k2 != key ==> final(self).spec_get(k2) == old(self).spec_get(k2),
            match (old(self).spec_get(key), final(self).spec_get(key)) {
                (None, None) => true,
                (Some(tm0), Some(v)) => {
                    if u64_has_key(tm0@, timestamp) {
                        exists|i: int|
                            0 <= i < tm0@.len() && #[trigger] tm0@[i].0 == timestamp && v@.len()
                                == tm0@.len() && v@[i].0 == timestamp && v@[i].1@
                                == remove_first_match(tm0@[i].1@, value@) && (forall|j: int|
                                0 <= j < tm0@.len() && j != i ==> v@[j] == tm0@[j])
                    } else {
                        v == tm0
                    }
                },
                _ => false,
            },
    {
        let ghost pre_values = self.values@;
        match u64_find(&self.values, key) {
            None => {
                proof {
                    lemma_u64_assoc_none(pre_values, key);
                }
            },
            Some(i) => {
                proof {
                    lemma_u64_assoc_at(pre_values, key, i as int);
                }
                let mut entry = self.values.remove(i);
                let ghost tm0 = entry.1@;
                match u64_find(&entry.1, timestamp) {
                    None => {
                        proof {
                            lemma_u64_assoc_none(tm0, timestamp);
                        }
                        let ghost esame = entry;
                        self.values.insert(i, entry);
                        proof {
                            assert(self.values@ =~= pre_values.update(i as int, esame));
                            assert(self.values@ =~= pre_values);
                        }
                    },
                    Some(bi) => {
                        let mut bucket = entry.1.remove(bi);
                        let ghost vs0 = bucket.1@;
                        let mut found: Option<usize> = None;
                        let mut j: usize = 0;
                        while j < bucket.1.len()
                            invariant
                                j <= vs0.len(),
                                bucket.1@ == vs0,
                                match found {
                                    Some(w) => w < j && vs0[w as int]@ == value@ && (forall|
                                        x: int,
                                    |
                                        0 <= x < w ==> vs0[x]@ != value@),
                                    None => forall|w: int| 0 <= w < j ==> vs0[w]@ != value@,
                                },
                            decreases vs0.len() - j,
                        {
                            if found.is_none() && bytes_eq(&bucket.1[j], value) {
                                found = Some(j);
                            }
                            j += 1;
                        }
                        match found {
                            Some(w) => {
                                bucket.1.remove(w);
                                proof {
                                    lemma_remove_first_match_at(vs0, value@, w as int);
                                    assert(bucket.1@ =~= vs0.remove(w as int));
                                }
                            },
                            None => {
                                proof {
                                    lemma_remove_first_match_absent(vs0, value@);
                                }
                            },
                        }
                        let ghost bnew = bucket;
                        entry.1.insert(bi, bucket);
                        proof {
                            assert(entry.1@ =~= tm0.update(bi as int, bnew));
                        }
                        let ghost enew = entry;
                        self.values.insert(i, entry);
                        proof {
                            assert(self.values@ =~= pre_values.update(i as int, enew));
                            assert forall|k2: u64|
                                k2 != key implies u64_assoc(self.values@, k2) == u64_assoc(
                                pre_values,
                                k2,
                            ) by {
                                lemma_u64_assoc_update(pre_values, i as int, enew, k2);
                            }
                            lemma_u64_assoc_update(pre_values, i as int, enew, key);
                            assert(enew.1@[bi as int].0 == timestamp);
                            assert(enew.1@[bi as int].1@ == remove_first_match(
                                tm0[bi as int].1@,
                                value@,
                            ));
                            assert(enew.1@[0].0 == tm0[0].0);
                            assert(tm_sorted(enew.1@));
                            assert forall|w2: int|
                                0 <= w2 < self.values@.len() implies exp_reg(
                                self.expirations@,
                                (#[trigger] self.values@[w2]).1@[0].0,
                                self.values@[w2].0,
                            ) by {
                                assert(self.values@[w2].0 == pre_values[w2].0);
                                assert(self.values@[w2].1@[0].0 == pre_values[w2].1@[0].0);
                                assert(exp_reg(
                                    self.expirations@,
                                    pre_values[w2].1@[0].0,
                                    pre_values[w2].0,
                                ));
                            }
                            assert forall|t2: u64, k2: u64|
                                #[trigger] exp_reg(self.expirations@, t2, k2) implies self.spec_has(
                                k2,
                            ) && self.min_time(k2) == t2 by {
                                lemma_u64_assoc_update(pre_values, i as int, enew, k2);
                            }
                        }
                    },
                }
            },
        }
    }

    /// Values recorded for `key` in the half-open range `[start, end)`, in
    /// ascending timestamp order, each timestamp's values in insertion
    /// order.  Consults the cache alone.
    pub fn get_time_range(&self, key: u64, start: u64, end: u64) -> (r: Vec<Vec<u8>>)
        ensures
            r.deep_view() == match self.spec_get(key) {
                Some(tm) => tm_range_vals(tm@, start, end),
                None => Seq::<Seq<u8>>::empty(),
            },
    {
        let mut r: Vec<Vec<u8>> = Vec::new();
        let i = match u64_find(&self.values, key) {
            None => {
                proof {
                    lemma_u64_assoc_none(self.values@, key);
                    assert(r.deep_view() =~~= Seq::<Seq<u8>>::empty());
                }
                return r;
            },
            Some(i) => i,
        };
        proof {
            lemma_u64_assoc_at(self.values@, key, i as int);
        }
        let entry = &self.values[i];
        let ghost tm = entry.1@;
        let mut b: usize = 0;
        while b < entry.1.len()
            invariant
                b <= tm.len(),
                entry.1@ == tm,
                entry == self.values@[i as int],
                r.deep_view() =~~= tm_range_vals(tm.take(b as int), start, end),
            decreases tm.len() - b,
        {
            proof {
                assert(tm.take(b + 1).drop_last() =~= tm.take(b as int));
                assert(tm.take(b + 1).last() == tm[b as int]);
            }
            let ghost racc = r.deep_view();
            if start <= entry.1[b].0 && entry.1[b].0 < end {
                let bucket = &entry.1[b];
                let mut j: usize = 0;
                while j < bucket.1.len()
                    invariant
                        j <= bucket.1@.len(),
                        bucket == &tm[b as int],
                        r.deep_view() =~~= racc + tm[b as int].1.deep_view().take(j as int),
                    decreases bucket.1@.len() - j,
                {
                    let ghost racc2 = r.deep_view();
                    r.push(clone_bytes(&bucket.1[j]));
                    proof {
                        assert(r.deep_view() =~~= racc2.push(tm[b as int].1@[j as int]@));
                        assert(tm[b as int].1.deep_view()[j as int] == tm[b as int].1@[j as int]@);
                        assert(r.deep_view() =~~= racc + tm[b as int].1.deep_view().take(j + 1));
                    }
                    j += 1;
                }
                proof {
                    let dv = tm[b as int].1.deep_view();
                    assert(dv.take(bucket.1@.len() as int) =~= dv);
                    assert(r.deep_view() =~~= tm_range_vals(tm.take(b + 1), start, end));
                }
            }
            b += 1;
        }
        proof {
            assert(tm.take(tm.len() as int) =~= tm);
        }
        r
    }

    /// All `(timestamp, value)` pairs recorded for `key`, ascending by
    /// timestamp, insertion order within a timestamp; `None` when the key is
    /// absent.
    pub fn get_all_values_with_timestamps(&self, key: u64) -> (r: Option<Vec<(u64, Vec<u8>)>>)
        ensures
            match (self.spec_get(key), r) {
                (None, None) => true,
                (Some(tm), Some(v)) => v.deep_view() == tm_flat(tm@),
                _ => false,
            },
    {
        let i = match u64_find(&self.values, key) {
            None => {
                proof {
                    lemma_u64_assoc_none(self.values@, key);
                }
                return None;
            },
            Some(i) => i,
        };
        proof {
            lemma_u64_assoc_at(self.values@, key, i as int);
        }
        let entry = &self.values[i];
        let ghost tm = entry.1@;
        let mut r: Vec<(u64, Vec<u8>)> = Vec::new();
        let mut b: usize = 0;
        while b < entry.1.len()
            invariant
                b <= tm.len(),
                entry.1@ == tm,
                entry == self.values@[i as int],
                r.deep_view() =~~= tm_flat(tm.take(b as int)),
            decreases tm.len() - b,
        {
            proof {
                assert(tm.take(b + 1).drop_last() =~= tm.take(b as int));
                assert(tm.take(b + 1).last() == tm[b as int]);
            }
            let ghost racc = r.deep_view();
            let bucket = &entry.1[b];
            let t = bucket.0;
            let mut j: usize = 0;
            while j < bucket.1.len()
                invariant
                    j <= bucket.1@.len(),
                    bucket == &tm[b as int],
                    t == tm[b as int].0,
                    r.deep_view() =~~= racc + tm[b as int].1.deep_view().map_values(
                        |v: Seq<u8>| (tm[b as int].0, v),
                    ).take(j as int),
                decreases bucket.1@.len() - j,
            {
                let ghost racc2 = r.deep_view();
                r.push((t, clone_bytes(&bucket.1[j])));
                proof {
                    assert(r.deep_view() =~~= racc2.push((t, tm[b as int].1@[j as int]@)));
                    assert(tm[b as int].1.deep_view().map_values(
                        |v: Seq<u8>| (tm[b as int].0, v),
                    )[j as int] == (t, tm[b as int].1@[j as int]@));
                    assert(r.deep_view() =~~= racc + tm[b as int].1.deep_view().map_values(
                        |v: Seq<u8>| (tm[b as int].0, v),
                    ).take(j + 1));
                }
                j += 1;
            }
            proof {
                let m = tm[b as int].1.deep_view().map_values(|v: Seq<u8>| (tm[b as int].0, v));
                assert(m.take(m.len() as int) =~= m);
                assert(bucket.1@.len() == m.len());
                assert(r.deep_view() =~~= tm_flat(tm.take(b + 1)));
            }
            b += 1;
        }
        proof {
            assert(tm.take(tm.len() as int) =~= tm);
        }
        Some(r)
    }
}

/// Builds the expiration index afresh from a value table: each key becomes
/// registered under its earliest timestamp, and under nothing else.
pub fn rebuild_expirations(values: &Vec<(u64, Vec<(u64, Vec<Vec<u8>>)>)>) -> (r: Vec<(
    u64,
    Vec<u64>,
)>)
    ensures
        exp_sorted(r@),
        exp_buckets_distinct(r@),
        forall|t2: u64, k2: u64|
            #[trigger] exp_reg(r@, t2, k2) <==> exists|j: int|
                0 <= j < values@.len() && (#[trigger] values@[j]).0 == k2 && values@[j].1@.len()
                    > 0 && values@[j].1@[0].0 == t2,
{
    let mut r: Vec<(u64, Vec<u64>)> = Vec::new();
    let mut j: usize = 0;
    while j < values.len()
        invariant
            j <= values@.len(),
            exp_sorted(r@),
            exp_buckets_distinct(r@),
            forall|t2: u64, k2: u64|
                #[trigger] exp_reg(r@, t2, k2) <==> exists|w: int|
                    0 <= w < j && (#[trigger] values@[w]).0 == k2 && values@[w].1@.len() > 0
                        && values@[w].1@[0].0 == t2,
        decreases values@.len() - j,
    {
        if values[j].1.len() > 0 {
            exp_add(&mut r, values[j].1[0].0, values[j].0);
        }
        j += 1;
    }
    r
}

/// Witnesses that `tm1` is `tm0` with every bucket before instant `t`
/// dropped: a prefix of buckets below `t` is gone and the rest is intact.
pub open spec fn tm_expired_to(
    tm0: Seq<(u64, Vec<Vec<u8>>)>,
    tm1: Seq<(u64, Vec<Vec<u8>>)>,
    t: u64,
) -> bool {
    exists|p: int|
        0 <= p <= tm0.len() && (forall|j: int| 0 <= j < p ==> (#[trigger] tm0[j]).0 < t) && (
        forall|j: int| p <= j < tm0.len() ==> (#[trigger] tm0[j]).0 >= t) && tm1 == tm0.skip(p)
}


/// How a cache relates to its former self after expiring everything before
/// `t`: untouched keys keep their buckets, split keys keep the buckets from
/// `t` on, keys whose latest bucket lies at or before `t` are gone.
pub open spec fn expired_state(
    pre: KeyTimeMultiMapCache,
    post: KeyTimeMultiMapCache,
    t: u64,
) -> bool {
    &&& (forall|k2: u64| #[trigger]
        post.spec_has(k2) <==> pre.spec_has(k2) && (pre.min_time(k2) >= t || pre.max_time(k2)
            > t))
    &&& (forall|k2: u64|
        pre.spec_has(k2) && pre.min_time(k2) >= t ==> #[trigger] post.spec_get(k2)
            == pre.spec_get(k2))
    &&& (forall|k2: u64|
        pre.spec_has(k2) && pre.min_time(k2) < t && pre.max_time(k2) > t ==> (match (
            pre.spec_get(k2),
            #[trigger] post.spec_get(k2),
        ) {
            (Some(tm0), Some(v)) => tm_expired_to(tm0@, v@, t),
            _ => false,
        }))
    &&& (forall|k2: u64|
        pre.spec_has(k2) && pre.min_time(k2) < t && pre.max_time(k2) <= t ==> !(#[trigger]
        post.spec_has(k2)))
}

/// Disposition of one pre-expiration entry after expiring before `t`.
pub open spec fn entry_disposed(
    e: (u64, Vec<(u64, Vec<Vec<u8>>)>),
    ret: Seq<(u64, Vec<(u64, Vec<Vec<u8>>)>)>,
    exp: Seq<u64>,
    t: u64,
) -> bool {
    &&& (e.1@[0].0 < t <==> exp.contains(e.0))
    &&& if e.1@[0].0 >= t {
        u64_assoc(ret, e.0) == Some(e.1)
    } else if e.1@[e.1@.len() - 1].0 > t {
        match u64_assoc(ret, e.0) {
            Some(v) => tm_expired_to(e.1@, v@, t),
            None => false,
        }
    } else {
        !u64_has_key(ret, e.0)
    }
}

impl KeyTimeMultiMapCache {
    /// Expires everything strictly before `t`: every key whose earliest
    /// timestamp lies before `t` is returned; such a key keeps only its
    /// buckets at or after `t`, or disappears when its latest bucket is at
    /// or before `t`.  The expiration index is rebuilt for the surviving
    /// keys.
    pub fn expire_entries_before(&mut self, t: u64) -> (r: Vec<u64>)
        requires
            old(self).wf(),
        ensures
            final(self).wf(),
            forall|x: int, y: int| 0 <= x < y < r@.len() ==> r@[x] != r@[y],
            forall|k2: u64|
                #[trigger] r@.contains(k2) <==> old(self).spec_has(k2) && old(self).min_time(k2)
                    < t,
            forall|k2: u64| #[trigger]
                final(self).spec_has(k2) <==> old(self).spec_has(k2) && (old(self).min_time(k2)
                    >= t || old(self).max_time(k2) > t),
            forall|k2: u64|
                old(self).spec_has(k2) && old(self).min_time(k2) >= t ==> final(self).spec_get(
                    k2,
                ) == old(self).spec_get(k2),
            forall|k2: u64|
                old(self).spec_has(k2) && old(self).min_time(k2) < t && old(self).max_time(k2)
                    > t ==> match (old(self).spec_get(k2), final(self).spec_get(k2)) {
                    (Some(tm0), Some(v)) => tm_expired_to(tm0@, v@, t),
                    _ => false,
                },
            forall|k2: u64|
                old(self).spec_has(k2) && old(self).min_time(k2) < t && old(self).max_time(k2)
                    <= t ==> !final(self).spec_has(k2),
            expired_state(*old(self), *final(self), t),
    {
        let ghost pre_values = self.values@;
        let mut expired: Vec<u64> = Vec::new();
        let mut retained: Vec<(u64, Vec<(u64, Vec<Vec<u8>>)>)> = Vec::new();
        let ghost mut d: int = 0int;
        while self.values.len() > 0
            invariant
                old(self).wf(),
                pre_values == old(self).values@,
                0 <= d <= pre_values.len(),
                self.values@ == pre_values.skip(d),
                u64_keys_distinct(retained@),
                forall|i: int|
                    0 <= i < retained@.len() ==> tm_sorted((#[trigger] retained@[i]).1@)
                        && retained@[i].1@.len() > 0,
                forall|j: int|
                    0 <= j < d ==> entry_disposed(#[trigger] pre_values[j], retained@, expired@, t),
                forall|k2: u64|
                    #[trigger] u64_has_key(retained@, k2) ==> exists|j: int|
                        0 <= j < d && (#[trigger] pre_values[j]).0 == k2,
                forall|k2: u64|
                    #[trigger] expired@.contains(k2) ==> exists|j: int|
                        0 <= j < d && (#[trigger] pre_values[j]).0 == k2 && pre_values[j].1@[0].0
                            < t,
                forall|x: int, y: int| 0 <= x < y < expired@.len() ==> expired@[x] != expired@[y],
            decreases self.values@.len(),
        {
            let ghost ret0 = retained@;
            let ghost exp0 = expired@;
            let e = self.values.remove(0);
            let ghost epair = e;
            proof {
                assert(pre_values.skip(d).drop_first() =~= pre_values.skip(d + 1));
                assert(pre_values.skip(d)[0] == pre_values[d]);
                assert(u64_keys_distinct(pre_values));
                assert(tm_sorted(epair.1@) && epair.1@.len() > 0);
                assert(forall|j: int| 0 <= j < d ==> pre_values[j].0 != epair.0);
            }
            let min0 = e.1[0].0;
            if min0 >= t {
                retained.push(e);
                proof {
                    assert(retained@ =~= ret0.push(epair));
                    assert forall|k2: u64| #![auto]
                        u64_has_key(retained@, k2) implies u64_has_key(ret0, k2) || k2
                        == epair.0 by {
                        let w = choose|w: int|
                            0 <= w < retained@.len() && retained@[w].0 == k2;
                        if w < ret0.len() {
                            assert(ret0[w].0 == k2);
                        }
                    }
                    assert forall|j: int|
                        0 <= j <= d implies entry_disposed(
                        #[trigger] pre_values[j],
                        retained@,
                        expired@,
                        t,
                    ) by {
                        lemma_u64_assoc_push(ret0, epair, pre_values[j].0);
                        lemma_u64_assoc_none(ret0, pre_values[j].0);
                        if j < d {
                            assert(entry_disposed(pre_values[j], ret0, exp0, t));
                            assert(pre_values[j].0 != epair.0);
                        } else {
                            assert(!u64_has_key(ret0, epair.0));
                            assert(u64_assoc(retained@, epair.0) == Some(epair.1));
                        }
                    }
                    assert(u64_keys_distinct(retained@)) by {
                        if u64_has_key(ret0, epair.0) {
                            let w = choose|w: int|
                                0 <= w < ret0.len() && ret0[w].0 == epair.0;
                            let j = choose|j: int|
                                0 <= j < d && pre_values[j].0 == epair.0;
                        }
                    }
                }
            } else {
                expired.push(e.0);
                proof {
                    assert(expired@ =~= exp0.push(epair.0));
                    assert forall|x: int, y: int|
                        0 <= x < y < expired@.len() implies expired@[x] != expired@[y] by {
                        if y == expired@.len() - 1 {
                            if expired@[x] == epair.0 {
                                assert(exp0.contains(epair.0));
                            }
                        }
                    }
                }
                let last = e.1[e.1.len() - 1].0;
                if last > t {
                    let mut e2 = e;
                    let ghost tm0 = epair.1@;
                    let ghost mut p: int = 0int;
                    while e2.1.len() > 0 && e2.1[0].0 < t
                        invariant
                            0 <= p <= tm0.len(),
                            e2.0 == epair.0,
                            e2.1@ == tm0.skip(p),
                            tm_sorted(tm0),
                            forall|j: int| 0 <= j < p ==> (#[trigger] tm0[j]).0 < t,
                            tm0.len() > 0,
                            tm0[tm0.len() - 1].0 > t,
                        decreases e2.1@.len(),
                    {
                        e2.1.remove(0);
                        proof {
                            assert(tm0.skip(p).drop_first() =~= tm0.skip(p + 1));
                            assert(tm0.skip(p)[0] == tm0[p]);
                            p = p + 1;
                        }
                    }
                    proof {
                        assert(e2.1@.len() > 0) by {
                            if p == tm0.len() {
                                assert(tm0[tm0.len() - 1].0 < t);
                            }
                        }
                        assert(forall|j: int|
                            p <= j < tm0.len() ==> (#[trigger] tm0[j]).0 >= tm0.skip(p)[0].0)
                            by {
                            assert(forall|j: int|
                                p < j < tm0.len() ==> tm0[j].0 > tm0[p].0);
                        }
                        assert(forall|j: int| p <= j < tm0.len() ==> (#[trigger] tm0[j]).0 >= t);
                        assert(tm_expired_to(tm0, e2.1@, t));
                        assert(tm_sorted(e2.1@));
                    }
                    let ghost e2pair = e2;
                    retained.push(e2);
                    proof {
                        assert(retained@ =~= ret0.push(e2pair));
                        assert forall|k2: u64| #![auto]
                            u64_has_key(retained@, k2) implies u64_has_key(ret0, k2) || k2
                            == epair.0 by {
                            let w = choose|w: int|
                                0 <= w < retained@.len() && retained@[w].0 == k2;
                            if w < ret0.len() {
                                assert(ret0[w].0 == k2);
                            }
                        }
                        assert(u64_keys_distinct(retained@)) by {
                            if u64_has_key(ret0, epair.0) {
                                let w = choose|w: int|
                                    0 <= w < ret0.len() && ret0[w].0 == epair.0;
                            }
                        }
                        assert forall|j: int|
                            0 <= j <= d implies entry_disposed(
                            #[trigger] pre_values[j],
                            retained@,
                            expired@,
                            t,
                        ) by {
                            lemma_u64_assoc_push(ret0, e2pair, pre_values[j].0);
                            lemma_u64_assoc_none(ret0, pre_values[j].0);
                            if j < d {
                                assert(entry_disposed(pre_values[j], ret0, exp0, t));
                                assert(pre_values[j].0 != epair.0);
                                assert(exp0.contains(pre_values[j].0) <==> expired@.contains(
                                    pre_values[j].0,
                                )) by {
                                    if expired@.contains(pre_values[j].0) {
                                        let w = choose|w: int|
                                            0 <= w < expired@.len() && expired@[w]
                                                == pre_values[j].0;
                                        if w < exp0.len() {
                                            assert(exp0[w] == pre_values[j].0);
                                        }
                                    }
                                    if exp0.contains(pre_values[j].0) {
                                        let w = choose|w: int|
                                            0 <= w < exp0.len() && exp0[w] == pre_values[j].0;
                                        assert(expired@[w] == pre_values[j].0);
                                    }
                                }
                            } else {
                                assert(!u64_has_key(ret0, epair.0));
                                assert(u64_assoc(retained@, epair.0) == Some(e2pair.1));
                                assert(expired@.last() == epair.0);
                                assert(expired@.contains(epair.0));
                            }
                        }
                    }
                } else {
                    proof {
                        assert forall|j: int|
                            0 <= j <= d implies entry_disposed(
                            #[trigger] pre_values[j],
                            retained@,
                            expired@,
                            t,
                        ) by {
                            if j < d {
                                assert(entry_disposed(pre_values[j], ret0, exp0, t));
                                assert(pre_values[j].0 != epair.0);
                                assert(exp0.contains(pre_values[j].0) <==> expired@.contains(
                                    pre_values[j].0,
                                )) by {
                                    if expired@.contains(pre_values[j].0) {
                                        let w = choose|w: int|
                                            0 <= w < expired@.len() && expired@[w]
                                                == pre_values[j].0;
                                        if w < exp0.len() {
                                            assert(exp0[w] == pre_values[j].0);
                                        }
                                    }
                                    if exp0.contains(pre_values[j].0) {
                                        let w = choose|w: int|
                                            0 <= w < exp0.len() && exp0[w] == pre_values[j].0;
                                        assert(expired@[w] == pre_values[j].0);
                                    }
                                }
                            } else {
                                assert(forall|j2: int|
                                    0 <= j2 < epair.1@.len() ==> (#[trigger] epair.1@[j2]).0
                                        <= epair.1@[epair.1@.len() - 1].0);
                                assert(!u64_has_key(retained@, epair.0));
                                assert(expired@.last() == epair.0);
                                assert(expired@.contains(epair.0));
                            }
                        }
                    }
                }
            }
            proof {
                assert(pre_values[d] == epair);
                assert forall|k2: u64|
                    #[trigger] u64_has_key(retained@, k2) implies exists|j: int|
                    0 <= j <= d && (#[trigger] pre_values[j]).0 == k2 by {
                    let w = choose|w: int|
                        0 <= w < retained@.len() && retained@[w].0 == k2;
                    if w < ret0.len() {
                        assert(ret0[w].0 == k2);
                        assert(u64_has_key(ret0, k2));
                        let j = choose|j: int|
                            0 <= j < d && (#[trigger] pre_values[j]).0 == k2;
                    } else {
                        assert(retained@[w].0 == epair.0);
                        assert(pre_values[d].0 == k2);
                    }
                }
                assert forall|k2: u64|
                    #[trigger] expired@.contains(k2) implies exists|j: int|
                    0 <= j <= d && (#[trigger] pre_values[j]).0 == k2 && pre_values[j].1@[0].0
                        < t by {
                    let w = choose|w: int| 0 <= w < expired@.len() && expired@[w] == k2;
                    if w < exp0.len() {
                        assert(exp0[w] == k2);
                        assert(exp0.contains(k2));
                        let j = choose|j: int|
                            0 <= j < d && (#[trigger] pre_values[j]).0 == k2
                                && pre_values[j].1@[0].0 < t;
                    } else {
                        assert(expired@[w] == epair.0);
                        assert(pre_values[d].0 == k2);
                    }
                }
                d = d + 1;
            }
        }
        proof {
            assert(d == pre_values.len());
            assert(self.values@.len() == 0);
        }
        self.values = retained;
        self.expirations = rebuild_expirations(&self.values);
        proof {
            assert forall|k2: u64|
                #[trigger] u64_has_key(self.values@, k2) implies u64_has_key(pre_values, k2) by {
                let j = choose|j: int|
                    0 <= j < pre_values.len() && pre_values[j].0 == k2;
            }
            assert forall|k2: u64|
                u64_has_key(pre_values, k2) implies (#[trigger] u64_assoc(pre_values, k2))
                    is Some && entry_disposed(
                (k2, u64_assoc(pre_values, k2)->Some_0),
                self.values@,
                expired@,
                t,
            ) by {
                let j = choose|j: int| 0 <= j < pre_values.len() && pre_values[j].0 == k2;
                assert(forall|x: int| 0 <= x < j ==> pre_values[x].0 != k2);
                lemma_u64_assoc_at(pre_values, k2, j);
                assert(entry_disposed(pre_values[j], self.values@, expired@, t));
                assert(pre_values[j].0 == k2);
                assert(pre_values[j].1 == u64_assoc(pre_values, k2)->Some_0);
                assert(pre_values[j] == (k2, u64_assoc(pre_values, k2)->Some_0));
            }
            assert forall|k2: u64|
                !u64_has_key(pre_values, k2) implies !u64_has_key(self.values@, k2)
                    && !expired@.contains(k2) by {
                if u64_has_key(self.values@, k2) {
                    let j = choose|j: int|
                        0 <= j < pre_values.len() && (#[trigger] pre_values[j]).0 == k2;
                }
                if expired@.contains(k2) {
                    let j = choose|j: int|
                        0 <= j < pre_values.len() && (#[trigger] pre_values[j]).0 == k2
                            && pre_values[j].1@[0].0 < t;
                }
            }
            // the invariant of the rebuilt index
            assert forall|t2: u64, k2: u64|
                #[trigger] exp_reg(self.expirations@, t2, k2) implies self.spec_has(k2)
                && self.min_time(k2) == t2 by {
                let j = choose|j: int|
                    0 <= j < self.values@.len() && (#[trigger] self.values@[j]).0 == k2
                        && self.values@[j].1@.len() > 0 && self.values@[j].1@[0].0 == t2;
                assert(forall|x: int| 0 <= x < j ==> self.values@[x].0 != k2);
                lemma_u64_assoc_at(self.values@, k2, j);
            }
            assert forall|i: int|
                0 <= i < self.values@.len() implies exp_reg(
                self.expirations@,
                (#[trigger] self.values@[i]).1@[0].0,
                self.values@[i].0,
            ) by {}
        }
        proof {
            assert forall|k2: u64|
                u64_has_key(pre_values, k2) implies (#[trigger] u64_assoc(pre_values, k2))
                    is Some by {
                lemma_u64_assoc_none(pre_values, k2);
            }
            assert forall|k2: u64|
                u64_has_key(self.values@, k2) implies (#[trigger] u64_assoc(self.values@, k2))
                    is Some by {
                lemma_u64_assoc_none(self.values@, k2);
            }
            assert forall|k2: u64|
                !u64_has_key(self.values@, k2) implies (#[trigger] u64_assoc(self.values@, k2))
                    is None by {
                lemma_u64_assoc_none(self.values@, k2);
            }
        }
        expired
    }
}

/// Abstract timestamp buckets of one key: instants and value byte strings.
pub type ReplayBuckets = Seq<(u64, Seq<Seq<u8>>)>;

/// Abstract reading of one key's buckets.
pub open spec fn abs_tm(tm: Seq<(u64, Vec<Vec<u8>>)>) -> ReplayBuckets {
    tm.map_values(|e: (u64, Vec<Vec<u8>>)| (e.0, e.1.deep_view()))
}

/// The buckets outside the half-open range `[lo, hi)`.
pub open spec fn atm_outside(tm: ReplayBuckets, lo: u64, hi: u64) -> ReplayBuckets
    decreases tm.len(),
{
    if tm.len() == 0 {
        tm
    } else {
        let rest = atm_outside(tm.drop_last(), lo, hi);
        if lo <= tm.last().0 < hi {
            rest
        } else {
            rest.push(tm.last())
        }
    }
}


impl KeyTimeMultiMapCache {
    /// Clears, for `key`, every bucket in the half-open range `[start,
    /// end)`.  A key left without buckets is dropped; a key whose earliest
    /// bucket was cleared is re-registered in the expiration index under its
    /// new earliest timestamp.
    #[verifier::rlimit(100)]
    pub fn clear_time_range(&mut self, key: u64, start: u64, end: u64)
        requires
            old(self).wf(),
        ensures
            final(self).wf(),
            forall|k2: u64|
                k2 != key ==> final(self).spec_get(k2) == old(self).spec_get(k2),
            forall|k2: u64|
                k2 != key ==> (final(self).spec_has(k2) <==> old(self).spec_has(k2)),
            match (old(self).spec_get(key), final(self).spec_get(key)) {
                (None, None) => true,
                (Some(tm0), None) => atm_outside(abs_tm(tm0@), start, end).len() == 0,
                (Some(tm0), Some(v)) => abs_tm(v@) == atm_outside(abs_tm(tm0@), start, end)
                    && abs_tm(v@).len() > 0,
                _ => false,
            },
    {
        let ghost pre_values = self.values@;
        let ghost pre_exps = self.expirations@;
        let idx = match u64_find(&self.values, key) {
            None => {
                proof {
                    lemma_u64_assoc_none(pre_values, key);
                }
                return ;
            },
            Some(idx) => idx,
        };
        proof {
            lemma_u64_assoc_at(pre_values, key, idx as int);
        }
        let mut entry = self.values.remove(idx);
        let old_min = entry.1[0].0;
        let ghost tm0 = entry.1@;
        let ghost absm0 = abs_tm(tm0);
        let mut kept: Vec<(u64, Vec<Vec<u8>>)> = Vec::new();
        let ghost mut d: int = 0int;
        while entry.1.len() > 0
            invariant
                0 <= d <= tm0.len(),
                entry.1@ == tm0.skip(d),
                tm_sorted(tm0),
                absm0 == abs_tm(tm0),
                abs_tm(kept@) =~~= atm_outside(abs_tm(tm0.take(d)), start, end),
                tm_sorted(kept@),
                forall|x: int|
                    0 <= x < kept@.len() ==> exists|ox: int|
                        0 <= ox < d && (#[trigger] kept@[x]).0 == tm0[ox].0,
                kept@.len() > 0 ==> kept@[0].0 >= tm0[0].0,
            decreases entry.1@.len(),
        {
            let bkt = entry.1.remove(0);
            let ghost bpair = bkt;
            proof {
                assert(tm0.skip(d).drop_first() =~= tm0.skip(d + 1));
                assert(tm0.skip(d)[0] == tm0[d]);
                assert(tm0.take(d + 1).drop_last() =~= tm0.take(d));
                assert(tm0.take(d + 1).last() == tm0[d]);
                assert(abs_tm(tm0.take(d + 1)).drop_last() =~~= abs_tm(tm0.take(d)));
                assert(abs_tm(tm0.take(d + 1)).last() == (tm0[d].0, tm0[d].1.deep_view()));
            }
            if start <= bkt.0 && bkt.0 < end {
                proof {
                    d = d + 1;
                }
            } else {
                let ghost kept0 = kept@;
                kept.push(bkt);
                proof {
                    assert(kept@ =~= kept0.push(bpair));
                    assert(abs_tm(kept@) =~~= abs_tm(kept0).push(
                        (bpair.0, bpair.1.deep_view()),
                    ));
                    assert forall|x: int, y: int|
                        0 <= x < y < kept@.len() implies kept@[x].0 < kept@[y].0 by {
                        if y == kept@.len() - 1 && x < y {
                            let ox = choose|ox: int|
                                0 <= ox < d && (#[trigger] kept0[x]).0 == tm0[ox].0;
                            assert(tm0[ox].0 < tm0[d].0);
                        }
                    }
                    d = d + 1;
                }
            }
        }
        proof {
            assert(d == tm0.len());
            assert(tm0.take(d) =~= tm0);
            assert(abs_tm(kept@) =~~= atm_outside(absm0, start, end));
        }
        if kept.len() == 0 {
            exp_remove(&mut self.expirations, old_min, key);
            proof {
                assert(self.values@ =~= pre_values.remove(idx as int));
                lemma_u64_assoc_remove(pre_values, idx as int, key);
                assert forall|k2: u64|
                    k2 != key implies u64_assoc(self.values@, k2) == u64_assoc(
                    pre_values,
                    k2,
                ) by {
                    lemma_u64_assoc_remove(pre_values, idx as int, k2);
                }
                assert(u64_keys_distinct(self.values@)) by {
                    assert forall|x: int, y: int|
                        0 <= x < y < self.values@.len() implies self.values@[x].0
                        != self.values@[y].0 by {
                        let px = if x < idx { x } else { x + 1 };
                        let py = if y < idx { y } else { y + 1 };
                        assert(self.values@[x] == pre_values[px]);
                        assert(self.values@[y] == pre_values[py]);
                    }
                }
                assert forall|t2: u64, k2: u64|
                    #[trigger] exp_reg(self.expirations@, t2, k2) implies self.spec_has(k2)
                    && self.min_time(k2) == t2 by {
                    assert(exp_reg(pre_exps, t2, k2) && !(t2 == old_min && k2 == key));
                    if k2 == key {
                        assert(t2 == old_min);
                        assert(false);
                    }
                    lemma_u64_assoc_remove(pre_values, idx as int, k2);
                }
                assert forall|w: int|
                    0 <= w < self.values@.len() implies exp_reg(
                    self.expirations@,
                    (#[trigger] self.values@[w]).1@[0].0,
                    self.values@[w].0,
                ) by {
                    let pw = if w < idx { w } else { w + 1 };
                    assert(self.values@[w] == pre_values[pw]);
                    assert(exp_reg(pre_exps, pre_values[pw].1@[0].0, pre_values[pw].0));
                    assert(pre_values[pw].0 != key);
                }
            }
        } else {
            let new_min = kept[0].0;
            let ghost enew = (key, kept);
            self.values.insert(idx, (key, kept));
            if new_min != old_min {
                exp_remove(&mut self.expirations, old_min, key);
                exp_add(&mut self.expirations, new_min, key);
            }
            proof {
                assert(self.values@ =~= pre_values.update(idx as int, enew));
                assert forall|k2: u64|
                    k2 != key implies u64_assoc(self.values@, k2) == u64_assoc(
                    pre_values,
                    k2,
                ) by {
                    lemma_u64_assoc_update(pre_values, idx as int, enew, k2);
                }
                lemma_u64_assoc_update(pre_values, idx as int, enew, key);
                assert(self.values@[idx as int].1@[0].0 == new_min);
                assert forall|t2: u64, k2: u64|
                    #[trigger] exp_reg(self.expirations@, t2, k2) implies self.spec_has(k2)
                    && self.min_time(k2) == t2 by {
                    lemma_u64_assoc_update(pre_values, idx as int, enew, k2);
                    if k2 == key {
                        if new_min != old_min {
                            assert(t2 == new_min || (exp_reg(pre_exps, t2, k2) && !(t2
                                == old_min)));
                            if t2 != new_min {
                                assert(t2 == old_min);
                                assert(false);
                            }
                        } else {
                            assert(exp_reg(pre_exps, t2, k2));
                            assert(t2 == old_min);
                        }
                    } else {
                        assert(exp_reg(pre_exps, t2, k2));
                    }
                }
                assert forall|w: int|
                    0 <= w < self.values@.len() implies exp_reg(
                    self.expirations@,
                    (#[trigger] self.values@[w]).1@[0].0,
                    self.values@[w].0,
                ) by {
                    if w != idx {
                        assert(self.values@[w] == pre_values[w]);
                        assert(exp_reg(pre_exps, pre_values[w].1@[0].0, pre_values[w].0));
                        assert(pre_values[w].0 != key);
                    } else {
                        if new_min == old_min {
                            assert(exp_reg(pre_exps, old_min, key));
                        }
                    }
                }
            }
        }
    }
}

impl Default for KeyTimeMultiMapCache {
    /// An empty cache.
    fn default() -> (r: KeyTimeMultiMapCache)
        ensures
            r.wf(),
            r.values@.len() == 0,
            r.expirations@.len() == 0,
    {
        KeyTimeMultiMapCache::new()
    }
}

} // verus!
