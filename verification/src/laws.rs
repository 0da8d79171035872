use vstd::prelude::*;

use crate::assoc::lemma_u64_assoc_at;
use crate::checkpoint_state::{count_complete, lemma_count_complete_bounds, CheckpointState};
use crate::cache::{expired_state, tm_range_vals, tm_sorted, KeyTimeMultiMapCache};
use crate::operator::OperatorState;
use crate::watermark::lemma_min_max_permutation;

verus! {

// The laws the library states of itself, beyond the contracts of the
// individual operations.

pub proof fn lemma_cache_entry_props(c: KeyTimeMultiMapCache, k: u64)
    requires
        c.wf(),
        c.spec_has(k),
    ensures
        c.spec_get(k) is Some,
        tm_sorted(c.spec_get(k)->Some_0@),
        c.spec_get(k)->Some_0@.len() > 0,
        c.spec_get(k)->Some_0@[0].0 == c.min_time(k),
        c.spec_get(k)->Some_0@[c.spec_get(k)->Some_0@.len() - 1].0 == c.max_time(k),
{
    let i = choose|i: int| 0 <= i < c.values@.len() && c.values@[i].0 == k;
    assert(forall|j: int| 0 <= j < i ==> c.values@[j].0 != k);
    lemma_u64_assoc_at(c.values@, k, i);
}

/// Law (cache invariant): a key with entries on record is registered in the
/// expiration index in exactly one bucket — the one at its earliest
/// timestamp — and exactly once within that bucket.
pub proof fn lemma_registered_exactly_once(c: KeyTimeMultiMapCache, k: u64)
    requires
        c.wf(),
        c.spec_has(k),
    ensures
        c.registered(c.min_time(k), k),
        forall|t: u64| #[trigger] c.registered(t, k) ==> t == c.min_time(k),
        forall|b1: int, b2: int|
            0 <= b1 < c.expirations@.len() && 0 <= b2 < c.expirations@.len()
                && c.expirations@[b1].1@.contains(k) && c.expirations@[b2].1@.contains(k) ==> b1
                == b2,
{
    lemma_cache_entry_props(c, k);
    let i = choose|i: int| 0 <= i < c.values@.len() && c.values@[i].0 == k;
    assert(forall|j: int| 0 <= j < i ==> c.values@[j].0 != k);
    lemma_u64_assoc_at(c.values@, k, i);
    assert(crate::cache::exp_reg(c.expirations@, c.values@[i].1@[0].0, c.values@[i].0));
    assert forall|b1: int, b2: int|
        0 <= b1 < c.expirations@.len() && 0 <= b2 < c.expirations@.len()
            && c.expirations@[b1].1@.contains(k) && c.expirations@[b2].1@.contains(k) implies b1
        == b2 by {
        assert(crate::cache::exp_reg(c.expirations@, c.expirations@[b1].0, k));
        assert(crate::cache::exp_reg(c.expirations@, c.expirations@[b2].0, k));
        assert(c.expirations@[b1].0 == c.min_time(k));
        assert(c.expirations@[b2].0 == c.min_time(k));
        if b1 != b2 {
            if b1 < b2 {
                assert(c.expirations@[b1].0 < c.expirations@[b2].0);
            } else {
                assert(c.expirations@[b2].0 < c.expirations@[b1].0);
            }
        }
    }
}

pub proof fn lemma_range_vals_all_ge(tm: Seq<(u64, Vec<Vec<u8>>)>, t: u64)
    requires
        forall|j: int| 0 <= j < tm.len() ==> (#[trigger] tm[j]).0 >= t,
    ensures
        tm_range_vals(tm, 0, t) == Seq::<Seq<u8>>::empty(),
    decreases tm.len(),
{
    if tm.len() > 0 {
        assert(forall|j: int| 0 <= j < tm.len() - 1 ==> tm.drop_last()[j] == tm[j]);
        lemma_range_vals_all_ge(tm.drop_last(), t);
        assert(tm.last() == tm[tm.len() - 1]);
        assert(!(tm.last().0 < t));
    }
}

pub proof fn lemma_range_vals_all_lt(tm: Seq<(u64, Vec<Vec<u8>>)>, t: u64, hi: u64)
    requires
        forall|j: int| 0 <= j < tm.len() ==> (#[trigger] tm[j]).0 < t,
    ensures
        tm_range_vals(tm, t, hi) == Seq::<Seq<u8>>::empty(),
    decreases tm.len(),
{
    if tm.len() > 0 {
        assert(forall|j: int| 0 <= j < tm.len() - 1 ==> tm.drop_last()[j] == tm[j]);
        lemma_range_vals_all_lt(tm.drop_last(), t, hi);
        assert(tm.last() == tm[tm.len() - 1]);
        assert(!(t <= tm.last().0));
    }
}

pub proof fn lemma_range_vals_skip(tm: Seq<(u64, Vec<Vec<u8>>)>, p: int, t: u64, hi: u64)
    requires
        0 <= p <= tm.len(),
        forall|j: int| 0 <= j < p ==> (#[trigger] tm[j]).0 < t,
    ensures
        tm_range_vals(tm.skip(p), t, hi) == tm_range_vals(tm, t, hi),
    decreases tm.len(),
{
    if p == 0 {
        assert(tm.skip(0) =~= tm);
    } else if p == tm.len() {
        assert(tm.skip(p) =~= Seq::<(u64, Vec<Vec<u8>>)>::empty());
        lemma_range_vals_all_lt(tm, t, hi);
    } else {
        assert(forall|j: int| 0 <= j < tm.len() - 1 ==> tm.drop_last()[j] == tm[j]);
        lemma_range_vals_skip(tm.drop_last(), p, t, hi);
        assert(tm.skip(p).drop_last() =~= tm.drop_last().skip(p));
        assert(tm.skip(p).last() == tm.last());
        assert(tm.skip(p).len() > 0);
    }
}

/// Law (expire/range equivalence): after expiring everything before `t`,
/// querying any key below `t` yields nothing, and querying from `t` on
/// yields what it yielded before — for every key except one expired with its
/// latest bucket exactly at `t`, which the expiration drops whole.
pub proof fn lemma_expire_range_equivalence(
    pre: KeyTimeMultiMapCache,
    post: KeyTimeMultiMapCache,
    t: u64,
    k: u64,
    hi: u64,
)
    requires
        pre.wf(),
        post.wf(),
        expired_state(pre, post, t),
        pre.spec_has(k) && pre.min_time(k) < t ==> pre.max_time(k) != t,
    ensures
        (match post.spec_get(k) {
            Some(v) => tm_range_vals(v@, 0, t),
            None => Seq::<Seq<u8>>::empty(),
        }) == Seq::<Seq<u8>>::empty(),
        (match post.spec_get(k) {
            Some(v) => tm_range_vals(v@, t, hi),
            None => Seq::<Seq<u8>>::empty(),
        }) == (match pre.spec_get(k) {
            Some(v) => tm_range_vals(v@, t, hi),
            None => Seq::<Seq<u8>>::empty(),
        }),
{
    if !pre.spec_has(k) {
        assert(!post.spec_has(k));
        crate::assoc::lemma_u64_assoc_none(pre.values@, k);
        crate::assoc::lemma_u64_assoc_none(post.values@, k);
    } else {
        lemma_cache_entry_props(pre, k);
        let tm0 = pre.spec_get(k)->Some_0@;
        if pre.min_time(k) >= t {
            assert(post.spec_get(k) == pre.spec_get(k));
            assert(post.spec_has(k));
            assert forall|j: int| 0 <= j < tm0.len() implies (#[trigger] tm0[j]).0 >= t by {
                if j > 0 {
                    assert(tm0[0].0 < tm0[j].0);
                }
            }
            lemma_range_vals_all_ge(tm0, t);
        } else if pre.max_time(k) > t {
            assert(post.spec_has(k));
            lemma_cache_entry_props(post, k);
            let v = post.spec_get(k)->Some_0@;
            assert(crate::cache::tm_expired_to(tm0, v, t));
            let p = choose|p: int|
                0 <= p <= tm0.len() && (forall|j: int|
                    0 <= j < p ==> (#[trigger] tm0[j]).0 < t) && (forall|j: int|
                    p <= j < tm0.len() ==> (#[trigger] tm0[j]).0 >= t) && v == tm0.skip(p);
            assert forall|j: int| 0 <= j < v.len() implies (#[trigger] v[j]).0 >= t by {
                assert(v[j] == tm0[j + p]);
            }
            lemma_range_vals_all_ge(v, t);
            lemma_range_vals_skip(tm0, p, t, hi);
        } else {
            assert(pre.max_time(k) < t);
            assert(!post.spec_has(k));
            crate::assoc::lemma_u64_assoc_none(post.values@, k);
            assert forall|j: int| 0 <= j < tm0.len() implies (#[trigger] tm0[j]).0 < t by {
                if j < tm0.len() - 1 {
                    assert(tm0[j].0 < tm0[tm0.len() - 1].0);
                }
            }
            lemma_range_vals_all_lt(tm0, t, hi);
        }
    }
}

/// Law (order-independent time bounds): two operators that received the same
/// collections of subtask start and finish instants — in whatever arrival
/// orders — record the same start and finish times.
pub proof fn lemma_time_bounds_order_independent(a: OperatorState, b: OperatorState)
    requires
        a.wf(),
        b.wf(),
        a.subtasks_checkpointed > 0,
        b.subtasks_checkpointed > 0,
        a.start_history@.to_multiset() == b.start_history@.to_multiset(),
        a.finish_history@.to_multiset() == b.finish_history@.to_multiset(),
    ensures
        a.start_time == b.start_time,
        a.finish_time == b.finish_time,
{
    lemma_min_max_permutation(a.start_history@, b.start_history@);
    lemma_min_max_permutation(a.finish_history@, b.finish_history@);
}

/// Law (completion monotonicity): in a well-formed epoch the completion
/// counter is exactly the number of operators whose declared subtasks have
/// all reported, bounded by the operator count, and the epoch is done
/// exactly when every operator has fully reported.  The counter never
/// decreases: see the contract of `CheckpointState::checkpoint_finished`.
pub proof fn lemma_completion_counts_complete(cs: CheckpointState)
    requires
        cs.wf(),
    ensures
        cs.operators_checkpointed == count_complete(cs.operator_state@),
        0 <= cs.operators_checkpointed <= cs.operators,
        cs.operators_checkpointed == cs.operators <==> (forall|i: int|
            0 <= i < cs.operator_state@.len() ==> (#[trigger] cs.operator_state@[i].1).subtasks_checkpointed
                == cs.operator_state@[i].1.subtasks),
{
    lemma_count_complete_bounds(cs.operator_state@);
}

} // verus!
