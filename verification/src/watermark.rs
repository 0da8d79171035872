use vstd::prelude::*;

verus! {

// Subtask completions carry a start instant, a finish instant and an optional
// watermark.  The operator-level record keeps the least start, the greatest
// finish, and the watermark bounds; all three are aggregates of everything the
// subtasks reported, independent of the order in which the reports arrived.

/// Least element of a non-empty sequence of instants.
pub open spec fn seq_min(s: Seq<u64>) -> u64
    recommends
        s.len() > 0,
    decreases s.len(),
{
    if s.len() <= 1 {
        s[0]
    } else {
        let m = seq_min(s.drop_first());
        if s[0] <= m {
            s[0]
        } else {
            m
        }
    }
}

/// Greatest element of a non-empty sequence of instants.
pub open spec fn seq_max(s: Seq<u64>) -> u64
    recommends
        s.len() > 0,
    decreases s.len(),
{
    if s.len() <= 1 {
        s[0]
    } else {
        let m = seq_max(s.drop_first());
        if s[0] >= m {
            s[0]
        } else {
            m
        }
    }
}

pub proof fn lemma_seq_min_properties(s: Seq<u64>)
    requires
        s.len() > 0,
    ensures
        s.contains(seq_min(s)),
        forall|i: int| 0 <= i < s.len() ==> seq_min(s) <= s[i],
    decreases s.len(),
{
    if s.len() > 1 {
        lemma_seq_min_properties(s.drop_first());
        let m = seq_min(s.drop_first());
        let j = choose|j: int| 0 <= j < s.drop_first().len() && s.drop_first()[j] == m;
        assert(s[j + 1] == m);
        assert(forall|i: int| 1 <= i < s.len() ==> s.drop_first()[i - 1] == s[i]);
    }
}

pub proof fn lemma_seq_max_properties(s: Seq<u64>)
    requires
        s.len() > 0,
    ensures
        s.contains(seq_max(s)),
        forall|i: int| 0 <= i < s.len() ==> s[i] <= seq_max(s),
    decreases s.len(),
{
    if s.len() > 1 {
        lemma_seq_max_properties(s.drop_first());
        let m = seq_max(s.drop_first());
        let j = choose|j: int| 0 <= j < s.drop_first().len() && s.drop_first()[j] == m;
        assert(s[j + 1] == m);
        assert(forall|i: int| 1 <= i < s.len() ==> s.drop_first()[i - 1] == s[i]);
    }
}

/// The least and greatest elements are aggregates of the collection alone:
/// two arrival orders of the same reports bound the same instants.
pub proof fn lemma_min_max_permutation(s1: Seq<u64>, s2: Seq<u64>)
    requires
        s1.len() > 0,
        s1.to_multiset() == s2.to_multiset(),
    ensures
        seq_min(s1) == seq_min(s2),
        seq_max(s1) == seq_max(s2),
{
    s1.to_multiset_ensures();
    s2.to_multiset_ensures();
    assert(s2.len() > 0);
    lemma_seq_min_properties(s1);
    lemma_seq_min_properties(s2);
    lemma_seq_max_properties(s1);
    lemma_seq_max_properties(s2);
    assert(s1.to_multiset().count(seq_min(s1)) > 0);
    assert(s2.to_multiset().count(seq_min(s2)) > 0);
    assert(s1.to_multiset().count(seq_max(s1)) > 0);
    assert(s2.to_multiset().count(seq_max(s2)) > 0);
    assert(s2.contains(seq_min(s1)));
    assert(s1.contains(seq_min(s2)));
    assert(s2.contains(seq_max(s1)));
    assert(s1.contains(seq_max(s2)));
    let i1 = choose|i: int| 0 <= i < s2.len() && s2[i] == seq_min(s1);
    let i2 = choose|i: int| 0 <= i < s1.len() && s1[i] == seq_min(s2);
    let j1 = choose|i: int| 0 <= i < s2.len() && s2[i] == seq_max(s1);
    let j2 = choose|i: int| 0 <= i < s1.len() && s1[i] == seq_max(s2);
    assert(seq_min(s2) <= s2[i1]);
    assert(seq_min(s1) <= s1[i2]);
    assert(s2[j1] <= seq_max(s2));
    assert(s1[j2] <= seq_max(s1));
}

pub proof fn lemma_seq_min_push(s: Seq<u64>, x: u64)
    requires
        s.len() > 0,
    ensures
        seq_min(s.push(x)) == if x <= seq_min(s) {
            x
        } else {
            seq_min(s)
        },
    decreases s.len(),
{
    if s.len() == 1 {
        assert(s.push(x).drop_first() =~= seq![x]);
        assert(seq_min(seq![x]) == x);
    } else {
        assert(s.push(x).drop_first() =~= s.drop_first().push(x));
        lemma_seq_min_push(s.drop_first(), x);
    }
}

pub proof fn lemma_seq_max_push(s: Seq<u64>, x: u64)
    requires
        s.len() > 0,
    ensures
        seq_max(s.push(x)) == if x >= seq_max(s) {
            x
        } else {
            seq_max(s)
        },
    decreases s.len(),
{
    if s.len() == 1 {
        assert(s.push(x).drop_first() =~= seq![x]);
        assert(seq_max(seq![x]) == x);
    } else {
        assert(s.push(x).drop_first() =~= s.drop_first().push(x));
        lemma_seq_max_push(s.drop_first(), x);
    }
}

/// Some subtask reported no watermark.
pub open spec fn any_none(s: Seq<Option<u64>>) -> bool {
    exists|i: int| 0 <= i < s.len() && s[i] is None
}

/// The reported watermark values, read off in arrival order.
pub open spec fn unwrap_all(s: Seq<Option<u64>>) -> Seq<u64> {
    s.map_values(
        |w: Option<u64>|
            match w {
                Some(x) => x,
                None => 0,
            },
    )
}

/// Operator-level watermark bounds: absent when any subtask withheld its
/// watermark, and otherwise the least and greatest reported values.
pub open spec fn watermark_bounds(s: Seq<Option<u64>>) -> (Option<u64>, Option<u64>) {
    if s.len() == 0 || any_none(s) {
        (None, None)
    } else {
        (Some(seq_min(unwrap_all(s))), Some(seq_max(unwrap_all(s))))
    }
}

/// Reduces the watermarks reported by an operator's subtasks to the pair
/// `(min_watermark, max_watermark)` that is persisted for the operator.  The
/// pair is `(None, None)` exactly when no subtask reported, or some subtask
/// reported no watermark; otherwise it holds the least and the greatest
/// reported value.
pub fn aggregate_watermarks(ws: &Vec<Option<u64>>) -> (r: (Option<u64>, Option<u64>))
    ensures
        r == watermark_bounds(ws@),
        (r.0 is None && r.1 is None) <==> (ws@.len() == 0 || any_none(ws@)),
{
    let ghost all = unwrap_all(ws@);
    let mut i: usize = 0;
    let mut lo: u64 = 0;
    let mut hi: u64 = 0;
    let mut seen_none = false;
    while i < ws.len()
        invariant
            i <= ws.len(),
            all == unwrap_all(ws@),
            all.len() == ws@.len(),
            seen_none <==> any_none(ws@.take(i as int)),
            i > 0 && !seen_none ==> lo == seq_min(all.take(i as int)),
            i > 0 && !seen_none ==> hi == seq_max(all.take(i as int)),
        decreases ws.len() - i,
    {
        proof {
            assert(ws@.take(i + 1).drop_last() =~= ws@.take(i as int));
            assert(ws@.take(i + 1).last() == ws@[i as int]);
            assert(all.take(i + 1) =~= all.take(i as int).push(all[i as int]));
            assert(all[i as int] == unwrap_all(ws@)[i as int]);
            if i > 0 && all.take(i as int).len() > 0 {
                lemma_seq_min_push(all.take(i as int), all[i as int]);
                lemma_seq_max_push(all.take(i as int), all[i as int]);
            }
            assert forall|j: int| 0 <= j < i + 1 implies (ws@.take(i + 1)[j]
                == ws@.take(i as int).push(ws@[i as int])[j]) by {}
            assert(ws@.take(i + 1) =~= ws@.take(i as int).push(ws@[i as int]));
        }
        match ws[i] {
            None => {
                seen_none = true;
                proof {
                    assert(ws@.take(i + 1)[i as int] is None);
                }
            },
            Some(w) => {
                if i == 0 || (!seen_none && w < lo) {
                    lo = w;
                }
                if i == 0 || (!seen_none && w > hi) {
                    hi = w;
                }
                proof {
                    if any_none(ws@.take(i + 1)) {
                        let j = choose|j: int|
                            0 <= j < i + 1 && #[trigger] ws@.take(i + 1)[j] is None;
                        assert(ws@.take(i as int)[j] is None);
                    }
                    if i == 0 {
                        assert(all.take(1) =~= seq![all[0]]);
                    }
                }
            },
        }
        i += 1;
    }
    proof {
        assert(ws@.take(ws@.len() as int) =~= ws@);
        assert(all.take(all.len() as int) =~= all);
    }
    if ws.len() == 0 || seen_none {
        (None, None)
    } else {
        (Some(lo), Some(hi))
    }
}

} // verus!
