use vstd::prelude::*;

verus! {

// Association vectors stand in for hash maps throughout the crate: a map is a
// `Vec` of `(key, value)` pairs in which no two entries share a key.  The spec
// functions below give such a vector its mathematical reading, and the lemmas
// relate the indexed operations the executable code performs to that reading.
// String keys are compared as character sequences; integer keys by value.

/// No two entries share a string key.
pub open spec fn str_keys_distinct<V>(s: Seq<(String, V)>) -> bool {
    forall|i: int, j: int| 0 <= i < j < s.len() ==> s[i].0@ != s[j].0@
}

/// Some entry carries the string key `k`.
pub open spec fn str_has_key<V>(s: Seq<(String, V)>, k: Seq<char>) -> bool {
    exists|i: int| 0 <= i < s.len() && s[i].0@ == k
}

/// The value of the first entry carrying `k`, if any.
pub open spec fn str_assoc<V>(s: Seq<(String, V)>, k: Seq<char>) -> Option<V>
    decreases s.len(),
{
    if s.len() == 0 {
        None
    } else if s[0].0@ == k {
        Some(s[0].1)
    } else {
        str_assoc(s.drop_first(), k)
    }
}

pub proof fn lemma_str_assoc_none<V>(s: Seq<(String, V)>, k: Seq<char>)
    ensures
        str_assoc(s, k) is None <==> !str_has_key(s, k),
    decreases s.len(),
{
    if s.len() > 0 && s[0].0@ != k {
        lemma_str_assoc_none(s.drop_first(), k);
        if str_has_key(s, k) {
            let i = choose|i: int| 0 <= i < s.len() && s[i].0@ == k;
            assert(s.drop_first()[i - 1] == s[i]);
        }
        if str_has_key(s.drop_first(), k) {
            let i = choose|i: int| 0 <= i < s.drop_first().len() && s.drop_first()[i].0@ == k;
            assert(s[i + 1].0@ == k);
        }
    }
}

pub proof fn lemma_str_assoc_at<V>(s: Seq<(String, V)>, k: Seq<char>, i: int)
    requires
        0 <= i < s.len(),
        s[i].0@ == k,
        forall|j: int| 0 <= j < i ==> s[j].0@ != k,
    ensures
        str_assoc(s, k) == Some(s[i].1),
    decreases i,
{
    if i > 0 {
        assert(s.drop_first()[i - 1] == s[i]);
        assert(forall|j: int| 0 <= j < i - 1 ==> s.drop_first()[j] == s[j + 1]);
        lemma_str_assoc_at(s.drop_first(), k, i - 1);
    }
}

pub proof fn lemma_str_assoc_push<V>(s: Seq<(String, V)>, p: (String, V), k: Seq<char>)
    ensures
        str_assoc(s.push(p), k) == if str_has_key(s, k) {
            str_assoc(s, k)
        } else if p.0@ == k {
            Some(p.1)
        } else {
            None
        },
    decreases s.len(),
{
    lemma_str_assoc_none(s, k);
    if s.len() == 0 {
        assert(s.push(p)[0] == p);
        assert(s.push(p).drop_first() =~= Seq::<(String, V)>::empty());
        assert(!str_has_key(s, k));
        if p.0@ == k {
            assert(str_assoc(s.push(p), k) == Some(p.1));
        } else {
            assert(str_assoc(s.push(p), k) == str_assoc(s.push(p).drop_first(), k));
            assert(str_assoc(s.push(p), k) is None);
        }
    } else if s[0].0@ == k {
        assert(s.push(p)[0] == s[0]);
        assert(str_has_key(s, k)) by {
            assert(0 <= 0 < s.len() && s[0].0@ == k);
        }
        assert(str_assoc(s.push(p), k) == Some(s[0].1));
    } else {
        assert(s.push(p)[0] == s[0]);
        assert(s.push(p).drop_first() =~= s.drop_first().push(p));
        lemma_str_assoc_push(s.drop_first(), p, k);
        lemma_str_assoc_none(s.drop_first(), k);
        if str_has_key(s, k) {
            let i = choose|i: int| 0 <= i < s.len() && s[i].0@ == k;
            assert(s.drop_first()[i - 1] == s[i]);
            assert(str_has_key(s.drop_first(), k));
        }
        if str_has_key(s.drop_first(), k) {
            let i = choose|i: int| 0 <= i < s.drop_first().len() && s.drop_first()[i].0@ == k;
            assert(s[i + 1].0@ == k);
            assert(str_has_key(s, k));
        }
        assert(str_assoc(s.push(p), k) == str_assoc(s.drop_first().push(p), k));
    }
}

pub proof fn lemma_str_assoc_update<V>(s: Seq<(String, V)>, i: int, p: (String, V), k: Seq<char>)
    requires
        0 <= i < s.len(),
        s[i].0@ == p.0@,
        forall|j: int| 0 <= j < i ==> s[j].0@ != s[i].0@,
    ensures
        str_assoc(s.update(i, p), k) == if p.0@ == k {
            Some(p.1)
        } else {
            str_assoc(s, k)
        },
        forall|k2: Seq<char>| str_has_key(s.update(i, p), k2) <==> str_has_key(s, k2),
    decreases i,
{
    assert forall|k2: Seq<char>| str_has_key(s.update(i, p), k2) <==> str_has_key(s, k2) by {
        if str_has_key(s.update(i, p), k2) {
            let j = choose|j: int| 0 <= j < s.len() && s.update(i, p)[j].0@ == k2;
            assert(s[if j == i { i } else { j }].0@ == k2);
        }
        if str_has_key(s, k2) {
            let j = choose|j: int| 0 <= j < s.len() && s[j].0@ == k2;
            assert(s.update(i, p)[if j == i { i } else { j }].0@ == k2);
        }
    }
    if i == 0 {
        assert(s.update(0, p).drop_first() =~= s.drop_first());
    } else {
        assert(s.update(i, p)[0] == s[0]);
        assert(s.update(i, p).drop_first() =~= s.drop_first().update(i - 1, p));
        assert(s.drop_first()[i - 1] == s[i]);
        assert(forall|j: int| 0 <= j < i - 1 ==> s.drop_first()[j] == s[j + 1]);
        lemma_str_assoc_update(s.drop_first(), i - 1, p, k);
    }
}

/// Index of the first entry carrying `k`, if any.
pub fn str_find<V>(v: &Vec<(String, V)>, k: &String) -> (r: Option<usize>)
    ensures
        match r {
            Some(i) => 0 <= i < v.len() && v@[i as int].0@ == k@ && (forall|j: int|
                0 <= j < i ==> v@[j].0@ != k@),
            None => !str_has_key(v@, k@),
        },
{
    let mut i: usize = 0;
    while i < v.len()
        invariant
            i <= v.len(),
            forall|j: int| 0 <= j < i ==> v@[j].0@ != k@,
        decreases v.len() - i,
    {
        if v[i].0 == *k {
            return Some(i);
        }
        i += 1;
    }
    None
}

// The same reading for u64-keyed association vectors.

/// No two entries share a key.
pub open spec fn u64_keys_distinct<V>(s: Seq<(u64, V)>) -> bool {
    forall|i: int, j: int| 0 <= i < j < s.len() ==> s[i].0 != s[j].0
}

/// Some entry carries the key `k`.
pub open spec fn u64_has_key<V>(s: Seq<(u64, V)>, k: u64) -> bool {
    exists|i: int| 0 <= i < s.len() && s[i].0 == k
}

/// The value of the first entry carrying `k`, if any.
pub open spec fn u64_assoc<V>(s: Seq<(u64, V)>, k: u64) -> Option<V>
    decreases s.len(),
{
    if s.len() == 0 {
        None
    } else if s[0].0 == k {
        Some(s[0].1)
    } else {
        u64_assoc(s.drop_first(), k)
    }
}

pub proof fn lemma_u64_assoc_none<V>(s: Seq<(u64, V)>, k: u64)
    ensures
        u64_assoc(s, k) is None <==> !u64_has_key(s, k),
    decreases s.len(),
{
    if s.len() > 0 && s[0].0 != k {
        lemma_u64_assoc_none(s.drop_first(), k);
        if u64_has_key(s, k) {
            let i = choose|i: int| 0 <= i < s.len() && s[i].0 == k;
            assert(s.drop_first()[i - 1] == s[i]);
        }
        if u64_has_key(s.drop_first(), k) {
            let i = choose|i: int| 0 <= i < s.drop_first().len() && s.drop_first()[i].0 == k;
            assert(s[i + 1].0 == k);
        }
    }
}

pub proof fn lemma_u64_assoc_at<V>(s: Seq<(u64, V)>, k: u64, i: int)
    requires
        0 <= i < s.len(),
        s[i].0 == k,
        forall|j: int| 0 <= j < i ==> s[j].0 != k,
    ensures
        u64_assoc(s, k) == Some(s[i].1),
    decreases i,
{
    if i > 0 {
        assert(s.drop_first()[i - 1] == s[i]);
        assert(forall|j: int| 0 <= j < i - 1 ==> s.drop_first()[j] == s[j + 1]);
        lemma_u64_assoc_at(s.drop_first(), k, i - 1);
    }
}

/// Index of the first entry carrying `k`, if any.
pub fn u64_find<V>(v: &Vec<(u64, V)>, k: u64) -> (r: Option<usize>)
    ensures
        match r {
            Some(i) => 0 <= i < v.len() && v@[i as int].0 == k && (forall|j: int|
                0 <= j < i ==> v@[j].0 != k),
            None => !u64_has_key(v@, k),
        },
{
    let mut i: usize = 0;
    while i < v.len()
        invariant
            i <= v.len(),
            forall|j: int| 0 <= j < i ==> v@[j].0 != k,
        decreases v.len() - i,
    {
        if v[i].0 == k {
            return Some(i);
        }
        i += 1;
    }
    None
}

// The same reading for u32-keyed association vectors.

/// No two entries share a key.
pub open spec fn u32_keys_distinct<V>(s: Seq<(u32, V)>) -> bool {
    forall|i: int, j: int| 0 <= i < j < s.len() ==> s[i].0 != s[j].0
}

/// Some entry carries the key `k`.
pub open spec fn u32_has_key<V>(s: Seq<(u32, V)>, k: u32) -> bool {
    exists|i: int| 0 <= i < s.len() && s[i].0 == k
}

/// Index of the first entry carrying `k`, if any.
pub fn u32_find<V>(v: &Vec<(u32, V)>, k: u32) -> (r: Option<usize>)
    ensures
        match r {
            Some(i) => 0 <= i < v.len() && v@[i as int].0 == k && (forall|j: int|
                0 <= j < i ==> v@[j].0 != k),
            None => !u32_has_key(v@, k),
        },
{
    let mut i: usize = 0;
    while i < v.len()
        invariant
            i <= v.len(),
            forall|j: int| 0 <= j < i ==> v@[j].0 != k,
        decreases v.len() - i,
    {
        if v[i].0 == k {
            return Some(i);
        }
        i += 1;
    }
    None
}

/// The value of the first entry carrying `k`, if any.
pub open spec fn u32_assoc<V>(s: Seq<(u32, V)>, k: u32) -> Option<V>
    decreases s.len(),
{
    if s.len() == 0 {
        None
    } else if s[0].0 == k {
        Some(s[0].1)
    } else {
        u32_assoc(s.drop_first(), k)
    }
}

pub proof fn lemma_u32_assoc_none<V>(s: Seq<(u32, V)>, k: u32)
    ensures
        u32_assoc(s, k) is None <==> !u32_has_key(s, k),
    decreases s.len(),
{
    if s.len() > 0 && s[0].0 != k {
        lemma_u32_assoc_none(s.drop_first(), k);
        if u32_has_key(s, k) {
            let i = choose|i: int| 0 <= i < s.len() && s[i].0 == k;
            assert(s.drop_first()[i - 1] == s[i]);
        }
        if u32_has_key(s.drop_first(), k) {
            let i = choose|i: int| 0 <= i < s.drop_first().len() && s.drop_first()[i].0 == k;
            assert(s[i + 1].0 == k);
        }
    }
}

pub proof fn lemma_u32_assoc_at<V>(s: Seq<(u32, V)>, k: u32, i: int)
    requires
        0 <= i < s.len(),
        s[i].0 == k,
        forall|j: int| 0 <= j < i ==> s[j].0 != k,
    ensures
        u32_assoc(s, k) == Some(s[i].1),
    decreases i,
{
    if i > 0 {
        assert(s.drop_first()[i - 1] == s[i]);
        assert(forall|j: int| 0 <= j < i - 1 ==> s.drop_first()[j] == s[j + 1]);
        lemma_u32_assoc_at(s.drop_first(), k, i - 1);
    }
}

pub proof fn lemma_u32_assoc_push<V>(s: Seq<(u32, V)>, p: (u32, V), k: u32)
    ensures
        u32_assoc(s.push(p), k) == if u32_has_key(s, k) {
            u32_assoc(s, k)
        } else if p.0 == k {
            Some(p.1)
        } else {
            None
        },
    decreases s.len(),
{
    lemma_u32_assoc_none(s, k);
    if s.len() == 0 {
        assert(s.push(p)[0] == p);
        assert(s.push(p).drop_first() =~= Seq::<(u32, V)>::empty());
        assert(!u32_has_key(s, k));
        if p.0 == k {
            assert(u32_assoc(s.push(p), k) == Some(p.1));
        } else {
            assert(u32_assoc(s.push(p), k) == u32_assoc(s.push(p).drop_first(), k));
            assert(u32_assoc(s.push(p), k) is None);
        }
    } else if s[0].0 == k {
        assert(s.push(p)[0] == s[0]);
        assert(u32_has_key(s, k)) by {
            assert(0 <= 0 < s.len() && s[0].0 == k);
        }
        assert(u32_assoc(s.push(p), k) == Some(s[0].1));
    } else {
        assert(s.push(p)[0] == s[0]);
        assert(s.push(p).drop_first() =~= s.drop_first().push(p));
        lemma_u32_assoc_push(s.drop_first(), p, k);
        lemma_u32_assoc_none(s.drop_first(), k);
        if u32_has_key(s, k) {
            let i = choose|i: int| 0 <= i < s.len() && s[i].0 == k;
            assert(s.drop_first()[i - 1] == s[i]);
            assert(u32_has_key(s.drop_first(), k));
        }
        if u32_has_key(s.drop_first(), k) {
            let i = choose|i: int| 0 <= i < s.drop_first().len() && s.drop_first()[i].0 == k;
            assert(s[i + 1].0 == k);
            assert(u32_has_key(s, k));
        }
        assert(u32_assoc(s.push(p), k) == u32_assoc(s.drop_first().push(p), k));
    }
}

pub proof fn lemma_u32_assoc_update<V>(s: Seq<(u32, V)>, i: int, p: (u32, V), k: u32)
    requires
        0 <= i < s.len(),
        s[i].0 == p.0,
        forall|j: int| 0 <= j < i ==> s[j].0 != s[i].0,
    ensures
        u32_assoc(s.update(i, p), k) == if p.0 == k {
            Some(p.1)
        } else {
            u32_assoc(s, k)
        },
        forall|k2: u32| u32_has_key(s.update(i, p), k2) <==> u32_has_key(s, k2),
    decreases i,
{
    assert forall|k2: u32| u32_has_key(s.update(i, p), k2) <==> u32_has_key(s, k2) by {
        if u32_has_key(s.update(i, p), k2) {
            let j = choose|j: int| 0 <= j < s.len() && s.update(i, p)[j].0 == k2;
            assert(s[if j == i { i } else { j }].0 == k2);
        }
        if u32_has_key(s, k2) {
            let j = choose|j: int| 0 <= j < s.len() && s[j].0 == k2;
            assert(s.update(i, p)[if j == i { i } else { j }].0 == k2);
        }
    }
    if i == 0 {
        assert(s.update(0, p).drop_first() =~= s.drop_first());
    } else {
        assert(s.update(i, p)[0] == s[0]);
        assert(s.update(i, p).drop_first() =~= s.drop_first().update(i - 1, p));
        assert(s.drop_first()[i - 1] == s[i]);
        assert(forall|j: int| 0 <= j < i - 1 ==> s.drop_first()[j] == s[j + 1]);
        lemma_u32_assoc_update(s.drop_first(), i - 1, p, k);
    }
}

pub proof fn lemma_u64_assoc_push<V>(s: Seq<(u64, V)>, p: (u64, V), k: u64)
    ensures
        u64_assoc(s.push(p), k) == if u64_has_key(s, k) {
            u64_assoc(s, k)
        } else if p.0 == k {
            Some(p.1)
        } else {
            None
        },
    decreases s.len(),
{
    lemma_u64_assoc_none(s, k);
    if s.len() == 0 {
        assert(s.push(p)[0] == p);
        assert(s.push(p).drop_first() =~= Seq::<(u64, V)>::empty());
        assert(!u64_has_key(s, k));
        if p.0 == k {
            assert(u64_assoc(s.push(p), k) == Some(p.1));
        } else {
            assert(u64_assoc(s.push(p), k) == u64_assoc(s.push(p).drop_first(), k));
            assert(u64_assoc(s.push(p), k) is None);
        }
    } else if s[0].0 == k {
        assert(s.push(p)[0] == s[0]);
        assert(u64_has_key(s, k)) by {
            assert(0 <= 0 < s.len() && s[0].0 == k);
        }
        assert(u64_assoc(s.push(p), k) == Some(s[0].1));
    } else {
        assert(s.push(p)[0] == s[0]);
        assert(s.push(p).drop_first() =~= s.drop_first().push(p));
        lemma_u64_assoc_push(s.drop_first(), p, k);
        lemma_u64_assoc_none(s.drop_first(), k);
        if u64_has_key(s, k) {
            let i = choose|i: int| 0 <= i < s.len() && s[i].0 == k;
            assert(s.drop_first()[i - 1] == s[i]);
            assert(u64_has_key(s.drop_first(), k));
        }
        if u64_has_key(s.drop_first(), k) {
            let i = choose|i: int| 0 <= i < s.drop_first().len() && s.drop_first()[i].0 == k;
            assert(s[i + 1].0 == k);
            assert(u64_has_key(s, k));
        }
        assert(u64_assoc(s.push(p), k) == u64_assoc(s.drop_first().push(p), k));
    }
}

pub proof fn lemma_u64_assoc_update<V>(s: Seq<(u64, V)>, i: int, p: (u64, V), k: u64)
    requires
        0 <= i < s.len(),
        s[i].0 == p.0,
        forall|j: int| 0 <= j < i ==> s[j].0 != s[i].0,
    ensures
        u64_assoc(s.update(i, p), k) == if p.0 == k {
            Some(p.1)
        } else {
            u64_assoc(s, k)
        },
        forall|k2: u64| u64_has_key(s.update(i, p), k2) <==> u64_has_key(s, k2),
    decreases i,
{
    assert forall|k2: u64| u64_has_key(s.update(i, p), k2) <==> u64_has_key(s, k2) by {
        if u64_has_key(s.update(i, p), k2) {
            let j = choose|j: int| 0 <= j < s.len() && s.update(i, p)[j].0 == k2;
            assert(s[if j == i { i } else { j }].0 == k2);
        }
        if u64_has_key(s, k2) {
            let j = choose|j: int| 0 <= j < s.len() && s[j].0 == k2;
            assert(s.update(i, p)[if j == i { i } else { j }].0 == k2);
        }
    }
    if i == 0 {
        assert(s.update(0, p).drop_first() =~= s.drop_first());
    } else {
        assert(s.update(i, p)[0] == s[0]);
        assert(s.update(i, p).drop_first() =~= s.drop_first().update(i - 1, p));
        assert(s.drop_first()[i - 1] == s[i]);
        assert(forall|j: int| 0 <= j < i - 1 ==> s.drop_first()[j] == s[j + 1]);
        lemma_u64_assoc_update(s.drop_first(), i - 1, p, k);
    }
}

pub proof fn lemma_u64_assoc_remove<V>(s: Seq<(u64, V)>, i: int, k: u64)
    requires
        0 <= i < s.len(),
        forall|j: int| 0 <= j < s.len() && j != i ==> s[j].0 != s[i].0,
    ensures
        u64_assoc(s.remove(i), k) == if s[i].0 == k {
            None
        } else {
            u64_assoc(s, k)
        },
        forall|k2: u64|
            u64_has_key(s.remove(i), k2) <==> u64_has_key(s, k2) && k2 != s[i].0,
    decreases i,
{
    assert forall|k2: u64|
        u64_has_key(s.remove(i), k2) <==> u64_has_key(s, k2) && k2 != s[i].0 by {
        if u64_has_key(s.remove(i), k2) {
            let j = choose|j: int| 0 <= j < s.remove(i).len() && s.remove(i)[j].0 == k2;
            if j < i {
                assert(s[j].0 == k2);
            } else {
                assert(s.remove(i)[j] == s[j + 1]);
                assert(s[j + 1].0 == k2);
            }
        }
        if u64_has_key(s, k2) && k2 != s[i].0 {
            let j = choose|j: int| 0 <= j < s.len() && s[j].0 == k2;
            if j < i {
                assert(s.remove(i)[j].0 == k2);
            } else {
                assert(s.remove(i)[j - 1] == s[j]);
                assert(s.remove(i)[j - 1].0 == k2);
            }
        }
    }
    if i == 0 {
        assert(s.remove(0) =~= s.drop_first());
        lemma_u64_assoc_none(s.drop_first(), k);
        if s[0].0 != k {
        }
    } else {
        assert(s.remove(i)[0] == s[0]);
        assert(s.remove(i).drop_first() =~= s.drop_first().remove(i - 1));
        assert(s.drop_first()[i - 1] == s[i]);
        assert(forall|j: int|
            0 <= j < s.len() - 1 && j != i - 1 ==> s.drop_first()[j] == s[j + 1]);
        lemma_u64_assoc_remove(s.drop_first(), i - 1, k);
    }
}

} // verus!
