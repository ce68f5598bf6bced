//! Association lists from `u64` keys to `u64` values, with the sum of the
//! values tracked as a mathematical total.

use vstd::prelude::*;

verus! {

/// Value stored under `k`, or 0 when `k` is absent (the last entry wins).
pub open spec fn lookup(s: Seq<(u64, u64)>, k: u64) -> nat
    decreases s.len(),
{
    if s.len() == 0 {
        0
    } else if s.last().0 == k {
        s.last().1 as nat
    } else {
        lookup(s.drop_last(), k)
    }
}

/// Sum of all values in the list.
pub open spec fn total(s: Seq<(u64, u64)>) -> nat
    decreases s.len(),
{
    if s.len() == 0 {
        0
    } else {
        total(s.drop_last()) + s.last().1 as nat
    }
}

/// No key occurs twice.
pub open spec fn unique_keys(s: Seq<(u64, u64)>) -> bool {
    forall|i: int, j: int| 0 <= i < j < s.len() ==> s[i].0 != s[j].0
}

/// Some entry carries key `k`.
pub open spec fn has_key(s: Seq<(u64, u64)>, k: u64) -> bool {
    exists|i: int| 0 <= i < s.len() && s[i].0 == k
}

pub proof fn lemma_lookup_absent(s: Seq<(u64, u64)>, k: u64)
    requires
        !has_key(s, k),
    ensures
        lookup(s, k) == 0,
    decreases s.len(),
{
    if s.len() > 0 {
        assert(s.last() == s[s.len() - 1]);
        assert forall|i: int| 0 <= i < s.drop_last().len() implies s.drop_last()[i].0 != k by {
            assert(s.drop_last()[i] == s[i]);
        }
        lemma_lookup_absent(s.drop_last(), k);
    }
}

pub proof fn lemma_lookup_at(s: Seq<(u64, u64)>, i: int)
    requires
        unique_keys(s),
        0 <= i < s.len(),
    ensures
        lookup(s, s[i].0) == s[i].1 as nat,
    decreases s.len(),
{
    if i < s.len() - 1 {
        let t = s.drop_last();
        assert(t[i] == s[i]);
        assert(s.last() == s[s.len() - 1]);
        assert(s[i].0 != s[s.len() - 1].0);
        lemma_lookup_at(t, i);
    }
}

pub proof fn lemma_update(s: Seq<(u64, u64)>, i: int, v: u64)
    requires
        unique_keys(s),
        0 <= i < s.len(),
    ensures
        unique_keys(s.update(i, (s[i].0, v))),
        forall|k: u64|
            #![trigger lookup(s.update(i, (s[i].0, v)), k)]
            lookup(s.update(i, (s[i].0, v)), k) == if k == s[i].0 {
                v as nat
            } else {
                lookup(s, k)
            },
        total(s.update(i, (s[i].0, v))) + s[i].1 == total(s) + v,
    decreases s.len(),
{
    let u = s.update(i, (s[i].0, v));
    assert(u.len() == s.len());
    assert forall|a: int, b: int| 0 <= a < b < u.len() implies u[a].0 != u[b].0 by {
        assert(u[a].0 == s[a].0);
        assert(u[b].0 == s[b].0);
    }
    if i == s.len() - 1 {
        assert(u.drop_last() =~= s.drop_last());
        assert(u.last() == (s[i].0, v));
        assert(s.last() == s[i]);
        assert forall|k: u64| #[trigger] lookup(u, k) == if k == s[i].0 {
            v as nat
        } else {
            lookup(s, k)
        } by {}
    } else {
        let t = s.drop_last();
        assert(t[i] == s[i]);
        assert(unique_keys(t)) by {
            assert forall|a: int, b: int| 0 <= a < b < t.len() implies t[a].0 != t[b].0 by {
                assert(t[a] == s[a]);
                assert(t[b] == s[b]);
            }
        }
        lemma_update(t, i, v);
        assert(u.drop_last() =~= t.update(i, (t[i].0, v)));
        assert(u.last() == s.last());
        assert(s.last() == s[s.len() - 1]);
        assert(s[i].0 != s[s.len() - 1].0);
        assert forall|k: u64| #[trigger] lookup(u, k) == if k == s[i].0 {
            v as nat
        } else {
            lookup(s, k)
        } by {
            assert(lookup(t.update(i, (t[i].0, v)), k) == if k == t[i].0 {
                v as nat
            } else {
                lookup(t, k)
            });
        }
    }
}

pub proof fn lemma_push(s: Seq<(u64, u64)>, k: u64, v: u64)
    requires
        unique_keys(s),
        !has_key(s, k),
    ensures
        unique_keys(s.push((k, v))),
        has_key(s.push((k, v)), k),
        forall|x: u64|
            #![trigger lookup(s.push((k, v)), x)]
            lookup(s.push((k, v)), x) == if x == k {
                v as nat
            } else {
                lookup(s, x)
            },
        total(s.push((k, v))) == total(s) + v,
{
    let p = s.push((k, v));
    assert(p.drop_last() =~= s);
    assert(p[s.len() as int] == (k, v));
    assert forall|a: int, b: int| 0 <= a < b < p.len() implies p[a].0 != p[b].0 by {
        if b == s.len() {
            assert(p[a] == s[a]);
        } else {
            assert(p[a] == s[a]);
            assert(p[b] == s[b]);
        }
    }
}

/// Any single value, and any two values under distinct keys, fit in the total.
pub proof fn lemma_bounds(s: Seq<(u64, u64)>, k1: u64, k2: u64)
    requires
        unique_keys(s),
    ensures
        lookup(s, k1) <= total(s),
        k1 != k2 ==> lookup(s, k1) + lookup(s, k2) <= total(s),
    decreases s.len(),
{
    if s.len() > 0 {
        let t = s.drop_last();
        assert(unique_keys(t)) by {
            assert forall|a: int, b: int| 0 <= a < b < t.len() implies t[a].0 != t[b].0 by {
                assert(t[a] == s[a]);
                assert(t[b] == s[b]);
            }
        }
        lemma_bounds(t, k1, k2);
        let l = s.last();
        assert(l == s[s.len() - 1]);
        if l.0 == k1 || l.0 == k2 {
            assert(!has_key(t, l.0)) by {
                assert forall|i: int| 0 <= i < t.len() implies t[i].0 != l.0 by {
                    assert(t[i] == s[i]);
                }
            }
            lemma_lookup_absent(t, l.0);
        }
    }
}

/// Finds the position of key `k`.
pub fn find_key(list: &Vec<(u64, u64)>, k: u64) -> (r: Option<usize>)
    ensures
        match r {
            Some(i) => i < list@.len() && list@[i as int].0 == k,
            None => !has_key(list@, k),
        },
{
    let mut i: usize = 0;
    while i < list.len()
        invariant
            0 <= i <= list@.len(),
            forall|j: int| 0 <= j < i ==> list@[j].0 != k,
        decreases list@.len() - i,
    {
        if list[i].0 == k {
            return Some(i);
        }
        i = i + 1;
    }
    None
}

} // verus!

verus! {

/// Value stored under `k` in a keyed list (the last entry wins).
pub open spec fn find_opt<K, V>(s: Seq<(K, V)>, k: K) -> Option<V>
    decreases s.len(),
{
    if s.len() == 0 {
        None
    } else if s.last().0 == k {
        Some(s.last().1)
    } else {
        find_opt(s.drop_last(), k)
    }
}

/// No key occurs twice in a keyed list.
pub open spec fn distinct_keys<K, V>(s: Seq<(K, V)>) -> bool {
    forall|i: int, j: int| 0 <= i < j < s.len() ==> s[i].0 != s[j].0
}

pub proof fn lemma_find_absent<K, V>(s: Seq<(K, V)>, k: K)
    requires
        forall|i: int| 0 <= i < s.len() ==> s[i].0 != k,
    ensures
        find_opt(s, k) == None::<V>,
    decreases s.len(),
{
    if s.len() > 0 {
        assert(s.last() == s[s.len() - 1]);
        assert forall|i: int| 0 <= i < s.drop_last().len() implies s.drop_last()[i].0 != k by {
            assert(s.drop_last()[i] == s[i]);
        }
        lemma_find_absent(s.drop_last(), k);
    }
}

pub proof fn lemma_find_at<K, V>(s: Seq<(K, V)>, i: int)
    requires
        distinct_keys(s),
        0 <= i < s.len(),
    ensures
        find_opt(s, s[i].0) == Some(s[i].1),
    decreases s.len(),
{
    if i < s.len() - 1 {
        let t = s.drop_last();
        assert(t[i] == s[i]);
        assert(s.last() == s[s.len() - 1]);
        assert(s[i].0 != s[s.len() - 1].0);
        assert(distinct_keys(t)) by {
            assert forall|a: int, b: int| 0 <= a < b < t.len() implies t[a].0 != t[b].0 by {
                assert(t[a] == s[a]);
                assert(t[b] == s[b]);
            }
        }
        lemma_find_at(t, i);
    }
}

pub proof fn lemma_set_at<K, V>(s: Seq<(K, V)>, i: int, v: V)
    requires
        distinct_keys(s),
        0 <= i < s.len(),
    ensures
        distinct_keys(s.update(i, (s[i].0, v))),
        forall|k: K|
            #![trigger find_opt(s.update(i, (s[i].0, v)), k)]
            find_opt(s.update(i, (s[i].0, v)), k) == if k == s[i].0 {
                Some(v)
            } else {
                find_opt(s, k)
            },
    decreases s.len(),
{
    let u = s.update(i, (s[i].0, v));
    assert forall|a: int, b: int| 0 <= a < b < u.len() implies u[a].0 != u[b].0 by {
        assert(u[a].0 == s[a].0);
        assert(u[b].0 == s[b].0);
    }
    if i == s.len() - 1 {
        assert(u.drop_last() =~= s.drop_last());
        assert(s.last() == s[i]);
        assert forall|k: K| #[trigger] find_opt(u, k) == if k == s[i].0 {
            Some(v)
        } else {
            find_opt(s, k)
        } by {}
    } else {
        let t = s.drop_last();
        assert(t[i] == s[i]);
        assert(distinct_keys(t)) by {
            assert forall|a: int, b: int| 0 <= a < b < t.len() implies t[a].0 != t[b].0 by {
                assert(t[a] == s[a]);
                assert(t[b] == s[b]);
            }
        }
        lemma_set_at(t, i, v);
        assert(u.drop_last() =~= t.update(i, (t[i].0, v)));
        assert(u.last() == s.last());
        assert(s.last() == s[s.len() - 1]);
        assert(s[i].0 != s[s.len() - 1].0);
        assert forall|k: K| #[trigger] find_opt(u, k) == if k == s[i].0 {
            Some(v)
        } else {
            find_opt(s, k)
        } by {
            assert(find_opt(t.update(i, (t[i].0, v)), k) == if k == t[i].0 {
                Some(v)
            } else {
                find_opt(t, k)
            });
        }
    }
}

pub proof fn lemma_push_new<K, V>(s: Seq<(K, V)>, k: K, v: V)
    requires
        distinct_keys(s),
        forall|i: int| 0 <= i < s.len() ==> s[i].0 != k,
    ensures
        distinct_keys(s.push((k, v))),
        forall|x: K|
            #![trigger find_opt(s.push((k, v)), x)]
            find_opt(s.push((k, v)), x) == if x == k {
                Some(v)
            } else {
                find_opt(s, x)
            },
{
    let p = s.push((k, v));
    assert(p.drop_last() =~= s);
    assert forall|a: int, b: int| 0 <= a < b < p.len() implies p[a].0 != p[b].0 by {
        assert(p[a] == s[a]);
        if b < s.len() {
            assert(p[b] == s[b]);
        }
    }
}

/// Removing the entry at `i` removes its key and keeps the others.
pub proof fn lemma_remove_at<K, V>(s: Seq<(K, V)>, i: int)
    requires
        distinct_keys(s),
        0 <= i < s.len(),
    ensures
        distinct_keys(s.remove(i)),
        forall|k: K|
            #![trigger find_opt(s.remove(i), k)]
            find_opt(s.remove(i), k) == if k == s[i].0 {
                None
            } else {
                find_opt(s, k)
            },
    decreases s.len(),
{
    let u = s.remove(i);
    assert forall|a: int, b: int| 0 <= a < b < u.len() implies u[a].0 != u[b].0 by {
        if a < i {
            assert(u[a] == s[a]);
        } else {
            assert(u[a] == s[a + 1]);
        }
        if b < i {
            assert(u[b] == s[b]);
        } else {
            assert(u[b] == s[b + 1]);
        }
    }
    if i == s.len() - 1 {
        assert(u =~= s.drop_last());
        assert(s.last() == s[i]);
        assert forall|k: K| #[trigger] find_opt(u, k) == if k == s[i].0 {
            None
        } else {
            find_opt(s, k)
        } by {
            if k == s[i].0 {
                assert forall|j: int| 0 <= j < u.len() implies u[j].0 != k by {
                    assert(u[j] == s[j]);
                }
                lemma_find_absent(u, k);
            }
        }
    } else {
        let t = s.drop_last();
        assert(t[i] == s[i]);
        assert(distinct_keys(t)) by {
            assert forall|a: int, b: int| 0 <= a < b < t.len() implies t[a].0 != t[b].0 by {
                assert(t[a] == s[a]);
                assert(t[b] == s[b]);
            }
        }
        lemma_remove_at(t, i);
        assert(u.drop_last() =~= t.remove(i));
        assert(u.last() == s.last());
        assert(s.last() == s[s.len() - 1]);
        assert(s[i].0 != s[s.len() - 1].0);
        assert forall|k: K| #[trigger] find_opt(u, k) == if k == s[i].0 {
            None
        } else {
            find_opt(s, k)
        } by {
            assert(find_opt(t.remove(i), k) == if k == t[i].0 {
                None
            } else {
                find_opt(t, k)
            });
        }
    }
}

} // verus!

verus! {

pub proof fn lemma_single(k: u64, v: u64)
    ensures
        unique_keys(seq![(k, v)]),
        total(seq![(k, v)]) == v,
        forall|x: u64| #[trigger] lookup(seq![(k, v)], x) == if x == k { v as nat } else { 0 },
{
    let s = seq![(k, v)];
    assert(s.drop_last() =~= Seq::<(u64, u64)>::empty());
    assert(s.last() == (k, v));
    assert(total(Seq::<(u64, u64)>::empty()) == 0);
    assert(total(s) == total(s.drop_last()) + v);
    assert forall|x: u64| #[trigger] lookup(s, x) == if x == k { v as nat } else { 0 } by {
        assert(lookup(Seq::<(u64, u64)>::empty(), x) == 0);
    }
}

} // verus!

verus! {

/// Stores `val` under `k`, replacing an earlier entry.
pub fn upsert<V>(v: &mut Vec<(u64, V)>, k: u64, val: V)
    requires
        distinct_keys(old(v)@),
    ensures
        distinct_keys(final(v)@),
        forall|x: u64| #[trigger]
            find_opt(final(v)@, x) == if x == k {
                Some(val)
            } else {
                find_opt(old(v)@, x)
            },
{
    let ghost s = v@;
    let mut i: usize = 0;
    while i < v.len()
        invariant
            v@ == s,
            s == old(v)@,
            distinct_keys(s),
            0 <= i <= s.len(),
            forall|j: int| 0 <= j < i ==> s[j].0 != k,
        decreases s.len() - i,
    {
        if v[i].0 == k {
            let ghost vv = val;
            v.set(i, (k, val));
            proof {
                assert(v@ =~= s.update(i as int, (s[i as int].0, vv)));
                lemma_set_at(s, i as int, vv);
                assert forall|x: u64| #[trigger]
                    find_opt(v@, x) == if x == k {
                        Some(vv)
                    } else {
                        find_opt(s, x)
                    } by {
                    assert(find_opt(s.update(i as int, (s[i as int].0, vv)), x) == if x
                        == s[i as int].0 {
                        Some(vv)
                    } else {
                        find_opt(s, x)
                    });
                }
            }
            return;
        }
        i = i + 1;
    }
    let ghost vv = val;
    v.push((k, val));
    proof {
        lemma_push_new(s, k, vv);
    }
}

} // verus!
