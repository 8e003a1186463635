//! Facts about sequences and a stable ordering of keyed positions.

use vstd::prelude::*;

verus! {

/// One more element of a sequence, seen through a filter.
pub proof fn filter_step<A>(s: Seq<A>, keep: spec_fn(A) -> bool, i: int)
    requires
        0 <= i < s.len(),
    ensures
        s.take(i + 1).filter(keep) == if keep(s[i]) {
            s.take(i).filter(keep).push(s[i])
        } else {
            s.take(i).filter(keep)
        },
{
    reveal(Seq::filter);
    assert(s.take(i + 1).drop_last() == s.take(i));
    assert(s.take(i + 1).last() == s[i]);
}

pub proof fn filter_start<A>(s: Seq<A>, keep: spec_fn(A) -> bool)
    ensures
        s.take(0).filter(keep) == Seq::<A>::empty(),
{
    reveal(Seq::filter);
}

/// What a filtered sequence holds passed the filter and came from the sequence.
pub proof fn filter_sound<A>(s: Seq<A>, keep: spec_fn(A) -> bool, i: int)
    requires
        0 <= i < s.filter(keep).len(),
    ensures
        keep(s.filter(keep)[i]),
        s.contains(s.filter(keep)[i]),
    decreases s.len(),
{
    reveal(Seq::filter);
    let before = s.drop_last().filter(keep);
    if i < before.len() {
        filter_sound(s.drop_last(), keep, i);
        let k = choose|k: int| 0 <= k < s.drop_last().len() && s.drop_last()[k] == before[i];
        assert(s[k] == before[i]);
    } else {
        assert(s[s.len() - 1] == s.last());
    }
}

/// `p` lists the positions of `keys` once each, by rising key; positions with
/// equal keys stand in their own order.
pub open spec fn stable_by_key(p: Seq<int>, keys: Seq<int>) -> bool {
    &&& p.len() == keys.len()
    &&& forall|i: int| 0 <= i < p.len() ==> 0 <= #[trigger] p[i] < keys.len()
    &&& forall|i: int, j: int|
        0 <= i < j < p.len() ==> keys[#[trigger] p[i]] < keys[#[trigger] p[j]] || (keys[p[i]]
            == keys[p[j]] && p[i] < p[j])
}

/// The number of leading positions in `p` whose key is at most `key`.
pub open spec fn rank(p: Seq<int>, keys: Seq<int>, key: int) -> int
    decreases p.len(),
{
    if p.len() == 0 {
        0
    } else if keys[p.last()] <= key {
        p.len() as int
    } else {
        rank(p.drop_last(), keys, key)
    }
}

/// The positions of `keys` by rising key, equal keys in their own order.
pub open spec fn stable_order(keys: Seq<int>) -> Seq<int>
    decreases keys.len(),
{
    if keys.len() == 0 {
        Seq::empty()
    } else {
        let before = stable_order(keys.drop_last());
        before.insert(rank(before, keys, keys.last()), keys.len() - 1)
    }
}

proof fn rank_bounds(p: Seq<int>, keys: Seq<int>, key: int)
    ensures
        0 <= rank(p, keys, key) <= p.len(),
        forall|i: int| rank(p, keys, key) <= i < p.len() ==> keys[#[trigger] p[i]] > key,
        rank(p, keys, key) > 0 ==> keys[p[rank(p, keys, key) - 1]] <= key,
    decreases p.len(),
{
    if p.len() > 0 && keys[p.last()] > key {
        rank_bounds(p.drop_last(), keys, key);
        let r = rank(p.drop_last(), keys, key);
        assert forall|i: int| r <= i < p.len() implies keys[#[trigger] p[i]] > key by {
            if i < p.len() - 1 {
                assert(p.drop_last()[i] == p[i]);
            }
        }
    }
}

/// The stable order is a stable ordering of the keys.
pub proof fn stable_order_sorts(keys: Seq<int>)
    ensures
        stable_by_key(stable_order(keys), keys),
    decreases keys.len(),
{
    if keys.len() > 0 {
        let less = keys.drop_last();
        stable_order_sorts(less);
        let p = stable_order(less);
        let n = keys.len() - 1;
        let at = rank(p, keys, keys.last());
        rank_bounds(p, keys, keys.last());
        let q = p.insert(at, n);
        assert forall|i: int| 0 <= i < q.len() implies 0 <= #[trigger] q[i] < keys.len() by {
            if i < at {
                assert(q[i] == p[i]);
            } else if i > at {
                assert(q[i] == p[i - 1]);
            }
        }
        assert forall|i: int, j: int| 0 <= i < j < q.len() implies keys[#[trigger] q[i]]
            < keys[#[trigger] q[j]] || (keys[q[i]] == keys[q[j]] && q[i] < q[j]) by {
            let a = if i < at {
                i
            } else {
                i - 1
            };
            let b = if j < at {
                j
            } else {
                j - 1
            };
            if i != at && j != at {
                assert(q[i] == p[a]);
                assert(q[j] == p[b]);
                assert(less[p[a]] == keys[p[a]]);
                assert(less[p[b]] == keys[p[b]]);
            } else if j == at {
                assert(q[i] == p[i]);
                assert(p[at - 1] < n);
                if i < at - 1 {
                    assert(less[p[i]] == keys[p[i]]);
                    assert(less[p[at - 1]] == keys[p[at - 1]]);
                }
            } else {
                assert(q[j] == p[j - 1]);
            }
        }
    }
}

/// The stable order lists no position twice and every position once.
pub proof fn stable_order_is_permutation(keys: Seq<int>)
    ensures
        stable_order(keys).len() == keys.len(),
        stable_order(keys).no_duplicates(),
        forall|k: int| 0 <= k < keys.len() ==> stable_order(keys).contains(k),
    decreases keys.len(),
{
    stable_order_sorts(keys);
    let q = stable_order(keys);
    assert forall|i: int, j: int| 0 <= i < q.len() && 0 <= j < q.len() && i != j implies q[i]
        != q[j] by {
        if i < j {
            assert(keys[q[i]] < keys[q[j]] || (keys[q[i]] == keys[q[j]] && q[i] < q[j]));
        } else {
            assert(keys[q[j]] < keys[q[i]] || (keys[q[i]] == keys[q[j]] && q[j] < q[i]));
        }
    }
    if keys.len() > 0 {
        let less = keys.drop_last();
        stable_order_is_permutation(less);
        let p = stable_order(less);
        let n = keys.len() - 1;
        let at = rank(p, keys, keys.last());
        rank_bounds(p, keys, keys.last());
        assert forall|k: int| 0 <= k < keys.len() implies q.contains(k) by {
            if k == n {
                assert(q[at] == n);
            } else {
                assert(p.contains(k));
                let i = choose|i: int| 0 <= i < p.len() && p[i] == k;
                if i < at {
                    assert(q[i] == k);
                } else {
                    assert(q[i + 1] == k);
                }
            }
        }
    }
}

/// The keys as mathematical integers.
pub open spec fn as_ints(keys: Seq<u128>) -> Seq<int> {
    Seq::new(keys.len(), |i: int| keys[i] as int)
}

pub open spec fn positions(p: Seq<usize>) -> Seq<int> {
    Seq::new(p.len(), |i: int| p[i] as int)
}

/// The positions of `keys` by rising key, equal keys in their own order.
pub fn order_by_key(keys: &[u128]) -> (r: Vec<usize>)
    ensures
        positions(r@) == stable_order(as_ints(keys@)),
{
    let mut out: Vec<usize> = Vec::new();
    let n: usize = keys.len();
    let ghost all = as_ints(keys@);
    assert(positions(out@) == stable_order(all.take(0)));
    for i in 0..n
        invariant
            n == keys@.len(),
            all == as_ints(keys@),
            positions(out@) == stable_order(all.take(i as int)),
    {
        let ghost p = positions(out@);
        let ghost upto = all.take(i + 1);
        proof {
            assert(upto.drop_last() == all.take(i as int));
            stable_order_sorts(all.take(i as int));
        }
        let mut at: usize = out.len();
        proof {
            assert(p.take(at as int) == p);
            if at > 0 {
                assert(p[at - 1] == out@[at - 1]);
                assert(0 <= p[at - 1] < i);
            }
        }
        while at > 0 && keys[out[at - 1]] > keys[i]
            invariant
                i < n,
                n == keys@.len(),
                all == as_ints(keys@),
                upto == all.take(i + 1),
                p == positions(out@),
                at <= out@.len(),
                p.len() == i,
                forall|k: int| 0 <= k < p.len() ==> 0 <= #[trigger] p[k] < i,
                rank(p, upto, upto.last()) == rank(p.take(at as int), upto, upto.last()),
                at > 0 ==> out@[at - 1] < n,
            decreases at,
        {
            assert(p[at - 1] == out@[at - 1]);
            assert(p.take(at as int).drop_last() == p.take(at - 1));
            assert(p.take(at as int).last() == out@[at - 1]);
            assert(upto[p[at - 1]] == keys@[out@[at - 1] as int]);
            at = at - 1;
            proof {
                if at > 0 {
                    assert(0 <= p[at - 1] < i);
                }
            }
        }
        proof {
            if at > 0 {
                assert(p[at - 1] == out@[at - 1]);
                assert(p.take(at as int).last() == out@[at - 1]);
                assert(upto[p[at - 1]] == keys@[out@[at - 1] as int]);
            }
            assert(rank(p, upto, upto.last()) == at);
            assert(positions(out@.insert(at as int, i)) == p.insert(at as int, i as int));
        }
        out.insert(at, i);
    }
    assert(all.take(n as int) == all);
    out
}

/// At most the first `n` elements of `s`.
pub open spec fn at_most<A>(s: Seq<A>, n: nat) -> Seq<A> {
    if s.len() <= n {
        s
    } else {
        s.take(n as int)
    }
}

/// What a filter keeps is left.
pub proof fn filter_holds<A>(s: Seq<A>, keep: spec_fn(A) -> bool, i: int)
    requires
        0 <= i < s.len(),
        keep(s[i]),
    ensures
        s.filter(keep).contains(s[i]),
    decreases s.len(),
{
    reveal(Seq::filter);
    let before = s.drop_last().filter(keep);
    if i == s.len() - 1 {
        assert(s.filter(keep)[before.len() as int] == s[i]);
    } else {
        filter_holds(s.drop_last(), keep, i);
        let k = choose|k: int| 0 <= k < before.len() && before[k] == s[i];
        assert(s.filter(keep)[k] == s[i]);
    }
}

/// A filter that everything passes takes nothing away.
pub proof fn filter_keeps_all<A>(s: Seq<A>, keep: spec_fn(A) -> bool)
    requires
        forall|i: int| 0 <= i < s.len() ==> keep(#[trigger] s[i]),
    ensures
        s.filter(keep) == s,
    decreases s.len(),
{
    reveal(Seq::filter);
    if s.len() > 0 {
        let less = s.drop_last();
        assert forall|i: int| 0 <= i < less.len() implies keep(#[trigger] less[i]) by {
            assert(less[i] == s[i]);
        }
        filter_keeps_all(less, keep);
        assert(keep(s[s.len() - 1]));
        assert(s == less.push(s.last()));
    } else {
        assert(s.filter(keep) =~= s);
    }
}

/// What is left of a filter is what was there and passes it.
pub proof fn filter_is_exact<A>(s: Seq<A>, keep: spec_fn(A) -> bool, x: A)
    ensures
        s.filter(keep).contains(x) <==> s.contains(x) && keep(x),
{
    let left = s.filter(keep);
    if left.contains(x) {
        let k = choose|k: int| 0 <= k < left.len() && left[k] == x;
        filter_sound(s, keep, k);
    }
    if s.contains(x) && keep(x) {
        let i = choose|i: int| 0 <= i < s.len() && s[i] == x;
        filter_holds(s, keep, i);
    }
}

} // verus!
