//! A stable sort by integer keys.
use vstd::prelude::*;

verus! {

/// The lexicographic order of sort keys.
pub open spec fn key_le(a: (i32, i32), b: (i32, i32)) -> bool {
    a.0 < b.0 || (a.0 == b.0 && a.1 <= b.1)
}

/// Whether items are in order of their keys.
pub open spec fn keyed_sorted<T>(s: Seq<((i32, i32), T)>) -> bool {
    forall|i: int, j: int| 0 <= i < j < s.len() ==> key_le(#[trigger] s[i].0, #[trigger] s[j].0)
}

/// Whether an item has key `k`.
pub open spec fn key_is<T>(k: (i32, i32)) -> spec_fn(((i32, i32), T)) -> bool {
    |e: ((i32, i32), T)| e.0 == k
}

/// The items with key `k`, in their order.
pub open spec fn with_key<T>(s: Seq<((i32, i32), T)>, k: (i32, i32)) -> Seq<((i32, i32), T)> {
    s.filter(key_is(k))
}

/// `x` placed after the last item of `r`, from the end, whose key is not
/// greater than its own.
pub open spec fn insert_sorted<T>(r: Seq<((i32, i32), T)>, x: ((i32, i32), T)) -> Seq<((i32, i32), T)>
    decreases r.len(),
{
    if r.len() == 0 {
        seq![x]
    } else if key_le(r.last().0, x.0) {
        r.push(x)
    } else {
        insert_sorted(r.drop_last(), x).push(r.last())
    }
}

/// Items stably sorted by key: by insertion, in their order.
pub open spec fn stable_sorted<T>(s: Seq<((i32, i32), T)>) -> Seq<((i32, i32), T)>
    decreases s.len(),
{
    if s.len() == 0 {
        s
    } else {
        insert_sorted(stable_sorted(s.drop_last()), s.last())
    }
}

proof fn lemma_insert_sorted<T>(r: Seq<((i32, i32), T)>, x: ((i32, i32), T))
    ensures
        keyed_sorted(r) ==> keyed_sorted(insert_sorted(r, x)),
        forall|k: (i32, i32)| #[trigger] with_key(insert_sorted(r, x), k) == if x.0 == k {
            with_key(r, k).push(x)
        } else {
            with_key(r, k)
        },
        insert_sorted(r, x).to_multiset() == r.to_multiset().insert(x),
        insert_sorted(r, x).len() == r.len() + 1,
    decreases r.len(),
{
    broadcast use vstd::multiset::group_multiset_axioms;

    if r.len() == 0 {
        assert forall|k: (i32, i32)| #[trigger] with_key(insert_sorted(r, x), k) == if x.0 == k {
            with_key(r, k).push(x)
        } else {
            with_key(r, k)
        } by {
            assert(insert_sorted(r, x) =~= r.push(x));
            r.lemma_filter_push(x, key_is(k));
        }
        r.to_multiset_ensures();
        assert(insert_sorted(r, x) =~= r.push(x));
    } else if key_le(r.last().0, x.0) {
        assert forall|k: (i32, i32)| #[trigger] with_key(insert_sorted(r, x), k) == if x.0 == k {
            with_key(r, k).push(x)
        } else {
            with_key(r, k)
        } by {
            r.lemma_filter_push(x, key_is(k));
        }
        r.to_multiset_ensures();
        assert(insert_sorted(r, x).to_multiset() == r.push(x).to_multiset());
        if keyed_sorted(r) {
            let t = r.push(x);
            assert forall|i: int, j: int| 0 <= i < j < t.len() implies key_le(#[trigger] t[i].0, #[trigger] t[j].0) by {
                if j == t.len() - 1 && i < r.len() - 1 {
                    assert(key_le(r[i].0, r[r.len() - 1].0));
                }
            }
        }
    } else {
        let init = r.drop_last();
        let l = r.last();
        lemma_insert_sorted(init, x);
        assert(r == init.push(l));
        assert forall|k: (i32, i32)| #[trigger] with_key(insert_sorted(r, x), k) == if x.0 == k {
            with_key(r, k).push(x)
        } else {
            with_key(r, k)
        } by {
            assert(l.0 != x.0);
            let s0 = insert_sorted(init, x);
            s0.lemma_filter_push(l, key_is(k));
            init.lemma_filter_push(l, key_is(k));
            assert(insert_sorted(r, x) == s0.push(l));
            let ih = with_key(s0, k);
            assert(ih == if x.0 == k { with_key(init, k).push(x) } else { with_key(init, k) });
            assert(with_key(insert_sorted(r, x), k) == if l.0 == k { ih.push(l) } else { ih });
            assert(with_key(r, k) == if l.0 == k { with_key(init, k).push(l) } else { with_key(init, k) });
            if x.0 == k {
                assert(l.0 != k);
            }
        }
        insert_sorted(init, x).to_multiset_ensures();
        init.to_multiset_ensures();
        assert(insert_sorted(r, x).to_multiset() == insert_sorted(init, x).to_multiset().insert(l));
        assert(r.to_multiset() == init.to_multiset().insert(l));
        if keyed_sorted(r) {
            let s = insert_sorted(r, x);
            let s0 = insert_sorted(init, x);
            assert(keyed_sorted(init));
            assert forall|i: int, j: int| 0 <= i < j < s.len() implies key_le(#[trigger] s[i].0, #[trigger] s[j].0) by {
                if j == s.len() - 1 {
                    // every item before the last is either `x` or an item of `init`
                    assert(s0.to_multiset().count(s[i]) > 0) by {
                        assert(s[i] == s0[i]);
                        s0.to_multiset_ensures();
                        assert(s0.contains(s[i]));
                    }
                    assert(s0.to_multiset() == init.to_multiset().insert(x));
                    if s[i] != x {
                        assert(init.to_multiset().count(s[i]) > 0);
                        init.to_multiset_ensures();
                        let w = choose|w: int| 0 <= w < init.len() && init[w] == s[i];
                        assert(key_le(init[w].0, r[r.len() - 1].0));
                    }
                }
            }
        }
    }
}

/// Stable sorting puts the items in order of their keys, keeps the order
/// of the items that share a key, and keeps every item.
pub proof fn lemma_stable_sorted<T>(s: Seq<((i32, i32), T)>)
    ensures
        keyed_sorted(stable_sorted(s)),
        forall|k: (i32, i32)| #[trigger] with_key(stable_sorted(s), k) == with_key(s, k),
        stable_sorted(s).to_multiset() == s.to_multiset(),
        stable_sorted(s).len() == s.len(),
    decreases s.len(),
{
    broadcast use vstd::multiset::group_multiset_axioms;

    if s.len() > 0 {
        let init = s.drop_last();
        lemma_stable_sorted(init);
        lemma_insert_sorted(stable_sorted(init), s.last());
        assert(s == init.push(s.last()));
        init.to_multiset_ensures();
        assert(s.to_multiset() == init.to_multiset().insert(s.last()));
        assert forall|k: (i32, i32)| #[trigger] with_key(stable_sorted(s), k) == with_key(s, k) by {
            init.lemma_filter_push(s.last(), key_is(k));
        }
    }
}

/// The position, from the end, at which `x` goes into a sorted `out`.
fn insert_position<T>(out: &Vec<((i32, i32), T)>, x: &((i32, i32), T)) -> (p: usize)
    ensures
        p <= out.len(),
        insert_sorted(out@, *x) == out@.take(p as int).push(*x) + out@.skip(p as int),
{
    let mut p = out.len();
    assert(out@.take(p as int) =~= out@);
    assert(out@.skip(p as int) =~= Seq::<((i32, i32), T)>::empty());
    while p > 0
        invariant
            p <= out.len(),
            insert_sorted(out@, *x) == insert_sorted(out@.take(p as int), *x) + out@.skip(p as int),
        ensures
            p <= out.len(),
            insert_sorted(out@, *x) == insert_sorted(out@.take(p as int), *x) + out@.skip(p as int),
            p == 0 || key_le(out@[p - 1].0, x.0),
        decreases p,
    {
        let k = out[p - 1].0;
        if k.0 < x.0.0 || (k.0 == x.0.0 && k.1 <= x.0.1) {
            break;
        }
        proof {
            let t = out@.take(p as int);
            assert(t.drop_last() =~= out@.take(p - 1));
            assert(t.last() == out@[p - 1]);
            assert(insert_sorted(t, *x) == insert_sorted(out@.take(p - 1), *x).push(out@[p - 1]));
            assert(out@.skip(p - 1) =~= seq![out@[p - 1]] + out@.skip(p as int));
            assert(insert_sorted(out@.take(p - 1), *x).push(out@[p - 1]) + out@.skip(p as int)
                =~= insert_sorted(out@.take(p - 1), *x) + out@.skip(p - 1));
        }
        p = p - 1;
    }
    proof {
        if p == 0 {
            assert(out@.take(0) =~= Seq::<((i32, i32), T)>::empty());
            assert(insert_sorted(out@.take(0), *x) == seq![*x]);
            assert(seq![*x] =~= out@.take(0).push(*x));
        } else {
            assert(out@.take(p as int).last() == out@[p - 1]);
            assert(out@.take(p as int).len() > 0);
        }
    }
    p
}

/// Sort items stably by their keys.
pub fn stable_sort<T>(v: Vec<((i32, i32), T)>) -> (sorted: Vec<((i32, i32), T)>)
    ensures
        sorted@ == stable_sorted(v@),
{
    let ghost all = v@;
    let mut input = v;
    assert(all.take(0) =~= Seq::<((i32, i32), T)>::empty());
    assert(all.skip(0) =~= all);
    let mut out: Vec<((i32, i32), T)> = Vec::new();
    let mut i: usize = 0;
    let n = input.len();
    while input.len() > 0
        invariant
            n == all.len(),
            i + input.len() == n,
            input@ == all.skip(i as int),
            out@ == stable_sorted(all.take(i as int)),
        decreases input.len(),
    {
        let x = input.remove(0);
        proof {
            assert(all.take(i + 1).drop_last() =~= all.take(i as int));
            assert(all.take(i + 1).last() == x);
            assert(input@ =~= all.skip(i + 1));
        }
        let p = insert_position(&out, &x);
        let ghost before = out@;
        out.insert(p, x);
        proof {
            assert(out@ =~= before.take(p as int).push(x) + before.skip(p as int));
        }
        i = i + 1;
    }
    proof {
        assert(all.take(n as int) =~= all);
    }
    out
}

/// Whether items are in order of the keys that `key` gives them.
pub open spec fn in_key_order<T>(s: Seq<T>, key: spec_fn(T) -> (i32, i32)) -> bool {
    forall|i: int, j: int| 0 <= i < j < s.len() ==> key_le(key(#[trigger] s[i]), key(#[trigger] s[j]))
}

/// Items keyed by `key` and stably sorted come out, keys dropped, in order
/// of their keys.
pub proof fn lemma_sorted_payloads<T>(s: Seq<T>, key: spec_fn(T) -> (i32, i32))
    ensures
        in_key_order(
            stable_sorted(s.map_values(|x: T| (key(x), x))).map_values(|e: ((i32, i32), T)| e.1),
            key,
        ),
{
    let keyed = s.map_values(|x: T| (key(x), x));
    let sorted = stable_sorted(keyed);
    let out = sorted.map_values(|e: ((i32, i32), T)| e.1);
    lemma_stable_sorted(keyed);
    sorted.to_multiset_ensures();
    keyed.to_multiset_ensures();
    assert forall|i: int| 0 <= i < sorted.len() implies (#[trigger] sorted[i]).0 == key(sorted[i].1) by {
        assert(sorted.contains(sorted[i]));
        assert(sorted.to_multiset().count(sorted[i]) > 0);
        assert(keyed.contains(sorted[i]));
    }
    assert forall|i: int, j: int| 0 <= i < j < out.len() implies key_le(key(#[trigger] out[i]), key(#[trigger] out[j])) by {
        assert(key_le(sorted[i].0, sorted[j].0));
    }
}

/// Items paired with the keys that `key` gives them.
pub open spec fn keyed_by<T>(s: Seq<T>, key: spec_fn(T) -> (i32, i32)) -> Seq<((i32, i32), T)> {
    s.map_values(|y: T| (key(y), y))
}

/// Keyed items with their keys dropped.
pub open spec fn payloads<T>(s: Seq<((i32, i32), T)>) -> Seq<T> {
    s.map_values(|e: ((i32, i32), T)| e.1)
}

/// Items keyed by `key` and stably sorted come out, keys dropped, as the
/// same items: each item is there afterwards exactly when it was before.
pub proof fn lemma_sorted_payloads_members<T>(s: Seq<T>, key: spec_fn(T) -> (i32, i32))
    ensures
        forall|x: T| #[trigger] payloads(stable_sorted(keyed_by(s, key))).contains(x) <==> s.contains(x),
{
    let keyed = keyed_by(s, key);
    let sorted = stable_sorted(keyed);
    let out = payloads(sorted);
    lemma_stable_sorted(keyed);
    sorted.to_multiset_ensures();
    keyed.to_multiset_ensures();
    assert forall|x: T| #[trigger] out.contains(x) <==> s.contains(x) by {
        if out.contains(x) {
            let i = choose|i: int| 0 <= i < out.len() && out[i] == x;
            assert(sorted.contains(sorted[i]));
            assert(sorted.to_multiset().count(sorted[i]) > 0);
            assert(keyed.contains(sorted[i]));
            let j = choose|j: int| 0 <= j < keyed.len() && keyed[j] == sorted[i];
            assert(s[j] == x);
        }
        if s.contains(x) {
            let j = choose|j: int| 0 <= j < s.len() && s[j] == x;
            assert(keyed.contains(keyed[j]));
            assert(keyed.to_multiset().count(keyed[j]) > 0);
            assert(sorted.contains(keyed[j]));
            let i = choose|i: int| 0 <= i < sorted.len() && sorted[i] == keyed[j];
            assert(out[i] == x);
        }
    }
}

/// Items with their payloads mapped by `f`, keys kept.
pub open spec fn map_payload<T, U>(s: Seq<((i32, i32), T)>, f: spec_fn(T) -> U) -> Seq<((i32, i32), U)> {
    s.map_values(|e: ((i32, i32), T)| (e.0, f(e.1)))
}

proof fn lemma_insert_sorted_map<T, U>(r: Seq<((i32, i32), T)>, x: ((i32, i32), T), f: spec_fn(T) -> U)
    ensures
        map_payload(insert_sorted(r, x), f) == insert_sorted(map_payload(r, f), (x.0, f(x.1))),
    decreases r.len(),
{
    let m = map_payload(r, f);
    if r.len() == 0 {
        assert(map_payload(insert_sorted(r, x), f) =~= seq![(x.0, f(x.1))]);
    } else if key_le(r.last().0, x.0) {
        assert(map_payload(r.push(x), f) =~= m.push((x.0, f(x.1))));
    } else {
        lemma_insert_sorted_map(r.drop_last(), x, f);
        assert(map_payload(r.drop_last(), f) =~= m.drop_last());
        assert(map_payload(insert_sorted(r.drop_last(), x).push(r.last()), f) =~= map_payload(
            insert_sorted(r.drop_last(), x),
            f,
        ).push((r.last().0, f(r.last().1))));
    }
}

/// Sorting does not look at the payloads: mapping them before or after
/// sorting gives the same items.
pub proof fn lemma_stable_sorted_map<T, U>(s: Seq<((i32, i32), T)>, f: spec_fn(T) -> U)
    ensures
        map_payload(stable_sorted(s), f) == stable_sorted(map_payload(s, f)),
    decreases s.len(),
{
    if s.len() > 0 {
        lemma_stable_sorted_map(s.drop_last(), f);
        lemma_insert_sorted_map(stable_sorted(s.drop_last()), s.last(), f);
        assert(map_payload(s.drop_last(), f) =~= map_payload(s, f).drop_last());
    } else {
        assert(map_payload(s, f) =~= Seq::<((i32, i32), U)>::empty());
    }
}

} // verus!
