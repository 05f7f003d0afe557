//! Helpers over maps, vectors and sequences that several subsystems share.
use std::collections::{BTreeMap, HashMap, VecDeque};
use vstd::std_specs::cmp::OrdSpec;
use vstd::std_specs::iter::IteratorSpec;
use vstd::prelude::*;

verus! {

broadcast use vstd::std_specs::btree::group_btree_axioms;

/// The numbers stand in strictly increasing order.
pub open spec fn ascending(s: Seq<usize>) -> bool {
    forall|i: int, j: int| 0 <= i < j < s.len() ==> s[i] < s[j]
}

/// `r` is the least number that is not in `taken`.
pub open spec fn is_least_free(taken: Set<usize>, r: usize) -> bool {
    &&& !taken.contains(r)
    &&& forall|k: usize| k < r ==> taken.contains(k)
}

/// A finite set that holds `0..c` has at least `c` elements.
pub proof fn lemma_pigeon(s: Set<usize>, c: usize)
    requires
        s.finite(),
        forall|k: usize| k < c ==> s.contains(k),
    ensures
        c <= s.len(),
{
    let low = Set::new(|k: usize| k < c);
    lemma_low_set(c);
    assert(low.subset_of(s));
    vstd::set_lib::lemma_len_subset(low, s);
}

/// There are `c` numbers below `c`.
pub proof fn lemma_low_set(c: usize)
    ensures
        Set::new(|k: usize| k < c).finite(),
        Set::new(|k: usize| k < c).len() == c,
    decreases c,
{
    let low = Set::new(|k: usize| k < c);
    if c == 0 {
        assert(low =~= Set::<usize>::empty());
    } else {
        let d: usize = (c - 1) as usize;
        lemma_low_set(d);
        assert(low =~= Set::new(|k: usize| k < d).insert(d));
    }
}

/// The least key that `m` does not hold.
pub fn first_free<V>(m: &BTreeMap<usize, V>) -> (r: usize)
    ensures
        is_least_free(m@.dom(), r),
{
    let n: usize = m.len();
    let mut c: usize = 0;
    while m.contains_key(&c)
        invariant
            c <= n,
            n == m@.len(),
            m@.dom().finite(),
            forall|k: usize| k < c ==> m@.contains_key(k),
        decreases n - c,
    {
        proof {
            lemma_pigeon(m@.dom(), c);
            if c == n {
                assert(m@.dom().remove(c).len() == n - 1);
                lemma_pigeon(m@.dom().remove(c), c);
            }
        }
        c = c + 1;
    }
    c
}

/// A sequence that a map walks in key order is ascending.
proof fn lemma_increasing_is_ascending(ks: Seq<usize>)
    requires
        vstd::std_specs::btree::increasing_seq(ks),
    ensures
        ascending(ks),
{
    assert forall|i: int, j: int| 0 <= i < j < ks.len() implies ks[i] < ks[j] by {
        assert(ks[i].cmp_spec(&ks[j]) is Less);
    }
}

/// The keys of `m` in increasing order.
pub fn sorted_keys<V>(m: &BTreeMap<usize, V>) -> (v: Vec<usize>)
    ensures
        ascending(v@),
        forall|k: usize| v@.contains(k) <==> m@.contains_key(k),
        v@.len() == m@.len(),
{
    let mut v: Vec<usize> = Vec::new();
    let iter = m.iter();
    let ghost all = iter.remaining();
    let ghost ks = all.map_values(|kv: (&usize, &V)| *kv.0);
    proof {
        lemma_increasing_is_ascending(ks);
    }
    for kv in it: iter
        invariant
            it.seq() == all,
            ks == all.map_values(|kv: (&usize, &V)| *kv.0),
            v@ == ks.take(it.index() as int),
    {
        proof {
            assert(ks.take(it.index() + 1) =~= ks.take(it.index() as int).push(*kv.0));
        }
        v.push(*kv.0);
    }
    proof {
        assert(v@ =~= ks);
        assert forall|k: usize| v@.contains(k) <==> m@.contains_key(k) by {
            if v@.contains(k) {
                let i = choose|i: int| 0 <= i < v@.len() && v@[i] == k;
                assert(m@.contains_key(*all[i].0));
            }
            if m@.contains_key(k) {
                assert(all.contains((&k, &m@[k])));
                let i = choose|i: int| 0 <= i < all.len() && all[i] == (&k, &m@[k]);
                assert(v@[i] == k);
            }
        }
    }
    v
}

/// The keys of `m`, each once, in no particular order.
pub fn hash_keys<V>(m: &HashMap<usize, V>) -> (v: Vec<usize>)
    ensures
        v@.no_duplicates(),
        forall|k: usize| v@.contains(k) <==> m@.contains_key(k),
{
    broadcast use vstd::std_specs::hash::group_hash_axioms;

    let mut v: Vec<usize> = Vec::new();
    let iter = m.keys();
    let ghost all = iter.remaining();
    let ghost ks = all.unref();
    for k in it: iter
        invariant
            it.seq() == all,
            ks == all.unref(),
            v@ == ks.take(it.index() as int),
    {
        proof {
            assert(ks.take(it.index() + 1) =~= ks.take(it.index() as int).push(*k));
        }
        v.push(*k);
    }
    proof {
        assert(v@ =~= ks);
        assert forall|i: int, j: int| 0 <= i < v@.len() && 0 <= j < v@.len() && i != j implies v@[i]
            != v@[j] by {
            assert(all[i] != all[j]);
        }
        assert forall|k: usize| v@.contains(k) <==> m@.contains_key(k) by {
            assert(ks.to_set().contains(k) <==> m@.dom().contains(k));
        }
    }
    v
}

/// The test that lets everything but `x` through.
pub open spec fn other_than(x: usize) -> spec_fn(usize) -> bool {
    |y: usize| y != x
}

/// The sequence without any `x`.
pub open spec fn without(s: Seq<usize>, x: usize) -> Seq<usize> {
    s.filter(other_than(x))
}

/// What a sequence without any `x` holds.
pub proof fn lemma_without(s: Seq<usize>, x: usize)
    ensures
        forall|y: usize| #[trigger] without(s, x).contains(y) <==> s.contains(y) && y != x,
{
    assert forall|y: usize| #[trigger] without(s, x).contains(y) <==> s.contains(y) && y != x by {
        lemma_filter_holds(s, other_than(x), y);
    }
}

/// What a sequence with one more element holds.
pub proof fn lemma_push_contains(s: Seq<usize>, x: usize, y: usize)
    ensures
        s.push(x).contains(y) <==> s.contains(y) || x == y,
{
    if s.contains(y) {
        let i = choose|i: int| 0 <= i < s.len() && s[i] == y;
        assert(s.push(x)[i] == y);
    }
    if x == y {
        assert(s.push(x)[s.len() as int] == y);
    }
    if s.push(x).contains(y) && x != y {
        let i = choose|i: int| 0 <= i < s.push(x).len() && s.push(x)[i] == y;
        assert(s[i] == y);
    }
}

/// `r` holds, in increasing order, those of the first `n` numbers of `ids` that pass.
pub open spec fn collected(
    r: Seq<usize>,
    ids: Seq<usize>,
    n: int,
    p: spec_fn(usize) -> bool,
) -> bool {
    &&& ascending(r)
    &&& forall|k: usize| #[trigger] r.contains(k) <==> ids.take(n).contains(k) && p(k)
}

/// One more number is added when it passes.
pub proof fn lemma_collect_step(
    r: Seq<usize>,
    ids: Seq<usize>,
    n: int,
    p: spec_fn(usize) -> bool,
)
    requires
        ascending(ids),
        0 <= n < ids.len(),
        collected(r, ids, n, p),
    ensures
        collected(
            (if p(ids[n]) {
                r.push(ids[n])
            } else {
                r
            }),
            ids,
            n + 1,
            p,
        ),
{
    let id = ids[n];
    let post = if p(id) {
        r.push(id)
    } else {
        r
    };
    let head = ids.take(n);
    assert(ids.take(n + 1) =~= head.push(id));
    assert forall|a: int| 0 <= a < r.len() implies r[a] < id by {
        assert(r.contains(r[a]));
        assert(head.contains(r[a]));
        let b = choose|b: int| 0 <= b < head.len() && head[b] == r[a];
        assert(ids[b] < ids[n]);
    }
    assert forall|k: usize| #[trigger] post.contains(k) <==> ids.take(n + 1).contains(k) && p(k) by {
        lemma_push_contains(head, id, k);
        lemma_push_contains(r, id, k);
        assert(r.contains(k) <==> head.contains(k) && p(k));
    }
}

/// Takes every `x` out of the queue.
pub fn take_out(q: &mut VecDeque<usize>, x: usize)
    ensures
        final(q)@ == without(old(q)@, x),
{
    let ghost all = q@;
    let ghost keep = other_than(x);
    let mut kept: VecDeque<usize> = VecDeque::new();
    let mut i: usize = 0;
    proof {
        assert(all.take(0).filter(keep) =~= Seq::empty()) by {
            reveal(Seq::filter);
        }
    }
    while i < q.len()
        invariant
            i <= all.len(),
            q@ == all,
            keep == other_than(x),
            kept@ == all.take(i as int).filter(keep),
        decreases all.len() - i,
    {
        proof {
            lemma_filter_take(all, i as int, keep);
        }
        let y: usize = q[i];
        if y != x {
            kept.push_back(y);
        }
        i = i + 1;
    }
    proof {
        assert(all.take(i as int) =~= all);
    }
    *q = kept;
}

/// Takes every `x` out of the list.
pub fn strike(v: &mut Vec<usize>, x: usize)
    ensures
        final(v)@ == without(old(v)@, x),
{
    let ghost all = v@;
    let ghost keep = other_than(x);
    let mut kept: Vec<usize> = Vec::new();
    let mut i: usize = 0;
    proof {
        assert(all.take(0).filter(keep) =~= Seq::empty()) by {
            reveal(Seq::filter);
        }
    }
    while i < v.len()
        invariant
            i <= all.len(),
            v@ == all,
            keep == other_than(x),
            kept@ == all.take(i as int).filter(keep),
        decreases all.len() - i,
    {
        proof {
            lemma_filter_take(all, i as int, keep);
        }
        let y: usize = v[i];
        if y != x {
            kept.push(y);
        }
        i = i + 1;
    }
    proof {
        assert(all.take(i as int) =~= all);
    }
    *v = kept;
}

/// Filtering a prefix one element longer adds that element when it passes.
pub proof fn lemma_filter_take<A>(s: Seq<A>, i: int, p: spec_fn(A) -> bool)
    requires
        0 <= i < s.len(),
    ensures
        s.take(i + 1).filter(p) == (if p(s[i]) {
            s.take(i).filter(p).push(s[i])
        } else {
            s.take(i).filter(p)
        }),
{
    reveal(Seq::filter);
    assert(s.take(i + 1).drop_last() =~= s.take(i));
}

/// What a filter lets through are the elements that pass.
pub proof fn lemma_filter_holds<A>(s: Seq<A>, p: spec_fn(A) -> bool, e: A)
    ensures
        s.filter(p).contains(e) <==> s.contains(e) && p(e),
    decreases s.len(),
{
    reveal(Seq::filter);
    if s.len() > 0 {
        let t = s.drop_last();
        lemma_filter_holds(t, p, e);
        assert(s =~= t.push(s.last()));
        if s.contains(e) && e != s.last() {
            let i = choose|i: int| 0 <= i < s.len() && s[i] == e;
            assert(t[i] == e);
        }
        if t.contains(e) {
            let i = choose|i: int| 0 <= i < t.len() && t[i] == e;
            assert(s[i] == e);
        }
        assert(s[s.len() - 1] == s.last());
        let f = t.filter(p);
        if p(s.last()) {
            assert(f.push(s.last())[f.len() as int] == s.last());
            if f.contains(e) {
                let i = choose|i: int| 0 <= i < f.len() && f[i] == e;
                assert(f.push(s.last())[i] == e);
            }
            if f.push(s.last()).contains(e) && e != s.last() {
                let i = choose|i: int| 0 <= i < f.push(s.last()).len() && f.push(s.last())[i] == e;
                assert(f[i] == e);
            }
        }
    }
}

/// The first element of a rest may as well stand at the end of what precedes it.
pub proof fn lemma_shift<A>(kept: Seq<A>, s: Seq<A>, i: int)
    requires
        0 <= i < s.len(),
    ensures
        kept + s.skip(i) == kept.push(s[i]) + s.skip(i + 1),
        (kept + s.skip(i)).remove(kept.len() as int) == kept + s.skip(i + 1),
        (kept + s.skip(i))[kept.len() as int] == s[i],
{
    assert(kept + s.skip(i) =~= kept.push(s[i]) + s.skip(i + 1));
    assert((kept + s.skip(i)).remove(kept.len() as int) =~= kept + s.skip(i + 1));
}

/// Two increasing sequences with the same elements are equal.
pub proof fn lemma_ascending_unique(a: Seq<usize>, b: Seq<usize>)
    requires
        ascending(a),
        ascending(b),
        forall|k: usize| a.contains(k) <==> b.contains(k),
    ensures
        a == b,
    decreases a.len(),
{
    if a.len() == 0 {
        if b.len() > 0 {
            assert(b.contains(b[0]));
        }
    } else if b.len() == 0 {
        assert(a.contains(a[0]));
    } else {
        assert(a.contains(a.last()) && b.contains(b.last()));
        assert(a.last() == b.last());
        let (a1, b1) = (a.drop_last(), b.drop_last());
        assert forall|k: usize| a1.contains(k) <==> b1.contains(k) by {
            if a1.contains(k) {
                let i = choose|i: int| 0 <= i < a1.len() && a1[i] == k;
                assert(a[i] == k);
                assert(b.contains(k));
                let j = choose|j: int| 0 <= j < b.len() && b[j] == k;
                assert(b1[j] == k);
            }
            if b1.contains(k) {
                let i = choose|i: int| 0 <= i < b1.len() && b1[i] == k;
                assert(b[i] == k);
                assert(a.contains(k));
                let j = choose|j: int| 0 <= j < a.len() && a[j] == k;
                assert(a1[j] == k);
            }
        }
        lemma_ascending_unique(a1, b1);
        assert(a =~= a1.push(a.last()));
        assert(b =~= b1.push(b.last()));
    }
}

/// The elements of a set of numbers in increasing order.
pub open spec fn in_order(d: Set<usize>) -> Seq<usize> {
    choose|s: Seq<usize>| is_listing(s, d)
}

/// `s` lists the elements of `d` in increasing order.
pub open spec fn is_listing(s: Seq<usize>, d: Set<usize>) -> bool {
    &&& ascending(s)
    &&& forall|k: usize| #[trigger] s.contains(k) <==> d.contains(k)
}

/// What lists the elements of a set in increasing order is `in_order` of it.
pub proof fn lemma_in_order(s: Seq<usize>, d: Set<usize>)
    requires
        is_listing(s, d),
    ensures
        in_order(d) == s,
{
    let t = in_order(d);
    assert(is_listing(t, d));
    assert forall|k: usize| s.contains(k) <==> t.contains(k) by {}
    lemma_ascending_unique(s, t);
}

/// Every set of numbers below `bound` can be listed in increasing order.
proof fn lemma_listing_below(d: Set<usize>, bound: int) -> (s: Seq<usize>)
    requires
        0 <= bound <= usize::MAX + 1,
        forall|k: usize| #[trigger] d.contains(k) ==> k < bound,
    ensures
        is_listing(s, d),
    decreases bound,
{
    if bound == 0 {
        let s = Seq::<usize>::empty();
        assert forall|k: usize| #[trigger] s.contains(k) <==> d.contains(k) by {}
        s
    } else {
        let last = (bound - 1) as usize;
        let s = lemma_listing_below(d.remove(last), bound - 1);
        if d.contains(last) {
            let t = s.push(last);
            assert forall|k: usize| #[trigger] t.contains(k) <==> d.contains(k) by {
                lemma_push_contains(s, last, k);
                assert(s.contains(k) <==> d.remove(last).contains(k));
            }
            assert forall|i: int, j: int| 0 <= i < j < t.len() implies t[i] < t[j] by {
                assert(s.contains(s[i]));
            }
            t
        } else {
            assert(d.remove(last) =~= d);
            s
        }
    }
}

/// `in_order` lists the elements of every set.
pub proof fn lemma_in_order_lists(d: Set<usize>)
    ensures
        is_listing(in_order(d), d),
{
    let s = lemma_listing_below(d, usize::MAX + 1);
    lemma_in_order(s, d);
}

/// The keys of `m` in increasing order.
pub fn ordered_keys<V>(m: &BTreeMap<usize, V>) -> (v: Vec<usize>)
    ensures
        v@ == in_order(m@.dom()),
        is_listing(v@, m@.dom()),
{
    let v = sorted_keys(m);
    proof {
        assert(is_listing(v@, m@.dom()));
        lemma_in_order(v@, m@.dom());
    }
    v
}

/// How often `x` stands in the sequence.
pub open spec fn times(s: Seq<usize>, x: usize) -> nat
    decreases s.len(),
{
    if s.len() == 0 {
        0
    } else {
        times(s.drop_last(), x) + if s.last() == x {
            1nat
        } else {
            0nat
        }
    }
}

/// One element more counts once more for itself.
pub proof fn lemma_times_take(s: Seq<usize>, n: int, x: usize)
    requires
        0 <= n < s.len(),
    ensures
        times(s.take(n + 1), x) == times(s.take(n), x) + if s[n] == x {
            1nat
        } else {
            0nat
        },
{
    assert(s.take(n + 1).drop_last() =~= s.take(n));
}

/// A number that a sequence holds is counted, and one that it does not hold is not; in a
/// sequence without repetition it is counted once.
pub proof fn lemma_times_counts(s: Seq<usize>, x: usize)
    ensures
        s.contains(x) <==> times(s, x) > 0,
        s.no_duplicates() && s.contains(x) ==> times(s, x) == 1,
    decreases s.len(),
{
    if s.len() > 0 {
        let t = s.drop_last();
        lemma_times_counts(t, x);
        assert(s =~= t.push(s.last()));
        lemma_push_contains(t, s.last(), x);
        if s.no_duplicates() {
            assert(t.no_duplicates());
            if s.last() == x && t.contains(x) {
                let i = choose|i: int| 0 <= i < t.len() && t[i] == x;
                assert(s[i] == s[s.len() - 1]);
            }
        }
    }
}

/// What a test leaves of an increasing sequence is increasing.
pub proof fn lemma_ascending_filter(s: Seq<usize>, p: spec_fn(usize) -> bool)
    requires
        ascending(s),
    ensures
        ascending(s.filter(p)),
    decreases s.len(),
{
    reveal(Seq::filter);
    if s.len() > 0 {
        let t = s.drop_last();
        lemma_ascending_filter(t, p);
        let f = t.filter(p);
        if p(s.last()) {
            assert forall|i: int, j: int| 0 <= i < j < f.push(s.last()).len() implies f.push(
                s.last(),
            )[i] < f.push(s.last())[j] by {
                if j == f.len() {
                    assert(f.contains(f[i]));
                    lemma_filter_holds(t, p, f[i]);
                    let k = choose|k: int| 0 <= k < t.len() && t[k] == f[i];
                    assert(s[k] < s[s.len() - 1]);
                }
            }
        }
    }
}

} // verus!
