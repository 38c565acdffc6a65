//! Stable binary insertion sort by an integer key, with its specification: the
//! output is ordered by key and, for every key, lists the elements that carry
//! it in the order in which the input lists them.

use vstd::prelude::*;

verus! {

broadcast use vstd::seq_lib::group_seq_properties;

/// A value ordered by an integer key.
pub trait SortKey {
    /// The key by which values are ordered.
    spec fn spec_key(&self) -> int;

    /// Whether this value's key is at most `other`'s.
    fn key_le(&self, other: &Self) -> (b: bool)
        ensures
            b == (self.spec_key() <= other.spec_key()),
    ;
}

/// The sequence is in non-decreasing order of key.
pub open spec fn key_sorted<T: SortKey>(s: Seq<T>) -> bool {
    forall|i: int, j: int| 0 <= i <= j < s.len() ==> s[i].spec_key() <= s[j].spec_key()
}

/// The predicate "carries key `k`".
pub open spec fn has_key<T: SortKey>(k: int) -> spec_fn(T) -> bool {
    |x: T| x.spec_key() == k
}

/// `after` is the stable sort of `before` by key: it is ordered by key, and
/// for each key it holds the elements of `before` with that key, in their
/// order in `before`.
pub open spec fn stable_sorted<T: SortKey>(before: Seq<T>, after: Seq<T>) -> bool {
    &&& key_sorted(after)
    &&& forall|k: int| #[trigger] after.filter(has_key::<T>(k)) == before.filter(has_key::<T>(k))
}

/// A sequence none of whose elements satisfies `p` filters to nothing.
pub proof fn lemma_filter_none<T>(s: Seq<T>, p: spec_fn(T) -> bool)
    requires
        forall|i: int| 0 <= i < s.len() ==> !p(s[i]),
    ensures
        s.filter(p) == Seq::<T>::empty(),
    decreases s.len(),
{
    reveal(Seq::filter);
    if s.len() > 0 {
        lemma_filter_none(s.drop_last(), p);
    }
}

/// Every element of a stable sort comes from the sorted input.
pub proof fn lemma_stable_sorted_members<T: SortKey>(before: Seq<T>, after: Seq<T>, k: int)
    requires
        stable_sorted(before, after),
        0 <= k < after.len(),
    ensures
        before.contains(after[k]),
{
    let p = has_key::<T>(after[k].spec_key());
    after.lemma_filter_contains(p, k);
    assert(after.filter(p) == before.filter(p));
    before.lemma_filter_contains_rev(p, after[k]);
}

/// Filtering twice by the same predicate filters once.
pub proof fn lemma_filter_idempotent<T>(s: Seq<T>, p: spec_fn(T) -> bool)
    ensures
        s.filter(p).filter(p) == s.filter(p),
    decreases s.len(),
{
    reveal(Seq::filter);
    if s.len() > 0 {
        lemma_filter_idempotent(s.drop_last(), p);
        s.drop_last().filter(p).lemma_filter_push(s.last(), p);
    }
}

/// Filtering by two predicates that agree on every element gives the same
/// sequence.
pub proof fn lemma_filter_congruent<T>(s: Seq<T>, p1: spec_fn(T) -> bool, p2: spec_fn(T) -> bool)
    requires
        forall|i: int| 0 <= i < s.len() ==> p1(s[i]) == p2(s[i]),
    ensures
        s.filter(p1) == s.filter(p2),
    decreases s.len(),
{
    reveal(Seq::filter);
    if s.len() > 0 {
        lemma_filter_congruent(s.drop_last(), p1, p2);
    }
}

/// Inserting `x` into a sorted sequence at its upper bound appends `x` to the
/// run of its key and leaves every other key's run unchanged.
proof fn lemma_insert_at_upper_bound<T: SortKey>(s: Seq<T>, j: int, x: T, k: int)
    requires
        0 <= j <= s.len(),
        forall|i: int| 0 <= i < j ==> s[i].spec_key() <= x.spec_key(),
        forall|i: int| j <= i < s.len() ==> s[i].spec_key() > x.spec_key(),
    ensures
        s.insert(j, x).filter(has_key::<T>(k)) == if x.spec_key() == k {
            s.filter(has_key::<T>(k)).push(x)
        } else {
            s.filter(has_key::<T>(k))
        },
{
    let p = has_key::<T>(k);
    let a = s.take(j);
    let b = s.skip(j);
    assert(s == a + b);
    assert(s.insert(j, x) == a.push(x) + b);
    Seq::filter_distributes_over_add(a, b, p);
    Seq::filter_distributes_over_add(a.push(x), b, p);
    a.lemma_filter_push(x, p);
    if x.spec_key() == k {
        assert forall|i: int| 0 <= i < b.len() implies !p(b[i]) by {
            assert(b[i] == s[j + i]);
        }
        lemma_filter_none(b, p);
        assert(b.filter(p) == Seq::<T>::empty());
        assert(a.filter(p) + b.filter(p) == a.filter(p));
        assert(a.filter(p).push(x) + b.filter(p) == a.filter(p).push(x));
    }
}

/// Sorts `v` by key, stably.
pub fn stable_sort_by_key<T: SortKey + Copy>(v: &Vec<T>) -> (r: Vec<T>)
    ensures
        stable_sorted(v@, r@),
        r@.len() == v@.len(),
{
    let mut out: Vec<T> = Vec::new();
    let n = v.len();
    let mut i: usize = 0;
    while i < n
        invariant
            n == v.len(),
            0 <= i <= n,
            out@.len() == i,
            key_sorted(out@),
            forall|k: int| #[trigger] out@.filter(has_key::<T>(k)) == v@.take(i as int).filter(
                has_key::<T>(k),
            ),
        decreases n - i,
    {
        let x = v[i];
        // Binary search for the first position whose key exceeds `x`'s.
        let mut j: usize = 0;
        let mut hi: usize = out.len();
        while j < hi
            invariant
                0 <= j <= hi <= out@.len(),
                key_sorted(out@),
                forall|m: int| 0 <= m < j ==> out@[m].spec_key() <= x.spec_key(),
                forall|m: int| hi <= m < out@.len() ==> out@[m].spec_key() > x.spec_key(),
            decreases hi - j,
        {
            let mid = j + (hi - j) / 2;
            if out[mid].key_le(&x) {
                j = mid + 1;
            } else {
                hi = mid;
            }
        }
        let ghost before = out@;
        out.insert(j, x);
        proof {
            assert(v@.take(i + 1) == v@.take(i as int).push(x));
            assert forall|k: int| #[trigger] out@.filter(has_key::<T>(k)) == v@.take(
                i + 1,
            ).filter(has_key::<T>(k)) by {
                lemma_insert_at_upper_bound(before, j as int, x, k);
                v@.take(i as int).lemma_filter_push(x, has_key::<T>(k));
            }
            assert forall|a: int, b: int| 0 <= a <= b < out@.len() implies out@[a].spec_key()
                <= out@[b].spec_key() by {
                if a < j && b > j {
                    assert(out@[a] == before[a]);
                    assert(out@[b] == before[b - 1]);
                } else if a < j && b == j {
                } else if a == j && b > j {
                    assert(out@[b] == before[b - 1]);
                } else if a < j && b < j {
                } else if a > j {
                    assert(out@[a] == before[a - 1]);
                    assert(out@[b] == before[b - 1]);
                }
            }
        }
        i = i + 1;
    }
    assert(v@.take(n as int) == v@);
    out
}

/// The stable sort of `s` by key.
pub open spec fn key_sort<T: SortKey>(s: Seq<T>) -> Seq<T> {
    choose|r: Seq<T>| stable_sorted(s, r)
}

/// A sequence ordered by key with a nonempty run for key `k` ends with an
/// element whose key is at least `k`.
proof fn lemma_last_key_bounds<T: SortKey>(r: Seq<T>, k: int)
    requires
        key_sorted(r),
        r.filter(has_key::<T>(k)).len() > 0,
    ensures
        r.len() > 0,
        k <= r.last().spec_key(),
{
    let p = has_key::<T>(k);
    let f = r.filter(p);
    r.lemma_filter_len(p);
    r.lemma_filter_pred(p, 0);
    assert(f.contains(f[0]));
    r.lemma_filter_contains_rev(p, f[0]);
    let i = choose|i: int| 0 <= i < r.len() && r[i] == f[0];
    assert(r[i].spec_key() <= r[r.len() - 1].spec_key());
}

/// Two sequences ordered by key with the same run for every key are equal:
/// the stable sort of a sequence is unique.
pub proof fn lemma_stable_sort_unique<T: SortKey>(r1: Seq<T>, r2: Seq<T>)
    requires
        key_sorted(r1),
        key_sorted(r2),
        forall|k: int| #[trigger] r1.filter(has_key::<T>(k)) == r2.filter(has_key::<T>(k)),
    ensures
        r1 == r2,
    decreases r1.len() + r2.len(),
{
    reveal(Seq::filter);
    if r1.len() == 0 && r2.len() == 0 {
        assert(r1 == r2);
    } else if r1.len() == 0 {
        let k = r2.last().spec_key();
        r2.drop_last().lemma_filter_push(r2.last(), has_key::<T>(k));
        assert(r2.drop_last().push(r2.last()) == r2);
        assert(r1.filter(has_key::<T>(k)).len() == 0);
    } else if r2.len() == 0 {
        let k = r1.last().spec_key();
        r1.drop_last().lemma_filter_push(r1.last(), has_key::<T>(k));
        assert(r1.drop_last().push(r1.last()) == r1);
        assert(r2.filter(has_key::<T>(k)).len() == 0);
    } else {
        let (x1, x2) = (r1.last(), r2.last());
        let (s1, s2) = (r1.drop_last(), r2.drop_last());
        assert(s1.push(x1) == r1);
        assert(s2.push(x2) == r2);
        let (k1, k2) = (x1.spec_key(), x2.spec_key());
        s1.lemma_filter_push(x1, has_key::<T>(k1));
        s2.lemma_filter_push(x2, has_key::<T>(k2));
        assert(r1.filter(has_key::<T>(k1)).len() > 0);
        assert(r2.filter(has_key::<T>(k2)).len() > 0);
        assert(r2.filter(has_key::<T>(k1)) == r1.filter(has_key::<T>(k1)));
        assert(r1.filter(has_key::<T>(k2)) == r2.filter(has_key::<T>(k2)));
        lemma_last_key_bounds(r2, k1);
        lemma_last_key_bounds(r1, k2);
        assert(k1 == k2);
        assert(x1 == r1.filter(has_key::<T>(k1)).last());
        assert(x2 == r2.filter(has_key::<T>(k1)).last());
        assert(x1 == x2);
        assert forall|k: int| #[trigger] s1.filter(has_key::<T>(k)) == s2.filter(has_key::<T>(k)) by {
            s1.lemma_filter_push(x1, has_key::<T>(k));
            s2.lemma_filter_push(x2, has_key::<T>(k));
            assert(r1.filter(has_key::<T>(k)) == r2.filter(has_key::<T>(k)));
            if k == k1 {
                assert(s1.filter(has_key::<T>(k)) == r1.filter(has_key::<T>(k)).drop_last());
                assert(s2.filter(has_key::<T>(k)) == r2.filter(has_key::<T>(k)).drop_last());
            }
        }
        lemma_stable_sort_unique(s1, s2);
    }
}

/// What `stable_sort_by_key` returns is `key_sort` of its input.
pub proof fn lemma_stable_sorted_is_key_sort<T: SortKey>(s: Seq<T>, r: Seq<T>)
    requires
        stable_sorted(s, r),
    ensures
        r == key_sort(s),
{
    let r2 = key_sort(s);
    assert(stable_sorted(s, r2));
    assert forall|k: int| #[trigger] r.filter(has_key::<T>(k)) == r2.filter(has_key::<T>(k)) by {
        assert(r.filter(has_key::<T>(k)) == s.filter(has_key::<T>(k)));
        assert(r2.filter(has_key::<T>(k)) == s.filter(has_key::<T>(k)));
    }
    lemma_stable_sort_unique(r, r2);
}

/// A sequence all of whose elements satisfy `p` filters to itself.
pub proof fn lemma_filter_all<T>(s: Seq<T>, p: spec_fn(T) -> bool)
    requires
        forall|i: int| 0 <= i < s.len() ==> p(s[i]),
    ensures
        s.filter(p) == s,
    decreases s.len(),
{
    if s.len() > 0 {
        let s0 = s.drop_last();
        lemma_filter_all(s0, p);
        s0.lemma_filter_push(s.last(), p);
        assert(s0.push(s.last()) == s);
    }
}

/// Filtering by `p` then `q` gives what filtering by `q` then `p` gives.
pub proof fn lemma_filter_commute<T>(s: Seq<T>, p: spec_fn(T) -> bool, q: spec_fn(T) -> bool)
    ensures
        s.filter(p).filter(q) == s.filter(q).filter(p),
    decreases s.len(),
{
    if s.len() > 0 {
        let s0 = s.drop_last();
        let x = s.last();
        assert(s0.push(x) == s);
        lemma_filter_commute(s0, p, q);
        s0.lemma_filter_push(x, p);
        s0.lemma_filter_push(x, q);
        s0.filter(p).lemma_filter_push(x, q);
        s0.filter(q).lemma_filter_push(x, p);
    }
}

/// Filtering keeps elements in their order: a relation that holds of every
/// pair of elements in order in `s` holds of every such pair in
/// `s.filter(p)`.
pub proof fn lemma_filter_keeps_order<T>(
    s: Seq<T>,
    p: spec_fn(T) -> bool,
    le: spec_fn(T, T) -> bool,
)
    requires
        forall|i: int, j: int| 0 <= i <= j < s.len() ==> #[trigger] le(s[i], s[j]),
    ensures
        forall|i: int, j: int|
            0 <= i <= j < s.filter(p).len() ==> #[trigger] le(s.filter(p)[i], s.filter(p)[j]),
    decreases s.len(),
{
    if s.len() > 0 {
        let s0 = s.drop_last();
        let x = s.last();
        assert(s0.push(x) == s);
        assert forall|i: int, j: int| 0 <= i <= j < s0.len() implies #[trigger] le(s0[i], s0[j]) by {
            assert(s0[i] == s[i] && s0[j] == s[j]);
        }
        lemma_filter_keeps_order(s0, p, le);
        s0.lemma_filter_push(x, p);
        let f0 = s0.filter(p);
        if p(x) {
            let f = f0.push(x);
            assert forall|i: int, j: int| 0 <= i <= j < f.len() implies #[trigger] le(f[i], f[j]) by {
                if j == f0.len() {
                    if i == f0.len() {
                        assert(le(s[s.len() - 1], s[s.len() - 1]));
                    } else {
                        s0.lemma_filter_contains_rev(p, f0[i]);
                        let k = choose|k: int| 0 <= k < s0.len() && s0[k] == f0[i];
                        assert(le(s[k], s[s.len() - 1]));
                    }
                } else {
                    assert(f[i] == f0[i] && f[j] == f0[j]);
                }
            }
        }
    }
}

/// Sorting stably by key does not reorder a part of the input that is
/// already ordered by key: if the elements of `before` satisfying `p` are in
/// key order, `after` lists them in the same order.
pub proof fn lemma_stable_sort_keeps_sorted_part<T: SortKey>(
    before: Seq<T>,
    after: Seq<T>,
    p: spec_fn(T) -> bool,
)
    requires
        stable_sorted(before, after),
        key_sorted(before.filter(p)),
    ensures
        after.filter(p) == before.filter(p),
{
    let le = |a: T, b: T| a.spec_key() <= b.spec_key();
    assert forall|i: int, j: int| 0 <= i <= j < after.len() implies #[trigger] le(after[i], after[j]) by {}
    lemma_filter_keeps_order(after, p, le);
    assert forall|i: int, j: int| 0 <= i <= j < after.filter(p).len() implies after.filter(p)[i].spec_key()
        <= after.filter(p)[j].spec_key() by {
        assert(le(after.filter(p)[i], after.filter(p)[j]));
    }
    assert forall|k: int| #[trigger] after.filter(p).filter(has_key::<T>(k)) == before.filter(p).filter(
        has_key::<T>(k),
    ) by {
        lemma_filter_commute(after, p, has_key::<T>(k));
        lemma_filter_commute(before, p, has_key::<T>(k));
        assert(after.filter(has_key::<T>(k)) == before.filter(has_key::<T>(k)));
    }
    lemma_stable_sort_unique(after.filter(p), before.filter(p));
}

} // verus!
