use vstd::prelude::*;
use vstd::seq_lib::*;
use crate::text::views;

verus! {

/// Lexicographic order on character sequences, comparing chars (by code
/// point); for
/// valid UTF-8 this is the order of `str` and `String` (byte-wise).
pub open spec fn seq_le(a: Seq<char>, b: Seq<char>) -> bool
    decreases a.len(),
{
    if a.len() == 0 {
        true
    } else if b.len() == 0 {
        false
    } else if a[0] != b[0] {
        a[0] < b[0]
    } else {
        seq_le(a.drop_first(), b.drop_first())
    }
}

/// Each element is at most every later one.
pub open spec fn is_sorted(s: Seq<Seq<char>>) -> bool {
    forall|i: int, j: int| 0 <= i < j < s.len() ==> seq_le(#[trigger] s[i], #[trigger] s[j])
}

pub proof fn lemma_le_total(a: Seq<char>, b: Seq<char>)
    ensures
        seq_le(a, b) || seq_le(b, a),
    decreases a.len(),
{
    if a.len() > 0 && b.len() > 0 {
        if a[0] == b[0] {
            lemma_le_total(a.drop_first(), b.drop_first());
        }
    }
}

pub proof fn lemma_le_trans(a: Seq<char>, b: Seq<char>, c: Seq<char>)
    requires
        seq_le(a, b),
        seq_le(b, c),
    ensures
        seq_le(a, c),
    decreases a.len(),
{
    if a.len() > 0 && b.len() > 0 && c.len() > 0 && a[0] == b[0] && b[0] == c[0] {
        lemma_le_trans(a.drop_first(), b.drop_first(), c.drop_first());
    }
}

pub proof fn lemma_le_antisym(a: Seq<char>, b: Seq<char>)
    requires
        seq_le(a, b),
        seq_le(b, a),
    ensures
        a == b,
    decreases a.len(),
{
    if a.len() > 0 && b.len() > 0 {
        lemma_le_antisym(a.drop_first(), b.drop_first());
        assert(a =~= seq![a[0]] + a.drop_first());
        assert(b =~= seq![b[0]] + b.drop_first());
    } else {
        assert(a =~= b);
    }
}

/// Where insertion sort puts `x` into the sorted `t`: before the first
/// element that is not at most `x` (so after every equal element).
pub open spec fn insert_pos(t: Seq<Seq<char>>, x: Seq<char>) -> int
    decreases t.len(),
{
    if t.len() == 0 {
        0
    } else if !seq_le(t[0], x) {
        0
    } else {
        1 + insert_pos(t.drop_first(), x)
    }
}

/// The stable ascending sort of `s` (insertion sort, element by element).
pub open spec fn sort_seq(s: Seq<Seq<char>>) -> Seq<Seq<char>>
    decreases s.len(),
{
    if s.len() == 0 {
        s
    } else {
        let t = sort_seq(s.drop_last());
        t.insert(insert_pos(t, s.last()), s.last())
    }
}

proof fn lemma_insert_pos(t: Seq<Seq<char>>, x: Seq<char>, p: int)
    requires
        0 <= p <= t.len(),
        forall|q: int| 0 <= q < p ==> seq_le(#[trigger] t[q], x),
        p == t.len() || !seq_le(t[p], x),
    ensures
        insert_pos(t, x) == p,
    decreases t.len(),
{
    if t.len() > 0 && p > 0 {
        assert(seq_le(t[0], x));
        assert forall|q: int| 0 <= q < p - 1 implies seq_le(#[trigger] t.drop_first()[q], x) by {
            assert(t.drop_first()[q] == t[q + 1]);
        }
        if p < t.len() {
            assert(t.drop_first()[p - 1] == t[p]);
        }
        lemma_insert_pos(t.drop_first(), x, p - 1);
    }
}

/// Every sequence is at most itself.
pub proof fn lemma_le_refl(a: Seq<char>)
    ensures
        seq_le(a, a),
{
    lemma_le_total(a, a);
}

proof fn lemma_insert_pos_bounds(t: Seq<Seq<char>>, x: Seq<char>)
    ensures
        0 <= insert_pos(t, x) <= t.len(),
        forall|q: int| 0 <= q < insert_pos(t, x) ==> seq_le(#[trigger] t[q], x),
        insert_pos(t, x) < t.len() ==> !seq_le(t[insert_pos(t, x)], x),
    decreases t.len(),
{
    if t.len() > 0 && seq_le(t[0], x) {
        let d = t.drop_first();
        lemma_insert_pos_bounds(d, x);
        assert forall|q: int| 0 <= q < insert_pos(t, x) implies seq_le(#[trigger] t[q], x) by {
            if q > 0 {
                assert(t[q] == d[q - 1]);
            }
        }
        if insert_pos(t, x) < t.len() {
            assert(t[insert_pos(t, x)] == d[insert_pos(d, x)]);
        }
    }
}

/// `sort_seq` sorts: its result is in ascending order and holds the same
/// elements, each as often, as its argument.
pub proof fn lemma_sort_seq(s: Seq<Seq<char>>)
    ensures
        is_sorted(sort_seq(s)),
        sort_seq(s).to_multiset() == s.to_multiset(),
    decreases s.len(),
{
    broadcast use vstd::seq_lib::group_to_multiset_ensures;

    if s.len() > 0 {
        let t = sort_seq(s.drop_last());
        let x = s.last();
        lemma_sort_seq(s.drop_last());
        lemma_insert_pos_bounds(t, x);
        let p = insert_pos(t, x);
        let r = t.insert(p, x);
        assert(r == sort_seq(s));
        assert forall|q: int| p <= q < t.len() implies seq_le(x, #[trigger] t[q]) by {
            if q > p {
                assert(seq_le(t[p], t[q]));
                if seq_le(t[q], x) {
                    lemma_le_trans(t[p], t[q], x);
                }
            }
            lemma_le_total(t[q], x);
        }
        assert forall|a: int, b: int| 0 <= a < b < r.len() implies seq_le(#[trigger] r[a], #[trigger] r[b]) by {
            if b < p {
                assert(r[a] == t[a] && r[b] == t[b]);
            } else if b == p {
                assert(r[a] == t[a]);
            } else if a < p {
                assert(r[b] == t[b - 1]);
                assert(r[a] == t[a]);
                lemma_le_trans(t[a], x, t[b - 1]);
            } else if a == p {
                assert(r[b] == t[b - 1]);
            } else {
                assert(r[a] == t[a - 1]);
                assert(r[b] == t[b - 1]);
            }
        }
        assert(s =~= s.drop_last().push(x));
        vstd::seq_lib::to_multiset_build(s.drop_last(), x);
        vstd::seq_lib::to_multiset_insert(t, p, x);
    }
}

/// Two sorted sequences with the same elements, each as often, are equal:
/// sorting has only one possible result.
pub proof fn lemma_sorted_unique(a: Seq<Seq<char>>, b: Seq<Seq<char>>)
    requires
        is_sorted(a),
        is_sorted(b),
        a.to_multiset() == b.to_multiset(),
    ensures
        a == b,
    decreases a.len(),
{
    broadcast use vstd::seq_lib::group_to_multiset_ensures;

    vstd::seq_lib::to_multiset_len(a);
    vstd::seq_lib::to_multiset_len(b);
    if a.len() == 0 {
        assert(a =~= b);
    } else {
        vstd::seq_lib::to_multiset_contains(a, a[0]);
        vstd::seq_lib::to_multiset_contains(b, a[0]);
        vstd::seq_lib::to_multiset_contains(b, b[0]);
        vstd::seq_lib::to_multiset_contains(a, b[0]);
        assert(b.contains(a[0]));
        let i = choose|i: int| 0 <= i < b.len() && b[i] == a[0];
        assert(a.contains(b[0]));
        let j = choose|j: int| 0 <= j < a.len() && a[j] == b[0];
        if i > 0 {
            assert(seq_le(b[0], b[i]));
        } else {
            lemma_le_refl(b[0]);
        }
        if j > 0 {
            assert(seq_le(a[0], a[j]));
        } else {
            lemma_le_refl(a[0]);
        }
        lemma_le_antisym(a[0], b[0]);
        vstd::seq_lib::to_multiset_remove(a, 0);
        vstd::seq_lib::to_multiset_remove(b, 0);
        assert(a.remove(0) =~= a.drop_first());
        assert(b.remove(0) =~= b.drop_first());
        let a1 = a.drop_first();
        let b1 = b.drop_first();
        assert forall|x: int, y: int| 0 <= x < y < a1.len() implies seq_le(#[trigger] a1[x], #[trigger] a1[y]) by {
            assert(a1[x] == a[x + 1] && a1[y] == a[y + 1]);
        }
        assert forall|x: int, y: int| 0 <= x < y < b1.len() implies seq_le(#[trigger] b1[x], #[trigger] b1[y]) by {
            assert(b1[x] == b[x + 1] && b1[y] == b[y + 1]);
        }
        lemma_sorted_unique(a1, b1);
        assert(a =~= b) by {
            assert forall|k: int| 0 <= k < a.len() implies a[k] == b[k] by {
                if k > 0 {
                    assert(a[k] == a1[k - 1] && b[k] == b1[k - 1]);
                }
            }
        }
    }
}

/// `a <= b` in the order of `seq_le`.
pub fn str_le(a: &str, b: &str) -> (r: bool)
    ensures
        r == seq_le(a@, b@),
{
    let n = a.unicode_len();
    let m = b.unicode_len();
    let mut i: usize = 0;
    assert(a@.skip(0) =~= a@);
    assert(b@.skip(0) =~= b@);
    while i < n && i < m
        invariant
            n == a@.len(),
            m == b@.len(),
            i <= n,
            i <= m,
            seq_le(a@, b@) == seq_le(a@.skip(i as int), b@.skip(i as int)),
        decreases n - i,
    {
        let ca = a.get_char(i);
        let cb = b.get_char(i);
        if ca != cb {
            assert(a@.skip(i as int)[0] == ca);
            assert(b@.skip(i as int)[0] == cb);
            return ca < cb;
        }
        assert(a@.skip(i as int).drop_first() =~= a@.skip(i + 1));
        assert(b@.skip(i as int).drop_first() =~= b@.skip(i + 1));
        i = i + 1;
    }
    i == n
}

/// The strings of `v` in ascending order; equal strings keep their order.
pub fn sorted_strings(v: &Vec<String>) -> (r: Vec<String>)
    ensures
        is_sorted(views(r@)),
        views(r@).to_multiset() == views(v@).to_multiset(),
        views(r@) == sort_seq(views(v@)),
        r.len() == v.len(),
{
    broadcast use vstd::seq_lib::group_to_multiset_ensures;

    let mut r: Vec<String> = Vec::new();
    let n = v.len();
    proof {
        assert(views(r@) =~= Seq::<Seq<char>>::empty());
        assert(views(v@.subrange(0, 0)) =~= Seq::<Seq<char>>::empty());
        assert(sort_seq(views(v@.subrange(0, 0))) =~= Seq::<Seq<char>>::empty());
    }
    for i in 0..n
        invariant
            n == v.len(),
            r.len() == i,
            is_sorted(views(r@)),
            views(r@).to_multiset() == views(v@.subrange(0, i as int)).to_multiset(),
            views(r@) == sort_seq(views(v@.subrange(0, i as int))),
    {
        let x = v[i].clone();
        let mut p: usize = 0;
        while p < r.len() && str_le(r[p].as_str(), x.as_str())
            invariant
                p <= r.len(),
                forall|q: int| 0 <= q < p ==> seq_le(#[trigger] views(r@)[q], x@),
            decreases r.len() - p,
        {
            p = p + 1;
        }
        let ghost old_r = views(r@);
        proof {
            lemma_insert_pos(old_r, x@, p as int);
            let sub = views(v@.subrange(0, i + 1));
            assert(sub.drop_last() =~= views(v@.subrange(0, i as int)));
            assert(sub.last() == x@);
            assert forall|q: int| p <= q < old_r.len() implies seq_le(x@, #[trigger] old_r[q]) by {
                assert(!seq_le(old_r[p as int], x@));
                if q > p {
                    assert(seq_le(old_r[p as int], old_r[q]));
                    if seq_le(old_r[q], x@) {
                        lemma_le_trans(old_r[p as int], old_r[q], x@);
                    }
                }
                lemma_le_total(old_r[q], x@);
            }
        }
        r.insert(p, x);
        proof {
            let new_r = views(r@);
            assert(new_r =~= old_r.insert(p as int, v@[i as int]@));
            assert(views(v@.subrange(0, i + 1)) =~= views(v@.subrange(0, i as int)).push(v@[i as int]@));
            to_multiset_insert(old_r, p as int, v@[i as int]@);
            to_multiset_build(views(v@.subrange(0, i as int)), v@[i as int]@);
            assert forall|a: int, b: int| 0 <= a < b < new_r.len() implies seq_le(#[trigger] new_r[a], #[trigger] new_r[b]) by {
                if b < p {
                } else if b == p {
                } else if a < p {
                    assert(new_r[b] == old_r[b - 1]);
                    if a != p {
                        assert(seq_le(old_r[a], x@));
                        lemma_le_trans(old_r[a], x@, old_r[b - 1]);
                    }
                } else if a == p {
                } else {
                    assert(new_r[a] == old_r[a - 1]);
                    assert(new_r[b] == old_r[b - 1]);
                }
            }
        }
    }
    proof {
        assert(v@.subrange(0, n as int) =~= v@);
    }
    r
}

} // verus!

verus! {

/// Two sequences with the same elements (with multiplicity) hold the same set
/// of elements, and one is free of duplicates when the other is.
pub proof fn lemma_same_multiset<A>(s: Seq<A>, t: Seq<A>)
    requires
        s.to_multiset() == t.to_multiset(),
    ensures
        s.to_set() == t.to_set(),
        t.no_duplicates() ==> s.no_duplicates(),
{
    broadcast use vstd::seq_lib::group_to_multiset_ensures;

    assert(s.to_set() =~= t.to_set()) by {
        assert forall|x: A| s.contains(x) <==> #[trigger] t.contains(x) by {
            vstd::seq_lib::to_multiset_contains(s, x);
            vstd::seq_lib::to_multiset_contains(t, x);
        }
    }
    if t.no_duplicates() {
        t.lemma_multiset_has_no_duplicates();
        s.lemma_multiset_has_no_duplicates_conv();
    }
}

} // verus!
