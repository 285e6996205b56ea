//! The ordering that the tree is kept in, and facts about sorted sequences.
use core::cmp::Ordering;
use vstd::prelude::*;
use vstd::seq_lib::lemma_multiset_commutative;
use vstd::std_specs::cmp::PartialOrdSpec;

verus! {

/// `a` is strictly below `b`.
pub open spec fn lt<T: PartialOrd>(a: T, b: T) -> bool {
    a.partial_cmp_spec(&b) == Some(Ordering::Less)
}

/// `a` is below or equal to `b`.
pub open spec fn le<T: PartialOrd>(a: T, b: T) -> bool {
    a.partial_cmp_spec(&b) matches Some(Ordering::Less | Ordering::Equal)
}

/// `a` and `b` are ordered one way or the other.
pub open spec fn comparable<T: PartialOrd>(a: T, b: T) -> bool {
    a.partial_cmp_spec(&b) is Some
}

/// The laws that the element type's `partial_cmp` must obey: it is what
/// `partial_cmp_spec` says, `Equal` means identical, `Less` and `Greater`
/// are mirror images, and `Less` is transitive. Values may be incomparable.
pub open spec fn lawful_order<T: PartialOrd>() -> bool {
    &&& T::obeys_partial_cmp_spec()
    &&& forall|a: T, b: T| #[trigger] a.partial_cmp_spec(&b) == Some(Ordering::Equal) <==> a == b
    &&& forall|a: T, b: T|
        #![trigger a.partial_cmp_spec(&b), b.partial_cmp_spec(&a)]
        a.partial_cmp_spec(&b) == Some(Ordering::Less) <==> b.partial_cmp_spec(&a) == Some(
            Ordering::Greater,
        )
    &&& forall|a: T, b: T, c: T| #[trigger] lt(a, b) && #[trigger] lt(b, c) ==> lt(a, c)
}

/// Ascending order: every element is below or equal to every later one.
pub open spec fn sorted<T: PartialOrd>(s: Seq<T>) -> bool {
    forall|i: int, j: int| 0 <= i < j < s.len() ==> le(#[trigger] s[i], #[trigger] s[j])
}

/// Every two elements of `s` are comparable.
pub open spec fn all_comparable<T: PartialOrd>(s: Seq<T>) -> bool {
    forall|i: int, j: int|
        0 <= i < s.len() && 0 <= j < s.len() ==> comparable(#[trigger] s[i], #[trigger] s[j])
}

/// `v` is comparable with every element of `s`.
pub open spec fn comparable_with_all<T: PartialOrd>(s: Seq<T>, v: T) -> bool {
    forall|i: int| 0 <= i < s.len() ==> comparable(v, #[trigger] s[i])
}

/// `r` holds the elements of `s` in ascending order.
pub open spec fn is_sorted_permutation<T: PartialOrd>(s: Seq<T>, r: Seq<T>) -> bool {
    sorted(r) && r.to_multiset() == s.to_multiset()
}

pub proof fn lemma_le_trans<T: PartialOrd>(a: T, b: T, c: T)
    requires
        lawful_order::<T>(),
        le(a, b),
        le(b, c),
    ensures
        le(a, c),
{
    if a == b {
    } else if b == c {
    } else {
        assert(lt(a, b) && lt(b, c));
    }
}

pub proof fn lemma_lt_le_trans<T: PartialOrd>(a: T, b: T, c: T)
    requires
        lawful_order::<T>(),
        lt(a, b),
        le(b, c),
    ensures
        lt(a, c),
{
    if b == c {
    } else {
        assert(lt(b, c));
    }
}

pub proof fn lemma_comparable_symmetric<T: PartialOrd>(a: T, b: T)
    requires
        lawful_order::<T>(),
        comparable(a, b),
    ensures
        comparable(b, a),
{
    if a == b {
        assert(a.partial_cmp_spec(&a) == Some(Ordering::Equal));
    } else {
        assert(a.partial_cmp_spec(&b) != Some(Ordering::Equal));
        if a.partial_cmp_spec(&b) == Some(Ordering::Less) {
            assert(b.partial_cmp_spec(&a) == Some(Ordering::Greater));
        } else {
            assert(a.partial_cmp_spec(&b) == Some(Ordering::Greater));
            assert(b.partial_cmp_spec(&a) == Some(Ordering::Less));
        }
    }
}

/// Joining a sorted run, a pivot and a sorted run, with the pivot between
/// them, gives a sorted sequence.
pub proof fn lemma_sorted_join<T: PartialOrd>(l: Seq<T>, p: T, r: Seq<T>)
    requires
        lawful_order::<T>(),
        sorted(l),
        sorted(r),
        forall|i: int| 0 <= i < l.len() ==> le(#[trigger] l[i], p),
        forall|j: int| 0 <= j < r.len() ==> le(p, #[trigger] r[j]),
    ensures
        sorted(l + seq![p] + r),
{
    let s = l + seq![p] + r;
    assert forall|i: int, j: int| 0 <= i < j < s.len() implies le(#[trigger] s[i], #[trigger] s[j]) by {
        let n = l.len() as int;
        if j < n {
            assert(s[i] == l[i] && s[j] == l[j]);
        } else if j == n {
            assert(s[i] == l[i] && s[j] == p);
        } else if i > n {
            assert(s[i] == r[i - n - 1] && s[j] == r[j - n - 1]);
        } else if i == n {
            assert(s[i] == p && s[j] == r[j - n - 1]);
        } else {
            assert(s[i] == l[i] && s[j] == r[j - n - 1]);
            lemma_le_trans(l[i], p, r[j - n - 1]);
        }
    }
}

/// A sorted sequence stays sorted in any contiguous part.
pub proof fn lemma_sorted_subrange<T: PartialOrd>(s: Seq<T>, lo: int, hi: int)
    requires
        sorted(s),
        0 <= lo <= hi <= s.len(),
    ensures
        sorted(s.subrange(lo, hi)),
{
    let t = s.subrange(lo, hi);
    assert forall|i: int, j: int| 0 <= i < j < t.len() implies le(#[trigger] t[i], #[trigger] t[j]) by {
        assert(t[i] == s[lo + i] && t[j] == s[lo + j]);
    }
}

/// In a sorted sequence all elements are comparable with each other.
pub proof fn lemma_sorted_all_comparable<T: PartialOrd>(s: Seq<T>)
    requires
        lawful_order::<T>(),
        sorted(s),
    ensures
        all_comparable(s),
{
    assert forall|i: int, j: int| 0 <= i < s.len() && 0 <= j < s.len() implies comparable(
        #[trigger] s[i],
        #[trigger] s[j],
    ) by {
        if i < j {
            assert(le(s[i], s[j]));
        } else if j < i {
            assert(le(s[j], s[i]));
            lemma_comparable_symmetric(s[j], s[i]);
        } else {
            assert(s[i].partial_cmp_spec(&s[i]) == Some(Ordering::Equal));
        }
    }
}

/// `v` is comparable with all of `l + [p] + r` exactly when it is comparable
/// with all three parts.
pub proof fn lemma_comparable_with_join<T: PartialOrd>(l: Seq<T>, p: T, r: Seq<T>, v: T)
    ensures
        comparable_with_all(l + seq![p] + r, v) <==> (comparable_with_all(l, v) && comparable(v, p)
            && comparable_with_all(r, v)),
{
    let s = l + seq![p] + r;
    let n = l.len() as int;
    if comparable_with_all(s, v) {
        assert(s[n] == p);
        assert forall|i: int| 0 <= i < l.len() implies comparable(v, #[trigger] l[i]) by {
            assert(s[i] == l[i]);
        }
        assert forall|j: int| 0 <= j < r.len() implies comparable(v, #[trigger] r[j]) by {
            assert(s[n + 1 + j] == r[j]);
        }
    }
    if comparable_with_all(l, v) && comparable(v, p) && comparable_with_all(r, v) {
        assert forall|k: int| 0 <= k < s.len() implies comparable(v, #[trigger] s[k]) by {
            if k < n {
                assert(s[k] == l[k]);
            } else if k > n {
                assert(s[k] == r[k - n - 1]);
            }
        }
    }
}

/// The multiset of `l + [p] + r` is made of those of its parts.
pub proof fn lemma_join_multiset<T>(l: Seq<T>, p: T, r: Seq<T>)
    ensures
        (l + seq![p] + r).to_multiset() == l.to_multiset().insert(p).add(r.to_multiset()),
{
    broadcast use vstd::seq_lib::group_to_multiset_ensures;

    lemma_multiset_commutative(l + seq![p], r);
    assert(l + seq![p] == l.push(p));
}

/// Every element of `t` is an element of `s` or is `v`, where `t` holds the
/// elements of `s` and one more `v`.
pub proof fn lemma_members_after_insert<T>(s: Seq<T>, t: Seq<T>, v: T)
    requires
        t.to_multiset() == s.to_multiset().insert(v),
    ensures
        forall|i: int| 0 <= i < t.len() ==> s.contains(#[trigger] t[i]) || t[i] == v,
{
    broadcast use vstd::seq_lib::group_to_multiset_ensures;

    assert forall|i: int| 0 <= i < t.len() implies s.contains(#[trigger] t[i]) || t[i] == v by {
        assert(t.contains(t[i]));
        assert(t.to_multiset().count(t[i]) > 0);
    }
}

/// Every element of `t` is an element of `s`, where `t` holds the elements
/// of `s` less one `v`.
pub proof fn lemma_members_after_remove<T>(s: Seq<T>, t: Seq<T>, v: T)
    requires
        t.to_multiset() == s.to_multiset().remove(v),
    ensures
        forall|i: int| 0 <= i < t.len() ==> s.contains(#[trigger] t[i]),
{
    broadcast use vstd::seq_lib::group_to_multiset_ensures;

    assert forall|i: int| 0 <= i < t.len() implies s.contains(#[trigger] t[i]) by {
        assert(t.contains(t[i]));
        assert(t.to_multiset().count(t[i]) > 0);
    }
}

/// Growing the left run of `l + [p] + r` by one `v` below `p`, keeping that
/// run sorted, keeps the whole sorted and adds `v` to its elements.
pub proof fn lemma_join_grow_left<T: PartialOrd>(l: Seq<T>, l2: Seq<T>, p: T, r: Seq<T>, v: T)
    requires
        lawful_order::<T>(),
        sorted(l + seq![p] + r),
        sorted(l2),
        l2.to_multiset() == l.to_multiset().insert(v),
        lt(v, p),
    ensures
        sorted(l2 + seq![p] + r),
        (l2 + seq![p] + r).to_multiset() == (l + seq![p] + r).to_multiset().insert(v),
        (l2 + seq![p] + r).len() == (l + seq![p] + r).len() + 1,
{
    broadcast use vstd::seq_lib::group_to_multiset_ensures;

    let s = l + seq![p] + r;
    let n = l.len() as int;
    lemma_members_after_insert(l, l2, v);
    assert forall|i: int| 0 <= i < l2.len() implies le(#[trigger] l2[i], p) by {
        if l2[i] != v {
            let k = choose|k: int| 0 <= k < l.len() && l[k] == l2[i];
            assert(s[k] == l[k] && s[n] == p);
        }
    }
    assert forall|j: int| 0 <= j < r.len() implies le(p, #[trigger] r[j]) by {
        assert(s[n + 1 + j] == r[j] && s[n] == p);
    }
    lemma_sorted_subrange(s, n + 1, s.len() as int);
    assert(s.subrange(n + 1, s.len() as int) == r);
    lemma_sorted_join(l2, p, r);
    lemma_join_multiset(l, p, r);
    lemma_join_multiset(l2, p, r);
    assert((l2 + seq![p] + r).to_multiset() =~= s.to_multiset().insert(v));
    assert(l2.len() == l2.to_multiset().len());
    assert(l.len() == l.to_multiset().len());
}

/// Growing the right run of `l + [p] + r` by one `v` not below `p`, keeping
/// that run sorted, keeps the whole sorted and adds `v` to its elements.
pub proof fn lemma_join_grow_right<T: PartialOrd>(l: Seq<T>, p: T, r: Seq<T>, r2: Seq<T>, v: T)
    requires
        lawful_order::<T>(),
        sorted(l + seq![p] + r),
        sorted(r2),
        r2.to_multiset() == r.to_multiset().insert(v),
        le(p, v),
    ensures
        sorted(l + seq![p] + r2),
        (l + seq![p] + r2).to_multiset() == (l + seq![p] + r).to_multiset().insert(v),
        (l + seq![p] + r2).len() == (l + seq![p] + r).len() + 1,
{
    broadcast use vstd::seq_lib::group_to_multiset_ensures;

    let s = l + seq![p] + r;
    let n = l.len() as int;
    lemma_members_after_insert(r, r2, v);
    assert forall|j: int| 0 <= j < r2.len() implies le(p, #[trigger] r2[j]) by {
        if r2[j] != v {
            let k = choose|k: int| 0 <= k < r.len() && r[k] == r2[j];
            assert(s[n + 1 + k] == r[k] && s[n] == p);
        }
    }
    assert forall|i: int| 0 <= i < l.len() implies le(#[trigger] l[i], p) by {
        assert(s[i] == l[i] && s[n] == p);
    }
    lemma_sorted_subrange(s, 0, n);
    assert(s.subrange(0, n) == l);
    lemma_sorted_join(l, p, r2);
    lemma_join_multiset(l, p, r);
    lemma_join_multiset(l, p, r2);
    assert((l + seq![p] + r2).to_multiset() =~= s.to_multiset().insert(v));
    assert(r2.len() == r2.to_multiset().len());
    assert(r.len() == r.to_multiset().len());
}

pub proof fn lemma_le_antisymmetric<T: PartialOrd>(a: T, b: T)
    requires
        lawful_order::<T>(),
        le(a, b),
        le(b, a),
    ensures
        a == b,
{
    if a != b {
        assert(lt(a, b) && lt(b, a));
        assert(b.partial_cmp_spec(&a) == Some(Ordering::Greater));
    }
}

/// A sequence's values have one ascending arrangement only: two sorted
/// sequences with the same elements are equal. So the in-order values of a
/// tree built from `s` are `s` sorted, whatever order `s` was in.
pub proof fn lemma_sorted_permutation_unique<T: PartialOrd>(s: Seq<T>, a: Seq<T>, b: Seq<T>)
    requires
        lawful_order::<T>(),
        is_sorted_permutation(s, a),
        is_sorted_permutation(s, b),
    ensures
        a == b,
    decreases a.len(),
{
    broadcast use vstd::seq_lib::group_to_multiset_ensures;

    assert(a.len() == a.to_multiset().len() && b.len() == b.to_multiset().len());
    if a.len() > 0 {
        assert(a.contains(a[0]) && b.to_multiset().count(a[0]) > 0);
        assert(b.contains(b[0]) && a.to_multiset().count(b[0]) > 0);
        let i = choose|i: int| 0 <= i < b.len() && b[i] == a[0];
        let j = choose|j: int| 0 <= j < a.len() && a[j] == b[0];
        if i > 0 {
            assert(le(b[0], b[i]));
        } else {
            assert(b[0] == a[0]);
        }
        if j > 0 {
            assert(le(a[0], a[j]));
        } else {
            assert(b[0] == a[0]);
        }
        lemma_le_antisymmetric(a[0], b[0]);
        let a2 = a.drop_first();
        let b2 = b.drop_first();
        assert(a2 == a.remove(0) && b2 == b.remove(0));
        lemma_sorted_subrange(a, 1, a.len() as int);
        lemma_sorted_subrange(b, 1, b.len() as int);
        assert(a2.to_multiset() == b2.to_multiset());
        lemma_sorted_permutation_unique(a2, a2, b2);
        assert(a =~= seq![a[0]] + a2);
        assert(b =~= seq![b[0]] + b2);
    } else {
        assert(a =~= b);
    }
}

/// The standard integer types order lawfully.
pub proof fn lemma_integers_lawful()
    ensures
        lawful_order::<i32>(),
        lawful_order::<i64>(),
        lawful_order::<u32>(),
        lawful_order::<u64>(),
        lawful_order::<usize>(),
{
    broadcast use vstd::laws_cmp::group_laws_cmp;

    reveal(vstd::laws_cmp::obeys_partial_cmp_spec_properties);
    reveal(vstd::laws_eq::obeys_eq_spec_properties);
    assert(vstd::laws_cmp::obeys_cmp::<i32>());
    assert(vstd::laws_cmp::obeys_cmp::<i64>());
    assert(vstd::laws_cmp::obeys_cmp::<u32>());
    assert(vstd::laws_cmp::obeys_cmp::<u64>());
    assert(vstd::laws_cmp::obeys_cmp::<usize>());
}

} // verus!
