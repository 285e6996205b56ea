//! Sorting a sequence whose order may leave some values incomparable.
use core::cmp::Ordering;
use vstd::prelude::*;
use vstd::seq_lib::lemma_multiset_commutative;
use vstd::std_specs::cmp::PartialOrdSpec;

use crate::order::{
    all_comparable, comparable, is_sorted_permutation, lawful_order, le, lemma_le_trans,
    lemma_sorted_all_comparable, lt, sorted,
};

verus! {

/// Appending a value above or equal to the last keeps a sequence sorted.
proof fn lemma_sorted_push<T: PartialOrd>(s: Seq<T>, x: T)
    requires
        lawful_order::<T>(),
        sorted(s),
        s.len() == 0 || le(s.last(), x),
    ensures
        sorted(s.push(x)),
{
    let t = s.push(x);
    assert forall|a: int, b: int| 0 <= a < b < t.len() implies le(#[trigger] t[a], #[trigger] t[b]) by {
        if b == s.len() {
            if a < s.len() - 1 {
                lemma_le_trans(s[a], s.last(), x);
            }
        } else {
            assert(t[a] == s[a] && t[b] == s[b]);
        }
    }
}

/// All elements of a part of a sequence are comparable where all those of
/// the sequence are.
proof fn lemma_all_comparable_subrange<T: PartialOrd>(s: Seq<T>, lo: int, hi: int)
    requires
        all_comparable(s),
        0 <= lo <= hi <= s.len(),
    ensures
        all_comparable(s.subrange(lo, hi)),
{
    let t = s.subrange(lo, hi);
    assert forall|i: int, j: int| 0 <= i < t.len() && 0 <= j < t.len() implies comparable(
        #[trigger] t[i],
        #[trigger] t[j],
    ) by {
        assert(t[i] == s[lo + i] && t[j] == s[lo + j]);
    }
}

/// A sequence with the same elements as one whose elements are all
/// comparable has all its elements comparable too.
proof fn lemma_all_comparable_permutation<T: PartialOrd>(s: Seq<T>, t: Seq<T>)
    requires
        all_comparable(t),
        t.to_multiset() == s.to_multiset(),
    ensures
        all_comparable(s),
{
    broadcast use vstd::seq_lib::group_to_multiset_ensures;

    assert forall|i: int, j: int| 0 <= i < s.len() && 0 <= j < s.len() implies comparable(
        #[trigger] s[i],
        #[trigger] s[j],
    ) by {
        assert(s.contains(s[i]) && s.contains(s[j]));
        assert(t.to_multiset().count(s[i]) > 0 && t.to_multiset().count(s[j]) > 0);
        let a = choose|a: int| 0 <= a < t.len() && t[a] == s[i];
        let b = choose|b: int| 0 <= b < t.len() && t[b] == s[j];
    }
}

/// The values of two sorted runs in one sorted run, or `None` where a value
/// of the one is incomparable with a value of the other. Of equal values,
/// those of `a` come first.
fn merge_checked<T: PartialOrd + Copy>(a: &Vec<T>, b: &Vec<T>) -> (r: Option<Vec<T>>)
    requires
        lawful_order::<T>(),
        sorted(a@),
        sorted(b@),
    ensures
        r is Some <==> all_comparable(a@ + b@),
        r matches Some(s) ==> is_sorted_permutation(a@ + b@, s@),
{
    let mut out: Vec<T> = Vec::new();
    let mut i: usize = 0;
    let mut j: usize = 0;
    proof {
        broadcast use vstd::seq_lib::group_to_multiset_ensures;

        assert(a@.subrange(0, 0) =~= Seq::<T>::empty());
        assert(b@.subrange(0, 0) =~= Seq::<T>::empty());
        assert(out@ =~= Seq::<T>::empty());
        assert(out@.to_multiset() =~= a@.subrange(0, 0).to_multiset().add(
            b@.subrange(0, 0).to_multiset(),
        ));
    }
    while i < a.len() || j < b.len()
        invariant
            lawful_order::<T>(),
            sorted(a@),
            sorted(b@),
            i <= a.len(),
            j <= b.len(),
            sorted(out@),
            out@.to_multiset() == a@.subrange(0, i as int).to_multiset().add(
                b@.subrange(0, j as int).to_multiset(),
            ),
            out@.len() > 0 && i < a.len() ==> le(out@.last(), a@[i as int]),
            out@.len() > 0 && j < b.len() ==> le(out@.last(), b@[j as int]),
        decreases a.len() + b.len() - i - j,
    {
        let ghost before = out@;
        let take_a = if i == a.len() {
            false
        } else if j == b.len() {
            true
        } else {
            match a[i].partial_cmp(&b[j]) {
                None => {
                    proof {
                        let s = a@ + b@;
                        assert(s[i as int] == a@[i as int]);
                        assert(s[a.len() + j] == b@[j as int]);
                    }
                    return None;
                },
                Some(Ordering::Greater) => {
                    assert(lt(b@[j as int], a@[i as int]));
                    false
                },
                Some(_) => true,
            }
        };
        if take_a {
            let x = a[i];
            proof {
                lemma_sorted_push(before, x);
                vstd::seq_lib::to_multiset_build(before, x);
                vstd::seq_lib::to_multiset_build(a@.subrange(0, i as int), x);
                assert(a@.subrange(0, i as int).push(x) == a@.subrange(0, i + 1));
                if i + 1 < a.len() {
                    assert(le(a@[i as int], a@[i + 1]));
                }
            }
            out.push(x);
            i = i + 1;
        } else {
            let x = b[j];
            proof {
                lemma_sorted_push(before, x);
                vstd::seq_lib::to_multiset_build(before, x);
                vstd::seq_lib::to_multiset_build(b@.subrange(0, j as int), x);
                assert(b@.subrange(0, j as int).push(x) == b@.subrange(0, j + 1));
                if j + 1 < b.len() {
                    assert(le(b@[j as int], b@[j + 1]));
                }
            }
            out.push(x);
            j = j + 1;
        }
        assert(out@.to_multiset() =~= a@.subrange(0, i as int).to_multiset().add(
            b@.subrange(0, j as int).to_multiset(),
        ));
    }
    proof {
        assert(a@.subrange(0, a@.len() as int) == a@);
        assert(b@.subrange(0, b@.len() as int) == b@);
        lemma_multiset_commutative(a@, b@);
        lemma_sorted_all_comparable(out@);
        lemma_all_comparable_permutation(a@ + b@, out@);
    }
    Some(out)
}

/// The values of `data` in ascending order, or `None` where two of them are
/// incomparable. Sorts by merging sorted halves; equal values keep their
/// order.
pub fn sort_checked<T: PartialOrd + Copy>(data: Vec<T>) -> (r: Option<Vec<T>>)
    requires
        lawful_order::<T>(),
    ensures
        r is Some <==> all_comparable(data@),
        r matches Some(s) ==> is_sorted_permutation(data@, s@),
    decreases data@.len(),
{
    let ghost whole = data@;
    if data.len() <= 1 {
        proof {
            assert forall|i: int, j: int| 0 <= i < whole.len() && 0 <= j < whole.len() implies comparable(
                #[trigger] whole[i],
                #[trigger] whole[j],
            ) by {
                assert(whole[i].partial_cmp_spec(&whole[i]) == Some(Ordering::Equal));
            }
        }
        return Some(data);
    }
    let mid = data.len() / 2;
    let mut left = data;
    let right = left.split_off(mid);
    proof {
        assert(whole == left@ + right@);
    }
    let ghost (lv, rv) = (left@, right@);
    let sorted_left = match sort_checked(left) {
        None => {
            proof {
                if all_comparable(whole) {
                    lemma_all_comparable_subrange(whole, 0, mid as int);
                }
            }
            return None;
        },
        Some(s) => s,
    };
    let sorted_right = match sort_checked(right) {
        None => {
            proof {
                if all_comparable(whole) {
                    lemma_all_comparable_subrange(whole, mid as int, whole.len() as int);
                }
            }
            return None;
        },
        Some(s) => s,
    };
    proof {
        lemma_multiset_commutative(lv, rv);
        lemma_multiset_commutative(sorted_left@, sorted_right@);
        let joined = sorted_left@ + sorted_right@;
        if all_comparable(whole) {
            lemma_all_comparable_permutation(joined, whole);
        }
        if all_comparable(joined) {
            lemma_all_comparable_permutation(whole, joined);
        }
    }
    merge_checked(&sorted_left, &sorted_right)
}

} // verus!
