//! The height of a balanced tree.
use vstd::arithmetic::power2::{lemma_pow2_unfold, pow2};
use vstd::prelude::*;

verus! {

/// The number of binary digits of `n`, which is the height of a tree of `n`
/// values built by halving.
pub open spec fn bit_len(n: nat) -> nat
    decreases n,
{
    if n == 0 {
        0
    } else {
        1 + bit_len(n / 2)
    }
}

pub proof fn lemma_bit_len_monotone(a: nat, b: nat)
    requires
        a <= b,
    ensures
        bit_len(a) <= bit_len(b),
    decreases b,
{
    if a > 0 {
        lemma_bit_len_monotone(a / 2, b / 2);
    }
}

/// `bit_len(n)` is the least `h` with `n < 2^h`, that is the ceiling of
/// `log2(n + 1)`.
pub proof fn lemma_bit_len_is_log(n: nat)
    ensures
        n < pow2(bit_len(n)),
        n > 0 ==> pow2((bit_len(n) - 1) as nat) <= n,
    decreases n,
{
    if n == 0 {
        reveal(vstd::arithmetic::power::pow);
        assert(pow2(0) == 1);
    } else {
        let h = bit_len(n);
        lemma_bit_len_is_log(n / 2);
        lemma_pow2_unfold(h);
        if n / 2 == 0 {
            reveal(vstd::arithmetic::power::pow);
            assert(pow2(0) == 1);
        } else {
            lemma_pow2_unfold(bit_len(n / 2));
        }
    }
}

} // verus!
