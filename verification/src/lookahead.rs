//! The arithmetic behind carry-lookahead: carries as they ripple through a
//! raw digit-wise sum, and the same carries read off a prefix combination
//! of per-digit signals.
use crate::arithmetic::{
    lemma_pow_step, lemma_radix_digits_of_value, lemma_radix_value_bound,
    lemma_radix_value_push, radix_digits, radix_value,
};
use crate::tables::{select, signal};
use vstd::arithmetic::div_mod::*;
use vstd::arithmetic::power::*;
use vstd::arithmetic::power2::{lemma2_to64, lemma_pow2_unfold, pow2};
use vstd::prelude::*;

verus! {

/// The signals of the places `low ..= high` combined, the higher places
/// deciding first. An empty range gives the neutral signal 1.
pub open spec fn fold(signals: Seq<nat>, low: int, high: int) -> nat
    decreases high - low + 1,
{
    if high < low {
        1
    } else {
        select(signals[high], fold(signals, low, high - 1))
    }
}

/// A range of signals can be combined in two parts.
pub proof fn lemma_fold_split(signals: Seq<nat>, low: int, mid: int, high: int)
    requires
        low - 1 <= mid <= high,
    ensures
        fold(signals, low, high) == select(fold(signals, mid + 1, high), fold(signals, low, mid)),
    decreases high - mid,
{
    if mid < high {
        lemma_fold_split(signals, low, mid, high - 1);
    }
}

/// The combination of a range depends on the signals in the range only.
pub proof fn lemma_fold_agree(s1: Seq<nat>, s2: Seq<nat>, low: int, high: int)
    requires
        forall|i: int| low <= i <= high ==> s1[i] == s2[i],
    ensures
        fold(s1, low, high) == fold(s2, low, high),
    decreases high - low + 1,
{
    if high >= low {
        lemma_fold_agree(s1, s2, low, high - 1);
    }
}

/// The carry that ripples into the place `i` of a digit sequence.
pub open spec fn carry_into(digits: Seq<nat>, m: nat, i: nat) -> nat
    decreases i,
{
    if i == 0 {
        0
    } else {
        (digits[i - 1] + carry_into(digits, m, (i - 1) as nat)) / m
    }
}

/// The signals of a digit sequence.
pub open spec fn signals_of(digits: Seq<nat>, m: nat) -> Seq<nat> {
    Seq::new(digits.len(), |i: int| signal(digits[i], m))
}

/// No digit exceeds the sum of two clean digits.
pub open spec fn is_raw_sum(digits: Seq<nat>, m: nat) -> bool {
    forall|i: int| 0 <= i < digits.len() ==> #[trigger] digits[i] <= 2 * (m - 1)
}

/// In a raw sum a carry is 0 or 1, and the carry out of the place `i` is 1
/// exactly where the signals up to `i` combine to 2.
pub proof fn lemma_carry_is_fold(digits: Seq<nat>, m: nat, i: nat)
    requires
        m >= 2,
        is_raw_sum(digits, m),
        i <= digits.len(),
    ensures
        carry_into(digits, m, i) <= 1,
        i >= 1 ==> (carry_into(digits, m, i) == 1 <==> fold(signals_of(digits, m), 0, i - 1) == 2),
    decreases i,
{
    if i >= 1 {
        let k = (i - 1) as nat;
        lemma_carry_is_fold(digits, m, k);
        let c = carry_into(digits, m, k);
        let t = digits[k as int];
        let s = signals_of(digits, m);
        assert(s[k as int] == signal(t, m));
        assert(t <= 2 * (m - 1));
        let sum = (t + c) as int;
        if sum >= m {
            lemma_fundamental_div_mod_converse(sum, m as int, 1, sum - m);
        } else {
            lemma_fundamental_div_mod_converse(sum, m as int, 0, sum);
        }
        if k == 0 {
            assert(fold(s, 0, -1) == 1);
            assert(c == 0);
        }
    }
}

/// The digits of a sequence after its carries have rippled through.
pub open spec fn rippled(digits: Seq<nat>, m: nat) -> Seq<nat> {
    Seq::new(digits.len(), |i: int| ((digits[i] + carry_into(digits, m, i as nat)) % m) as nat)
}

/// Rippling the carries through the lowest `k` places keeps their worth:
/// what is missing sits in the carry into the place `k`.
pub proof fn lemma_rippled_prefix(digits: Seq<nat>, m: nat, k: nat)
    requires
        m >= 2,
        k <= digits.len(),
    ensures
        radix_value(rippled(digits, m).take(k as int), m) + carry_into(digits, m, k) * pow(
            m as int,
            k,
        ) == radix_value(digits.take(k as int), m),
    decreases k,
{
    let r = rippled(digits, m);
    if k == 0 {
        lemma_pow0(m as int);
        assert(r.take(0) =~= Seq::<nat>::empty());
        assert(digits.take(0) =~= Seq::<nat>::empty());
    } else {
        let j = (k - 1) as nat;
        lemma_rippled_prefix(digits, m, j);
        assert(r.take(k as int) =~= r.take(j as int).push(r[j as int]));
        assert(digits.take(k as int) =~= digits.take(j as int).push(digits[j as int]));
        lemma_radix_value_push(r.take(j as int), r[j as int], m);
        lemma_radix_value_push(digits.take(j as int), digits[j as int], m);
        lemma_pow_step(m, j);
        let pj = pow(m as int, j);
        let cj = carry_into(digits, m, j) as int;
        let ck = carry_into(digits, m, k) as int;
        let t = digits[j as int] as int;
        let rj = r[j as int] as int;
        lemma_fundamental_div_mod(t + cj, m as int);
        assert(t + cj == m * ck + rj);
        let a = radix_value(r.take(j as int), m) as int;
        let b = radix_value(digits.take(j as int), m) as int;
        assert(a + rj * pj + ck * (m * pj) == b + t * pj) by (nonlinear_arith)
            requires
                a + cj * pj == b,
                t + cj == m * ck + rj,
        ;
    }
}

/// Rippling the carries through gives the digits of what the sequence is
/// worth.
pub proof fn lemma_rippled(digits: Seq<nat>, m: nat)
    requires
        m >= 2,
    ensures
        rippled(digits, m) == radix_digits(radix_value(digits, m), m, digits.len()),
{
    let r = rippled(digits, m);
    let n = digits.len();
    lemma_rippled_prefix(digits, m, n);
    assert(r.take(n as int) =~= r);
    assert(digits.take(n as int) =~= digits);
    assert forall|i: int| 0 <= i < r.len() implies #[trigger] r[i] < m by {
        lemma_mod_bound((digits[i] + carry_into(digits, m, i as nat)) as int, m as int);
    }
    lemma_radix_value_bound(r, m);
    lemma_pow_positive(m as int, n);
    let modulus = pow(m as int, n);
    let c = carry_into(digits, m, n) as int;
    let v = radix_value(digits, m) as int;
    let w = radix_value(r, m) as int;
    assert(v == modulus * c + w) by (nonlinear_arith)
        requires
            w + c * modulus == v,
    ;
    lemma_mod_multiples_vanish(c, w, modulus);
    lemma_small_mod(w as nat, modulus as nat);
    lemma_radix_digits_of_value(r, v as nat, m);
}

/// The number of table lookups of a prefix combination of `k` signals that
/// has reached the stride `w`: each round combines every signal with the
/// one `w` places below it, and doubles the stride.
pub open spec fn scan_cost(k: nat, w: nat) -> nat
    decreases k - w,
{
    if w == 0 || w >= k {
        0
    } else {
        ((k - w) + scan_cost(
            k,
            if 2 * w >= k {
                k
            } else {
                2 * w
            },
        )) as nat
    }
}

/// The number of rounds of a prefix combination of `k` signals that has
/// reached the stride `w`.
pub open spec fn scan_rounds(k: nat, w: nat) -> nat
    decreases k - w,
{
    if w == 0 || w >= k {
        0
    } else {
        1 + scan_rounds(
            k,
            if 2 * w >= k {
                k
            } else {
                2 * w
            },
        )
    }
}

/// The rounds of a prefix combination are logarithmic in the number of
/// signals: the stride doubled once for every round stays under twice that
/// number.
pub proof fn lemma_scan_rounds_logarithmic(k: nat, w: nat)
    requires
        1 <= w <= k,
    ensures
        w * pow2(scan_rounds(k, w)) < 2 * k,
    decreases k - w,
{
    lemma2_to64();
    if w < k {
        let next = if 2 * w >= k {
            k
        } else {
            2 * w
        };
        lemma_scan_rounds_logarithmic(k, next);
        let r = scan_rounds(k, next);
        lemma_pow2_unfold(r + 1);
        let q = pow2(r) as int;
        if 2 * w >= k {
            assert(scan_rounds(k, k) == 0);
            assert(w * (2 * q) < 2 * k) by (nonlinear_arith)
                requires
                    q == 1,
                    w < k,
            ;
        } else {
            assert(w * (2 * q) == (2 * w) * q) by (nonlinear_arith);
        }
    } else {
        assert(w * 1 == w) by (nonlinear_arith);
    }
}

/// The number of rounds that combine `n` signals pair by pair in a binary
/// tree: every round halves their number.
pub open spec fn tree_rounds(n: nat) -> nat
    decreases n,
{
    if n <= 1 {
        0
    } else {
        1 + tree_rounds((n + 1) / 2)
    }
}

/// The rounds of a binary tree are logarithmic in the number of signals:
/// two to the power of the rounds stays under twice that number.
pub proof fn lemma_tree_rounds_logarithmic(n: nat)
    requires
        n >= 1,
    ensures
        pow2(tree_rounds(n)) < 2 * n,
        n >= 2 ==> pow2(tree_rounds(n)) <= 2 * n - 2,
    decreases n,
{
    lemma2_to64();
    if n >= 2 {
        let h = (n + 1) / 2;
        lemma_tree_rounds_logarithmic(h);
        lemma_pow2_unfold(tree_rounds(h) + 1);
    }
}

/// The number of rounds of a carry-lookahead over `n` digits: one for the
/// signals, those of the prefix combination, one for the carry bits and
/// one for the digits.
pub open spec fn lookahead_depth(n: nat) -> nat {
    3 + scan_rounds((n - 1) as nat, 1)
}

/// The number of table lookups of a carry-lookahead over `n` digits: one
/// signal for each digit but the topmost, the prefix combination of the
/// signals, one carry bit for each digit but the lowest, and one digit
/// extraction for each digit.
pub open spec fn lookahead_cost(n: nat) -> nat {
    if n == 0 {
        0
    } else {
        ((n - 1) + scan_cost((n - 1) as nat, 1) + (n - 1) + n) as nat
    }
}

} // verus!
