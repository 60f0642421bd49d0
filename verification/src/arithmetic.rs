//! Positional arithmetic on digit sequences: what a sequence of digits is
//! worth, and why a clean sequence is determined by its worth.
use vstd::arithmetic::div_mod::*;
use vstd::arithmetic::mul::*;
use vstd::arithmetic::power::*;
use vstd::prelude::*;

verus! {

/// The worth of a digit sequence, least significant digit first:
/// the sum of `digits[i] * base^i`. A digit may exceed the base.
pub open spec fn radix_value(digits: Seq<nat>, base: nat) -> nat
    decreases digits.len(),
{
    if digits.len() == 0 {
        0
    } else {
        digits[0] + base * radix_value(digits.drop_first(), base)
    }
}

/// Every digit lies under the base.
pub open spec fn all_below(digits: Seq<nat>, base: nat) -> bool {
    forall|i: int| 0 <= i < digits.len() ==> #[trigger] digits[i] < base
}

/// The `n` lowest digits of `v` in the given base.
pub open spec fn radix_digits(v: nat, base: nat, n: nat) -> Seq<nat> {
    Seq::new(n, |i: int| ((v / (pow(base as int, i as nat) as nat)) % base) as nat)
}

/// `base^(e + 1) == base * base^e`, and powers of a positive base are
/// positive.
pub proof fn lemma_pow_step(base: nat, e: nat)
    requires
        base > 0,
    ensures
        pow(base as int, e + 1) == base * pow(base as int, e),
        pow(base as int, e) > 0,
        pow(base as int, 0) == 1,
{
    reveal(pow);
    lemma_pow_positive(base as int, e);
    lemma_pow0(base as int);
}

/// Appending a digit adds its weight.
pub proof fn lemma_radix_value_push(d: Seq<nat>, x: nat, base: nat)
    requires
        base > 0,
    ensures
        radix_value(d.push(x), base) == radix_value(d, base) + x * pow(base as int, d.len()),
    decreases d.len(),
{
    if d.len() == 0 {
        assert(d.push(x).drop_first() =~= Seq::<nat>::empty());
        assert(radix_value(d.push(x).drop_first(), base) == 0);
        assert(radix_value(d.push(x), base) == x + base * 0);
        lemma_pow0(base as int);
        assert(x * pow(base as int, 0) == x) by (nonlinear_arith)
            requires
                pow(base as int, 0) == 1,
        ;
    } else {
        let t = d.drop_first();
        assert(d.push(x).drop_first() =~= t.push(x));
        lemma_radix_value_push(t, x, base);
        lemma_pow_step(base, t.len());
        let p = pow(base as int, t.len());
        let a = radix_value(t, base) as int;
        assert(base * (a + x * p) == base * a + x * (base * p)) by (nonlinear_arith);
    }
}

/// Replacing the digit at `i` changes the worth by the difference of the
/// two digits at the weight of that place.
pub proof fn lemma_radix_value_update(d: Seq<nat>, i: int, x: nat, base: nat)
    requires
        base > 0,
        0 <= i < d.len(),
    ensures
        radix_value(d.update(i, x), base) + d[i] * pow(base as int, i as nat) == radix_value(
            d,
            base,
        ) + x * pow(base as int, i as nat),
    decreases i,
{
    if i == 0 {
        assert(d.update(0, x).drop_first() =~= d.drop_first());
        lemma_pow0(base as int);
        assert(x * pow(base as int, 0) == x && d[0] * pow(base as int, 0) == d[0])
            by (nonlinear_arith)
            requires
                pow(base as int, 0) == 1,
        ;
    } else {
        let t = d.drop_first();
        assert(d.update(i, x).drop_first() =~= t.update(i - 1, x));
        lemma_radix_value_update(t, i - 1, x, base);
        lemma_pow_step(base, (i - 1) as nat);
        let p = pow(base as int, (i - 1) as nat);
        let a = radix_value(t.update(i - 1, x), base) as int;
        let c = radix_value(t, base) as int;
        let y = d[i] as int;
        assert(t[i - 1] == d[i]);
        assert(base * a + y * (base * p) == base * c + x * (base * p)) by (nonlinear_arith)
            requires
                a + y * p == c + x * p,
        ;
    }
}

/// A clean sequence of `n` digits is worth less than `base^n`.
pub proof fn lemma_radix_value_bound(d: Seq<nat>, base: nat)
    requires
        base > 0,
        all_below(d, base),
    ensures
        radix_value(d, base) < pow(base as int, d.len()),
    decreases d.len(),
{
    if d.len() == 0 {
        lemma_pow0(base as int);
    } else {
        let t = d.drop_first();
        assert forall|i: int| 0 <= i < t.len() implies #[trigger] t[i] < base by {
            assert(t[i] == d[i + 1]);
        }
        lemma_radix_value_bound(t, base);
        lemma_pow_step(base, t.len());
        let p = pow(base as int, t.len());
        let a = radix_value(t, base) as int;
        assert(d[0] + base * a < base * p) by (nonlinear_arith)
            requires
                0 <= d[0] < base,
                0 <= a < p,
        ;
    }
}

/// The digit at `i` of a clean sequence is the digit at `i` of its worth.
pub proof fn lemma_radix_digit(d: Seq<nat>, base: nat, i: int)
    requires
        base > 0,
        all_below(d, base),
        0 <= i < d.len(),
    ensures
        pow(base as int, i as nat) > 0,
        d[i] == (radix_value(d, base) / (pow(base as int, i as nat) as nat)) % base,
    decreases i,
{
    let v = radix_value(d, base) as int;
    let t = d.drop_first();
    let r = radix_value(t, base) as int;
    lemma_pow_step(base, i as nat);
    assert(v == r * base + d[0]) by (nonlinear_arith)
        requires
            v == d[0] + base * r,
    ;
    lemma_fundamental_div_mod_converse(v, base as int, r, d[0] as int);
    if i == 0 {
        lemma_pow0(base as int);
        assert(v / 1 == v);
    } else {
        assert forall|j: int| 0 <= j < t.len() implies #[trigger] t[j] < base by {
            assert(t[j] == d[j + 1]);
        }
        lemma_radix_digit(t, base, i - 1);
        lemma_pow_step(base, (i - 1) as nat);
        let p = pow(base as int, (i - 1) as nat);
        assert(pow(base as int, i as nat) == base * p);
        lemma_div_denominator(v, base as int, p);
        assert(t[i - 1] == d[i]);
        assert(t[i - 1] == (r / p) % (base as int));
        assert((v / (base as int)) / p == v / (base * p));
    }
}

/// Two clean sequences of one length that are worth the same modulo
/// `base^n` are the same sequence.
pub proof fn lemma_radix_unique(d1: Seq<nat>, d2: Seq<nat>, base: nat)
    requires
        base > 0,
        d1.len() == d2.len(),
        all_below(d1, base),
        all_below(d2, base),
        radix_value(d1, base) % (pow(base as int, d1.len()) as nat) == radix_value(d2, base) % (pow(
            base as int,
            d1.len(),
        ) as nat),
    ensures
        d1 == d2,
{
    lemma_radix_value_bound(d1, base);
    lemma_radix_value_bound(d2, base);
    let m = pow(base as int, d1.len());
    lemma_small_mod(radix_value(d1, base), m as nat);
    lemma_small_mod(radix_value(d2, base), m as nat);
    assert forall|i: int| 0 <= i < d1.len() implies d1[i] == d2[i] by {
        lemma_radix_digit(d1, base, i);
        lemma_radix_digit(d2, base, i);
    }
    assert(d1 =~= d2);
}

/// The digits of `v` are clean, and a clean sequence worth `v` modulo
/// `base^n` is the sequence of the `n` lowest digits of `v`.
pub proof fn lemma_radix_digits_of_value(d: Seq<nat>, v: nat, base: nat)
    requires
        base > 0,
        all_below(d, base),
        radix_value(d, base) == v % (pow(base as int, d.len()) as nat),
    ensures
        d == radix_digits(v, base, d.len()),
{
    let n = d.len();
    let m = pow(base as int, n);
    lemma_pow_positive(base as int, n);
    let w = radix_value(d, base);
    assert forall|i: int| 0 <= i < n implies d[i] == radix_digits(v, base, n)[i] by {
        lemma_radix_digit(d, base, i);
        let p = pow(base as int, i as nat);
        // w == v % m, and m == p * base^(n - i), so v and w agree on the digit at i
        lemma_pow_adds(base as int, i as nat, (n - i) as nat);
        let q = pow(base as int, (n - i) as nat);
        lemma_pow_positive(base as int, (n - i) as nat);
        assert(m == p * q);
        lemma_pow_step(base, (n - i - 1) as nat);
        let q1 = pow(base as int, (n - i - 1) as nat);
        assert(q == base * q1);
        // v % (p * q) == p * ((v / p) % q) + v % p
        lemma_mod_breakdown(v as int, p, q);
        let hi = (v as int / p) % q;
        let lo = v as int % p;
        assert(w == p * hi + lo);
        lemma_mod_bound(v as int, p);
        lemma_fundamental_div_mod_converse(w as int, p, hi, lo);
        assert(w as int / p == hi);
        // ((v / p) % (base * q1)) % base == (v / p) % base
        lemma_mod_mod(v as int / p, base as int, q1);
    }
    assert(d =~= radix_digits(v, base, n));
}

/// The `n` lowest digits of `v` are clean and worth `v` modulo `base^n`.
pub proof fn lemma_radix_digits_value(v: nat, base: nat, n: nat)
    requires
        base > 0,
    ensures
        all_below(radix_digits(v, base, n), base),
        radix_digits(v, base, n).len() == n,
        pow(base as int, n) > 0,
        radix_value(radix_digits(v, base, n), base) == v % (pow(base as int, n) as nat),
    decreases n,
{
    lemma_pow_positive(base as int, n);
    let d = radix_digits(v, base, n);
    assert forall|i: int| 0 <= i < d.len() implies #[trigger] d[i] < base by {
        lemma_pow_positive(base as int, i as nat);
        lemma_mod_bound(v as int / pow(base as int, i as nat), base as int);
    }
    if n == 0 {
        lemma_pow0(base as int);
        assert(v % 1 == 0);
    } else {
        let k = (n - 1) as nat;
        let t = radix_digits(v, base, k);
        lemma_radix_digits_value(v, base, k);
        let p = pow(base as int, k);
        let top = ((v as int / p) % (base as int)) as nat;
        assert(d =~= t.push(top));
        lemma_radix_value_push(t, top, base);
        lemma_pow_step(base, k);
        lemma_mod_breakdown(v as int, p, base as int);
        assert(p * base == base * p) by (nonlinear_arith);
        assert(top * p == p * top) by (nonlinear_arith);
    }
}

/// Adding two digit sequences digit by digit adds what they are worth.
pub proof fn lemma_radix_value_add(a: Seq<nat>, b: Seq<nat>, sum: Seq<nat>, base: nat)
    requires
        a.len() == b.len(),
        sum.len() == a.len(),
        forall|i: int| 0 <= i < sum.len() ==> #[trigger] sum[i] == a[i] + b[i],
    ensures
        radix_value(sum, base) == radix_value(a, base) + radix_value(b, base),
    decreases a.len(),
{
    if a.len() > 0 {
        let ta = a.drop_first();
        let tb = b.drop_first();
        let ts = sum.drop_first();
        assert forall|i: int| 0 <= i < ts.len() implies #[trigger] ts[i] == ta[i] + tb[i] by {
            assert(ts[i] == sum[i + 1]);
        }
        lemma_radix_value_add(ta, tb, ts, base);
        let x = radix_value(ta, base) as int;
        let y = radix_value(tb, base) as int;
        assert(base * (x + y) == base * x + base * y) by (nonlinear_arith);
        assert(sum[0] == a[0] + b[0]);
    }
}

/// Moving the carries of the digit at `i` into the digit above it leaves
/// the worth as it is.
pub proof fn lemma_carry_step(d: Seq<nat>, i: int, base: nat)
    requires
        base > 0,
        0 <= i,
        i + 1 < d.len(),
    ensures
        radix_value(d.update(i, d[i] % base).update(i + 1, d[i + 1] + d[i] / base), base)
            == radix_value(d, base),
{
    let lo = d[i] % base;
    let hi = d[i] / base;
    let d1 = d.update(i, lo);
    let d2 = d1.update(i + 1, d[i + 1] + hi);
    lemma_radix_value_update(d, i, lo, base);
    lemma_radix_value_update(d1, i + 1, d[i + 1] + hi, base);
    lemma_pow_step(base, i as nat);
    let p = pow(base as int, i as nat);
    let q = pow(base as int, (i + 1) as nat);
    lemma_fundamental_div_mod(d[i] as int, base as int);
    let r0 = radix_value(d, base) as int;
    let r1 = radix_value(d1, base) as int;
    let r2 = radix_value(d2, base) as int;
    let x = d[i] as int;
    let y = d[i + 1] as int;
    assert(d1[i + 1] == d[i + 1]);
    assert(r2 == r0) by (nonlinear_arith)
        requires
            r1 + x * p == r0 + lo * p,
            r2 + y * q == r1 + (y + hi) * q,
            q == base * p,
            x == base * hi + lo,
    ;
}

/// Dropping the carries of the topmost digit leaves the worth as it is
/// modulo `base^n`.
pub proof fn lemma_carry_drop(d: Seq<nat>, base: nat)
    requires
        base > 0,
        d.len() >= 1,
    ensures
        pow(base as int, d.len()) > 0,
        radix_value(d.update(d.len() - 1, d[d.len() - 1] % base), base) % (pow(
            base as int,
            d.len(),
        ) as nat) == radix_value(d, base) % (pow(base as int, d.len()) as nat),
{
    let i = d.len() - 1;
    let lo = d[i] % base;
    let hi = d[i] / base;
    let d1 = d.update(i, lo);
    lemma_radix_value_update(d, i, lo, base);
    lemma_pow_step(base, i as nat);
    lemma_pow_positive(base as int, d.len());
    let p = pow(base as int, i as nat);
    let m = pow(base as int, d.len());
    lemma_fundamental_div_mod(d[i] as int, base as int);
    let r0 = radix_value(d, base) as int;
    let r1 = radix_value(d1, base) as int;
    let x = d[i] as int;
    assert(r0 == m * hi + r1) by (nonlinear_arith)
        requires
            r1 + x * p == r0 + lo * p,
            m == base * p,
            x == base * hi + lo,
    ;
    lemma_mod_multiples_vanish(hi as int, r1, m);
}

/// The `n` lowest digits depend on the value modulo `base^n` only.
pub proof fn lemma_radix_digits_congruent(v: nat, w: nat, base: nat, n: nat)
    requires
        base > 0,
        v % (pow(base as int, n) as nat) == w % (pow(base as int, n) as nat),
    ensures
        radix_digits(v, base, n) == radix_digits(w, base, n),
{
    lemma_radix_digits_value(v, base, n);
    lemma_radix_digits_value(w, base, n);
    let m = pow(base as int, n) as nat;
    lemma_mod_twice(v as int, m as int);
    lemma_mod_twice(w as int, m as int);
    lemma_radix_unique(radix_digits(v, base, n), radix_digits(w, base, n), base);
}

/// Multiplying every digit by `c` multiplies the worth by `c`.
pub proof fn lemma_radix_value_scaled(d: Seq<nat>, c: nat, scaled: Seq<nat>, base: nat)
    requires
        scaled.len() == d.len(),
        forall|i: int| 0 <= i < d.len() ==> #[trigger] scaled[i] == d[i] * c,
    ensures
        radix_value(scaled, base) == c * radix_value(d, base),
    decreases d.len(),
{
    if d.len() == 0 {
        assert(c * 0 == 0) by (nonlinear_arith);
    } else {
        let td = d.drop_first();
        let ts = scaled.drop_first();
        assert forall|i: int| 0 <= i < td.len() implies #[trigger] ts[i] == td[i] * c by {
            assert(ts[i] == scaled[i + 1]);
        }
        lemma_radix_value_scaled(td, c, ts, base);
        let r = radix_value(td, base) as int;
        let x = d[0] as int;
        assert(scaled[0] == d[0] * c);
        assert(x * c + base * (c * r) == c * (x + base * r)) by (nonlinear_arith);
    }
}

/// Splitting every digit into the digit proper and its carries, and
/// adding the carries of each digit to the digit above it, keeps the worth
/// but for the carries of the topmost digit.
pub proof fn lemma_split_pass(d: Seq<nat>, s: Seq<nat>, base: nat, k: nat)
    requires
        base > 0,
        1 <= k <= d.len(),
        s.len() == d.len(),
        s[0] == d[0] % base,
        forall|i: int| 1 <= i < d.len() ==> #[trigger] s[i] == d[i] % base + d[i - 1] / base,
    ensures
        radix_value(s.take(k as int), base) + (d[k - 1] / base) * pow(base as int, k)
            == radix_value(d.take(k as int), base),
    decreases k,
{
    let j = (k - 1) as nat;
    let pj = pow(base as int, j);
    lemma_pow_step(base, j);
    assert(s.take(k as int) =~= s.take(j as int).push(s[j as int]));
    assert(d.take(k as int) =~= d.take(j as int).push(d[j as int]));
    lemma_radix_value_push(s.take(j as int), s[j as int], base);
    lemma_radix_value_push(d.take(j as int), d[j as int], base);
    lemma_fundamental_div_mod(d[j as int] as int, base as int);
    let x = d[j as int] as int;
    let hi = (d[j as int] / base) as int;
    let lo = (d[j as int] % base) as int;
    let a = radix_value(s.take(j as int), base) as int;
    let b = radix_value(d.take(j as int), base) as int;
    if j == 0 {
        assert(s.take(0) =~= Seq::<nat>::empty());
        assert(d.take(0) =~= Seq::<nat>::empty());
        assert(a + lo * pj + hi * (base * pj) == b + x * pj) by (nonlinear_arith)
            requires
                a == 0,
                b == 0,
                x == base * hi + lo,
        ;
    } else {
        lemma_split_pass(d, s, base, j);
        let c = (d[j - 1] / base) as int;
        assert(a + (lo + c) * pj + hi * (base * pj) == b + x * pj) by (nonlinear_arith)
            requires
                a + c * pj == b,
                x == base * hi + lo,
        ;
    }
}

/// Adding a row to an accumulator moved up by one place: the worth is that
/// of the row and `base` times that of the accumulator, but for the
/// topmost digit of the accumulator, which is moved out.
pub proof fn lemma_shift_add(acc: Seq<nat>, row: Seq<nat>, sum: Seq<nat>, base: nat)
    requires
        base > 0,
        acc.len() >= 1,
        row.len() == acc.len(),
        sum.len() == acc.len(),
        sum[0] == row[0],
        forall|i: int| 1 <= i < acc.len() ==> #[trigger] sum[i] == acc[i - 1] + row[i],
    ensures
        radix_value(sum, base) + acc[acc.len() - 1] * pow(base as int, acc.len()) == radix_value(
            row,
            base,
        ) + base * radix_value(acc, base),
{
    let n = acc.len();
    let shifted = Seq::new(
        n,
        |i: int|
            if i == 0 {
                0nat
            } else {
                acc[i - 1]
            },
    );
    let head = acc.take(n - 1);
    assert(shifted.drop_first() =~= head);
    assert(acc =~= head.push(acc[n - 1]));
    lemma_radix_value_push(head, acc[n - 1], base);
    lemma_radix_value_add(row, shifted, sum, base);
    lemma_pow_step(base, (n - 1) as nat);
    let h = radix_value(head, base) as int;
    let top = acc[n - 1] as int;
    let q = pow(base as int, (n - 1) as nat);
    assert(base * h + top * (base * q) == base * (h + top * q)) by (nonlinear_arith);
}

/// A clean sequence and its digit-wise complement are worth `base^n - 1`
/// together.
pub proof fn lemma_complement(d: Seq<nat>, complement: Seq<nat>, base: nat)
    requires
        base > 0,
        all_below(d, base),
        complement.len() == d.len(),
        forall|i: int| 0 <= i < d.len() ==> #[trigger] complement[i] == base - 1 - d[i],
    ensures
        radix_value(complement, base) + radix_value(d, base) + 1 == pow(base as int, d.len()),
    decreases d.len(),
{
    if d.len() == 0 {
        lemma_pow0(base as int);
    } else {
        let td = d.drop_first();
        let tc = complement.drop_first();
        assert forall|i: int| 0 <= i < td.len() implies #[trigger] td[i] < base by {
            assert(td[i] == d[i + 1]);
        }
        assert forall|i: int| 0 <= i < td.len() implies #[trigger] tc[i] == base - 1 - td[i] by {
            assert(tc[i] == complement[i + 1]);
        }
        lemma_complement(td, tc, base);
        lemma_pow_step(base, td.len());
        let x = radix_value(tc, base) as int;
        let y = radix_value(td, base) as int;
        let q = pow(base as int, td.len());
        assert(complement[0] == base - 1 - d[0]);
        assert(base * x + base * y + base == base * q) by (nonlinear_arith)
            requires
                x + y + 1 == q,
        ;
    }
}

/// The largest of the first `k` numbers.
pub open spec fn largest(numbers: Seq<nat>, k: nat) -> nat
    decreases k,
{
    if k == 0 {
        0
    } else {
        let rest = largest(numbers, (k - 1) as nat);
        if numbers[k - 1] > rest {
            numbers[k - 1]
        } else {
            rest
        }
    }
}

/// None of the first `k` numbers exceeds the largest of them.
pub proof fn lemma_largest(numbers: Seq<nat>, k: nat, i: int)
    requires
        0 <= i < k,
    ensures
        numbers[i] <= largest(numbers, k),
    decreases k,
{
    if i < k - 1 {
        lemma_largest(numbers, (k - 1) as nat, i);
    }
}

/// Where none of the first `k` numbers exceeds `bound`, the largest of
/// them does not either.
pub proof fn lemma_largest_bounded(numbers: Seq<nat>, k: nat, bound: nat)
    requires
        forall|i: int| 0 <= i < k ==> #[trigger] numbers[i] <= bound,
    ensures
        largest(numbers, k) <= bound,
    decreases k,
{
    if k > 0 {
        lemma_largest_bounded(numbers, (k - 1) as nat, bound);
    }
}

} // verus!
