//! Coprime moduli and the Chinese remainder theorem: an integer under the
//! product of pairwise coprime moduli is determined by its residues.
use vstd::arithmetic::div_mod::*;
use vstd::arithmetic::mul::*;
use vstd::prelude::*;

verus! {

/// No number above 1 divides both `a` and `b`.
pub open spec fn coprime(a: nat, b: nat) -> bool {
    forall|d: nat| d >= 2 ==> !(#[trigger] (a % d) == 0 && b % d == 0)
}

/// Every two moduli at different places are coprime.
pub open spec fn pairwise_coprime(moduli: Seq<nat>) -> bool {
    forall|i: int, j: int|
        0 <= i < j < moduli.len() ==> coprime(#[trigger] moduli[i], #[trigger] moduli[j])
}

/// The product of the moduli.
pub open spec fn product(moduli: Seq<nat>) -> nat
    decreases moduli.len(),
{
    if moduli.len() == 0 {
        1
    } else {
        product(moduli.drop_last()) * moduli.last()
    }
}

/// `x` lies under the product of the moduli and has the given residues.
pub open spec fn is_crt_solution(x: nat, residues: Seq<nat>, moduli: Seq<nat>) -> bool {
    &&& x < product(moduli)
    &&& forall|i: int| 0 <= i < moduli.len() ==> x % #[trigger] moduli[i] == residues[i]
}

/// What divides two numbers divides their combinations.
pub proof fn lemma_divides_combination(g: int, x: int, y: int, q: int)
    requires
        g > 0,
        x % g == 0,
        y % g == 0,
    ensures
        (q * x + y) % g == 0,
{
    lemma_fundamental_div_mod(x, g);
    let k = x / g;
    assert(q * x == g * (q * k)) by (nonlinear_arith)
        requires
            x == g * k,
    ;
    lemma_mod_multiples_vanish(q * k, y, g);
}

/// Euclid's algorithm, keeping the coefficients: a common divisor `g` of
/// `a` and `b` that is a combination `s * a + u * b` of them.
pub proof fn lemma_extended_gcd(a: nat, b: nat) -> (r: (nat, int, int))
    requires
        a >= 1,
    ensures
        r.0 >= 1,
        r.1 * a + r.2 * b == r.0,
        a % r.0 == 0,
        b % r.0 == 0,
    decreases b,
{
    if b == 0 {
        lemma_mod_self_0(a as int);
        lemma_small_mod(0, a);
        (a, 1, 0)
    } else {
        lemma_mod_bound(a as int, b as int);
        let rem = a % b;
        let (g, s, u) = lemma_extended_gcd(b, rem);
        let q = (a / b) as int;
        lemma_fundamental_div_mod(a as int, b as int);
        assert(a == q * b + rem) by (nonlinear_arith)
            requires
                a == b * q + rem,
        ;
        lemma_divides_combination(g as int, b as int, rem as int, q);
        assert(u * a + (s - q * u) * b == g) by (nonlinear_arith)
            requires
                s * b + u * rem == g,
                a == q * b + rem,
        ;
        (g, u, s - q * u)
    }
}

/// Coprime numbers combine to 1.
pub proof fn lemma_bezout(a: nat, b: nat) -> (r: (int, int))
    requires
        a >= 1,
        coprime(a, b),
    ensures
        r.0 * a + r.1 * b == 1,
{
    let (g, s, u) = lemma_extended_gcd(a, b);
    if g >= 2 {
        assert(a % g == 0 && b % g == 0);
    }
    (s, u)
}

/// Numbers that combine to 1 are coprime.
pub proof fn lemma_bezout_coprime(a: nat, b: nat, s: int, u: int)
    requires
        s * a + u * b == 1,
    ensures
        coprime(a, b),
{
    assert forall|d: nat| d >= 2 implies !(#[trigger] (a % d) == 0 && b % d == 0) by {
        if a % d == 0 && b % d == 0 {
            lemma_divides_combination(d as int, b as int, 0, u);
            lemma_small_mod(0, d);
            lemma_divides_combination(d as int, a as int, u * b, s);
            lemma_small_mod(1, d);
        }
    }
}

/// A product of two numbers coprime to `m` is coprime to `m`.
pub proof fn lemma_coprime_product(a: nat, b: nat, m: nat)
    requires
        a >= 1,
        b >= 1,
        coprime(a, m),
        coprime(b, m),
    ensures
        coprime(a * b, m),
{
    let (s1, u1) = lemma_bezout(a, m);
    let (s2, u2) = lemma_bezout(b, m);
    let s = s1 * s2;
    let u = s1 * a * u2 + u1 * s2 * b + u1 * u2 * m;
    let x = s1 * a;
    let y = u1 * m;
    let z = s2 * b;
    let w = u2 * m;
    assert(x * z + x * w + y * z + y * w == 1) by (nonlinear_arith)
        requires
            x + y == 1,
            z + w == 1,
    ;
    assert(x * z == s * (a * b)) by (nonlinear_arith)
        requires
            x == s1 * a,
            z == s2 * b,
            s == s1 * s2,
    ;
    assert(x * w == (s1 * a * u2) * m) by (nonlinear_arith)
        requires
            x == s1 * a,
            w == u2 * m,
    ;
    assert(y * z == (u1 * s2 * b) * m) by (nonlinear_arith)
        requires
            y == u1 * m,
            z == s2 * b,
    ;
    assert(y * w == (u1 * u2 * m) * m) by (nonlinear_arith)
        requires
            y == u1 * m,
            w == u2 * m,
    ;
    assert(u * m == (s1 * a * u2) * m + (u1 * s2 * b) * m + (u1 * u2 * m) * m)
        by (nonlinear_arith)
        requires
            u == s1 * a * u2 + u1 * s2 * b + u1 * u2 * m,
    ;
    lemma_bezout_coprime(a * b, m, s, u);
}

/// What two coprime numbers divide, their product divides.
pub proof fn lemma_coprime_divide(a: nat, b: nat, z: int)
    requires
        a >= 1,
        b >= 1,
        coprime(a, b),
        z % (a as int) == 0,
        z % (b as int) == 0,
    ensures
        a * b >= 1,
        z % ((a * b) as int) == 0,
{
    let (s, u) = lemma_bezout(a, b);
    lemma_fundamental_div_mod(z, a as int);
    lemma_fundamental_div_mod(z, b as int);
    let za = z / (a as int);
    let zb = z / (b as int);
    let k = s * zb + u * za;
    assert(z == k * (a * b)) by (nonlinear_arith)
        requires
            s * a + u * b == 1,
            z == a * za,
            z == b * zb,
            k == s * zb + u * za,
    ;
    assert(a * b >= 1) by (nonlinear_arith)
        requires
            a >= 1,
            b >= 1,
    ;
    lemma_mod_multiples_basic(k, (a * b) as int);
}

/// Every modulus is at least `low`.
pub open spec fn all_at_least(moduli: Seq<nat>, low: nat) -> bool {
    forall|i: int| 0 <= i < moduli.len() ==> #[trigger] moduli[i] >= low
}

/// The product of positive moduli is positive, and grows with every
/// modulus.
pub proof fn lemma_product_positive(moduli: Seq<nat>)
    requires
        all_at_least(moduli, 1),
    ensures
        product(moduli) >= 1,
        moduli.len() >= 1 ==> product(moduli.drop_last()) <= product(moduli),
    decreases moduli.len(),
{
    if moduli.len() > 0 {
        let head = moduli.drop_last();
        assert forall|i: int| 0 <= i < head.len() implies #[trigger] head[i] >= 1 by {
            assert(head[i] == moduli[i]);
        }
        lemma_product_positive(head);
        let h = product(head) as int;
        let l = moduli.last() as int;
        assert(h * l >= h) by (nonlinear_arith)
            requires
                h >= 1,
                l >= 1,
        ;
    }
}

/// A product with a factor 0 is 0.
pub proof fn lemma_product_zero(moduli: Seq<nat>, i: int)
    requires
        0 <= i < moduli.len(),
        moduli[i] == 0,
    ensures
        product(moduli) == 0,
    decreases moduli.len(),
{
    let head = moduli.drop_last();
    let h = product(head) as int;
    let l = moduli.last() as int;
    if i == moduli.len() - 1 {
        assert(h * 0 == 0) by (nonlinear_arith);
    } else {
        assert(head[i] == moduli[i]);
        lemma_product_zero(head, i);
        assert(0 * l == 0) by (nonlinear_arith);
    }
}

/// The product of the first `k` moduli grows with `k`.
pub proof fn lemma_product_prefix(moduli: Seq<nat>, j: int, k: int)
    requires
        all_at_least(moduli, 1),
        0 <= j <= k <= moduli.len(),
    ensures
        1 <= product(moduli.take(j)) <= product(moduli.take(k)),
    decreases k - j,
{
    let tk = moduli.take(k);
    assert forall|i: int| 0 <= i < tk.len() implies #[trigger] tk[i] >= 1 by {
        assert(tk[i] == moduli[i]);
    }
    lemma_product_positive(tk);
    if j < k {
        assert(tk.drop_last() =~= moduli.take(k - 1));
        lemma_product_prefix(moduli, j, k - 1);
    }
}

/// The product of the first `k` moduli is a multiple of each of them.
pub proof fn lemma_product_multiple(moduli: Seq<nat>, k: int, j: int)
    requires
        all_at_least(moduli, 1),
        0 <= j < k <= moduli.len(),
    ensures
        product(moduli.take(k)) % moduli[j] == 0,
    decreases k,
{
    let tk = moduli.take(k);
    let head = moduli.take(k - 1);
    assert(tk.drop_last() =~= head);
    assert(tk.last() == moduli[k - 1]);
    let h = product(head) as int;
    let l = moduli[k - 1] as int;
    if j == k - 1 {
        lemma_mod_multiples_basic(h, l);
    } else {
        lemma_product_multiple(moduli, k - 1, j);
        lemma_small_mod(0, moduli[j]);
        lemma_divides_combination(moduli[j] as int, h, 0, l);
        assert(l * h + 0 == h * l) by (nonlinear_arith);
    }
}

/// The product of the first `k` moduli is coprime to any later modulus.
pub proof fn lemma_product_coprime_to(moduli: Seq<nat>, k: int, t: int)
    requires
        all_at_least(moduli, 1),
        pairwise_coprime(moduli),
        0 <= k <= t < moduli.len(),
    ensures
        coprime(product(moduli.take(k)), moduli[t]),
    decreases k,
{
    if k == 0 {
        assert(moduli.take(0) =~= Seq::<nat>::empty());
        lemma_bezout_coprime(1, moduli[t], 1, 0);
    } else {
        let tk = moduli.take(k);
        let head = moduli.take(k - 1);
        assert(tk.drop_last() =~= head);
        assert(tk.last() == moduli[k - 1]);
        lemma_product_prefix(moduli, 0, k - 1);
        lemma_product_coprime_to(moduli, k - 1, t);
        assert(coprime(moduli[k - 1], moduli[t]));
        lemma_coprime_product(product(head), moduli[k - 1], moduli[t]);
    }
}

/// Two numbers with the same residues differ by a multiple of the product
/// of the first `k` moduli.
pub proof fn lemma_same_residues(x: nat, y: nat, moduli: Seq<nat>, k: int)
    requires
        all_at_least(moduli, 1),
        pairwise_coprime(moduli),
        0 <= k <= moduli.len(),
        forall|i: int| 0 <= i < moduli.len() ==> x % #[trigger] moduli[i] == y % moduli[i],
    ensures
        product(moduli.take(k)) >= 1,
        (x - y) % (product(moduli.take(k)) as int) == 0,
    decreases k,
{
    lemma_product_prefix(moduli, 0, k);
    if k == 0 {
        assert(moduli.take(0) =~= Seq::<nat>::empty());
    } else {
        let tk = moduli.take(k);
        let head = moduli.take(k - 1);
        assert(tk.drop_last() =~= head);
        assert(tk.last() == moduli[k - 1]);
        lemma_same_residues(x, y, moduli, k - 1);
        lemma_product_coprime_to(moduli, k - 1, k - 1);
        assert(x % moduli[k - 1] == y % moduli[k - 1]);
        lemma_mod_equivalence(x as int, y as int, moduli[k - 1] as int);
        lemma_coprime_divide(product(head), moduli[k - 1], x - y);
    }
}

/// The Chinese remainder theorem, uniqueness: two numbers under the
/// product of pairwise coprime moduli with the same residues are equal.
pub proof fn lemma_crt_unique(x: nat, y: nat, moduli: Seq<nat>)
    requires
        all_at_least(moduli, 1),
        pairwise_coprime(moduli),
        x < product(moduli),
        y < product(moduli),
        forall|i: int| 0 <= i < moduli.len() ==> x % #[trigger] moduli[i] == y % moduli[i],
    ensures
        x == y,
{
    lemma_same_residues(x, y, moduli, moduli.len() as int);
    assert(moduli.take(moduli.len() as int) =~= moduli);
    let m = product(moduli) as int;
    if x > y {
        lemma_small_mod((x - y) as nat, m as nat);
    } else if y > x {
        lemma_mod_equivalence(x as int, y as int, m);
        lemma_mod_equivalence(y as int, x as int, m);
        lemma_small_mod(x, m as nat);
        lemma_small_mod(y, m as nat);
    }
}

/// Where `p` is coprime to `m`, some multiple of `p` added to `x` has the
/// residue `target` modulo `m`, and fewer than `m` steps reach it.
pub proof fn lemma_crt_step(x: nat, p: nat, m: nat, target: nat) -> (t: nat)
    requires
        p >= 1,
        m >= 1,
        target < m,
        coprime(p, m),
    ensures
        t < m,
        (x + t * p) % m == target,
{
    let (s, u) = lemma_bezout(p, m);
    let d = target - x;
    let t = (d * s) % (m as int);
    lemma_mod_bound(d * s, m as int);
    lemma_fundamental_div_mod(d * s, m as int);
    let q = (d * s) / (m as int);
    let k = -(d * u + q * p);
    assert(x + t * p == m * k + target) by (nonlinear_arith)
        requires
            s * p + u * m == 1,
            d * s == m * q + t,
            d == target - x,
            k == -(d * u + q * p),
    ;
    lemma_mod_multiples_vanish(k, target as int, m as int);
    lemma_small_mod(target, m);
    t as nat
}

} // verus!
