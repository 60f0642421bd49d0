//! Multiplication of radix integers.
//!
//! The product is built from the most significant digit of the multiplier
//! downwards: the accumulator is moved up by one place, the multiplicand
//! times the next digit of the multiplier is added to it, and the carries
//! are propagated. The row for one digit of the multiplier is made of the
//! low and the high digits of the products of two digits, each read off a
//! table at the packed pair.
use crate::arithmetic::{
    lemma_radix_digits_of_value, lemma_radix_value_scaled, lemma_shift_add,
    lemma_split_pass, radix_digits, radix_value,
};
use crate::ciphertext::{
    blocks_view, blocks_wf, deepest, depth_within, digit_degrees, digit_values, is_clean,
    lemma_deepest, lemma_deepest_within, radix_modulus, radix_plaintext, within_budget,
    RadixCiphertext,
};
use crate::radix::{
    encrypts, first_dirty, lemma_clean_budget, lemma_clean_digits, lemma_encrypts,
    lemma_first_dirty, lemma_propagated, propagated_degrees, propagation_cost,
    propagation_rounds,
};
use crate::radix_parallel::{
    parallel_propagation_cost, parallel_propagation_rounds,
};
use crate::server_key::ServerKey;
use crate::shortint::{deeper, Ciphertext, DigitView, LookupTable, Parameters, WorkMeter};
use crate::tables::{lemma_pair_product, lemma_unpack, table_of, DigitFunction};
use vstd::arithmetic::div_mod::*;
use vstd::arithmetic::power::*;
use vstd::prelude::*;

verus! {

/// `product` is the clean product of `a` and `b`: each of its digits is the
/// digit of what `a` is worth times what `b` is worth.
pub open spec fn is_product(
    product: Seq<DigitView>,
    a: Seq<DigitView>,
    b: Seq<DigitView>,
    p: Parameters,
) -> bool {
    &&& product.len() == a.len()
    &&& blocks_wf(product, p)
    &&& is_clean(product, p)
    &&& digit_values(product) == radix_digits(
        radix_value(digit_values(a), p.message_modulus.0 as nat) * radix_value(
            digit_values(b),
            p.message_modulus.0 as nat,
        ),
        p.message_modulus.0 as nat,
        a.len(),
    )
}

/// The degrees of a row before its carries are propagated: the lowest digit
/// is a low product digit; every other digit is the sum of a low and a high
/// product digit and, where there is an accumulator, one of its digits.
pub open spec fn row_degrees(n: nat, p: Parameters, with_accumulator: bool) -> Seq<nat> {
    Seq::new(
        n,
        |i: int|
            if i == 0 {
                (p.message_modulus.0 - 1) as nat
            } else if with_accumulator {
                (3 * p.message_modulus.0 - 4) as nat
            } else {
                (2 * p.message_modulus.0 - 3) as nat
            },
    )
}

/// The number of table lookups of a multiplication of clean integers of `n`
/// digits. Every one of the `n` rows takes `2 * n - 1` lookups for its
/// product digits, and a carry propagation.
pub open spec fn mul_cost(n: nat, p: Parameters) -> nat {
    (n * (2 * n - 1) + propagation_cost(row_degrees(n, p, false), p) + (n - 1) * propagation_cost(
        row_degrees(n, p, true),
        p,
    )) as nat
}

/// A bound on the rounds of a multiplication of clean integers of `n`
/// digits: one for the product digits, and a carry propagation for every
/// row, each row waiting for the one before it.
pub open spec fn mul_rounds(n: nat, p: Parameters) -> nat {
    (1 + propagation_rounds(row_degrees(n, p, false), p) + (n - 1) * propagation_rounds(
        row_degrees(n, p, true),
        p,
    )) as nat
}

/// A row lies inside the degree budget, and after carry propagation every
/// one of its digits has the degree of a fresh digit.
pub proof fn lemma_row_degrees(n: nat, p: Parameters, with_accumulator: bool)
    requires
        p.wf(),
    ensures
        forall|i: int|
            0 <= i < n ==> #[trigger] row_degrees(n, p, with_accumulator)[i] <= p.max_degree(),
        propagated_degrees(row_degrees(n, p, with_accumulator), p) == Seq::new(
            n,
            |i: int| (p.message_modulus.0 - 1) as nat,
        ),
{
    p.lemma_bounds();
    let m = p.message_modulus.0 as int;
    let c = p.carry_modulus.0 as int;
    assert(3 * m - 4 <= (m - 1) * c - 1) by (nonlinear_arith)
        requires
            2 <= m <= c,
            8 <= m * c,
    ;
    let d = row_degrees(n, p, with_accumulator);
    lemma_first_dirty(d, p, 0);
    let fd = first_dirty(d, p, 0);
    assert forall|i: int| 0 <= i < n implies propagated_degrees(d, p)[i] == m - 1 by {
        if i < fd {
            assert(d[i] < m);
        }
    }
    assert(propagated_degrees(d, p) =~= Seq::new(n, |i: int| (p.message_modulus.0 - 1) as nat));
}

/// Where the accumulator is worth `a * rest` modulo `modulus`, a row worth
/// `a * c` and `base` times the accumulator, up to multiples of the
/// modulus, is worth `a * (c + base * rest)` modulo `modulus`.
pub proof fn lemma_horner_step(
    row: nat,
    acc: nat,
    a: nat,
    c: nat,
    rest: nat,
    base: nat,
    modulus: nat,
    dropped: nat,
)
    requires
        modulus > 0,
        acc == (a * rest) % modulus,
        row + dropped * modulus == c * a + base * acc,
    ensures
        row % modulus == (a * (c + base * rest)) % modulus,
{
    let m = modulus as int;
    let x = (c * a) as int;
    let full = (a * rest) as int;
    lemma_mul_mod_noop_right(base as int, full, m);
    lemma_add_mod_noop_right(x, base * full, m);
    lemma_add_mod_noop_right(x, base * (full % m), m);
    assert(x + base * full == a * (c + base * rest)) by (nonlinear_arith)
        requires
            x == c * a,
            full == a * rest,
    ;
    lemma_mod_multiples_vanish(dropped as int, row as int, m);
    assert(m * dropped + row == x + base * acc) by (nonlinear_arith)
        requires
            row + dropped * m == x + base * acc,
    ;
}

impl ServerKey {
    /// One row of a multiplication: the multiplicand times one digit of the
    /// multiplier, added to the accumulator moved up by one place. The
    /// carries are not propagated.
    fn product_row(
        &self,
        av: &Vec<Ciphertext>,
        digit: &Ciphertext,
        acc: Option<&Vec<Ciphertext>>,
        low_table: &LookupTable,
        high_table: &LookupTable,
        meter: &mut WorkMeter,
        Ghost(operand_depth): Ghost<nat>,
        Ghost(acc_depth): Ghost<nat>,
    ) -> (row: Vec<Ciphertext>)
        requires
            self.wf(),
            av@.len() >= 1,
            forall|i: int| 0 <= i < av@.len() ==> (#[trigger] av@[i])@.depth <= operand_depth,
            digit@.depth <= operand_depth,
            acc matches Some(v) ==> forall|i: int|
                0 <= i < v@.len() ==> (#[trigger] v@[i])@.depth <= acc_depth,
            forall|i: int|
                0 <= i < av@.len() ==> {
                    &&& (#[trigger] av@[i])@.wf(self@.parameters)
                    &&& av@[i]@.degree < self@.parameters.message_modulus.0
                },
            digit.wf(self@.parameters),
            digit@.degree < self@.parameters.message_modulus.0,
            table_of(*low_table, DigitFunction::ProductLow, self@.parameters),
            table_of(*high_table, DigitFunction::ProductHigh, self@.parameters),
            acc matches Some(v) ==> {
                &&& v@.len() == av@.len()
                &&& forall|i: int|
                    0 <= i < v@.len() ==> {
                        &&& (#[trigger] v@[i])@.wf(self@.parameters)
                        &&& v@[i]@.degree == self@.parameters.message_modulus.0 - 1
                    }
            },
        ensures
            row@.len() == av@.len(),
            forall|i: int|
                0 <= i < row@.len() ==> {
                    &&& (#[trigger] row@[i])@.wf(self@.parameters)
                    &&& row@[i]@.degree == row_degrees(
                        av@.len(),
                        self@.parameters,
                        acc.is_some(),
                    )[i]
                    &&& row@[i]@.value == (av@[i]@.value * digit@.value) % (
                    self@.parameters.message_modulus.0 as nat) + (if i >= 1 {
                        (av@[i - 1]@.value * digit@.value) / (
                        self@.parameters.message_modulus.0 as nat)
                    } else {
                        0
                    }) + (if i >= 1 && acc.is_some() {
                        acc.unwrap()@[i - 1]@.value
                    } else {
                        0
                    })
                },
            forall|i: int|
                0 <= i < row@.len() ==> (#[trigger] row@[i])@.depth <= deeper(
                    operand_depth + 1,
                    acc_depth,
                ),
            *final(meter) == old(meter).advance((2 * av@.len() - 1) as nat),
    {
        let key = self.as_shortint();
        let ghost p = self@.parameters;
        let ghost m = p.message_modulus.0 as nat;
        let ghost c = digit@.value;
        let ghost meter0 = *meter;
        let n = av.len();
        let mut row: Vec<Ciphertext> = Vec::new();
        proof {
            p.lemma_bounds();
            assert(av@[0]@.wf(p));
            lemma_unpack(av@[0]@.value, c, m);
        }
        let packed = self.pack_pair(&av[0], digit);
        let low = key.apply_lookup_table(&packed, low_table, meter);
        row.push(low);
        let mut previous = packed;
        let mut i: usize = 1;
        while i < n
            invariant
                self.wf(),
                p == self@.parameters,
                key@ == self@,
                m == p.message_modulus.0,
                c == digit@.value,
                n == av@.len(),
                1 <= i <= n,
                row@.len() == i,
                forall|k: int|
                    0 <= k < av@.len() ==> {
                        &&& (#[trigger] av@[k])@.wf(p)
                        &&& av@[k]@.degree < m
                    },
                digit.wf(p),
                digit@.degree < m,
                table_of(*low_table, DigitFunction::ProductLow, p),
                table_of(*high_table, DigitFunction::ProductHigh, p),
                acc matches Some(v) ==> {
                    &&& v@.len() == av@.len()
                    &&& forall|k: int|
                        0 <= k < v@.len() ==> {
                            &&& (#[trigger] v@[k])@.wf(p)
                            &&& v@[k]@.degree == m - 1
                        }
                },
                previous.wf(p),
                previous@.value == av@[i - 1]@.value * m + c,
                forall|k: int|
                    0 <= k < i ==> {
                        &&& (#[trigger] row@[k])@.wf(p)
                        &&& row@[k]@.degree == row_degrees(n as nat, p, acc.is_some())[k]
                        &&& row@[k]@.value == (av@[k]@.value * c) % m + (if k >= 1 {
                            (av@[k - 1]@.value * c) / m
                        } else {
                            0
                        }) + (if k >= 1 && acc.is_some() {
                            acc.unwrap()@[k - 1]@.value
                        } else {
                            0
                        })
                    },
                forall|k: int| 0 <= k < av@.len() ==> (#[trigger] av@[k])@.depth <= operand_depth,
                digit@.depth <= operand_depth,
                acc matches Some(v) ==> forall|k: int|
                    0 <= k < v@.len() ==> (#[trigger] v@[k])@.depth <= acc_depth,
                previous@.depth <= operand_depth,
                forall|k: int|
                    0 <= k < i ==> (#[trigger] row@[k])@.depth <= deeper(
                        operand_depth + 1,
                        acc_depth,
                    ),
                *meter == meter0.advance((2 * i - 1) as nat),
            decreases n - i,
        {
            proof {
                p.lemma_bounds();
                assert(av@[i as int]@.wf(p));
                assert(av@[i - 1]@.wf(p));
                lemma_unpack(av@[i as int]@.value, c, m);
                lemma_unpack(av@[i - 1]@.value, c, m);
                lemma_pair_product(av@[i as int]@.value * m + c, m);
                lemma_pair_product(av@[i - 1]@.value * m + c, m);
                assert(3 * m < m * m + 4) by (nonlinear_arith)
                    requires
                        m >= 2,
                ;
            }
            let high = key.apply_lookup_table(&previous, high_table, meter);
            let packed = self.pack_pair(&av[i], digit);
            let low = key.apply_lookup_table(&packed, low_table, meter);
            proof {
                lemma_small_mod(low@.value + high@.value, p.total());
            }
            let mut sum = key.unchecked_add(&low, &high);
            match acc {
                Some(v) => {
                    proof {
                        assert(v@[i - 1]@.wf(p));
                        lemma_small_mod(sum@.value + v@[i - 1]@.value, p.total());
                    }
                    sum = key.unchecked_add(&sum, &v[i - 1]);
                },
                None => {},
            }
            row.push(sum);
            previous = packed;
            i = i + 1;
        }
        row
    }

    /// Multiplies two clean radix integers: the result is clean and encodes
    /// the product modulo `message_modulus^n`.
    pub fn unchecked_mul(&self, a: &RadixCiphertext, b: &RadixCiphertext, meter: &mut WorkMeter) -> (r:
        RadixCiphertext)
        requires
            self.wf(),
            a.wf(self@.parameters),
            b.wf(self@.parameters),
            a@.len() == b@.len(),
            is_clean(a@, self@.parameters),
            is_clean(b@, self@.parameters),
        ensures
            is_product(r@, a@, b@, self@.parameters),
            within_budget(r@, self@.max_degree),
            forall|i: int|
                0 <= i < r@.len() ==> (#[trigger] r@[i]).degree == self@.parameters.message_modulus.0
                    - 1,
            radix_plaintext(r@, self@.parameters) == (radix_plaintext(a@, self@.parameters)
                * radix_plaintext(b@, self@.parameters)) % radix_modulus(
                self@.parameters,
                a@.len(),
            ),
            depth_within(
                r@,
                deeper(deepest(a@), deepest(b@)) + mul_rounds(a@.len(), self@.parameters),
            ),
            *final(meter) == old(meter).advance(mul_cost(a@.len(), self@.parameters)),
    {
        let ghost p = self@.parameters;
        let ghost m = p.message_modulus.0 as nat;
        let ghost meter0 = *meter;
        let ghost deep = deeper(deepest(a@), deepest(b@));
        let ghost first_rounds = propagation_rounds(row_degrees(a@.len(), p, false), p);
        let ghost later_rounds = propagation_rounds(row_degrees(a@.len(), p, true), p);
        let av = a.blocks();
        let bv = b.blocks();
        let n = av.len();
        let ghost da = a.digits();
        let ghost db = b.digits();
        let ghost va = radix_value(da, m);
        let ghost modulus = pow(m as int, n as nat) as nat;
        let ghost row_cost = (2 * n - 1) as nat;
        let ghost first_cost = propagation_cost(row_degrees(n as nat, p, false), p);
        let ghost later_cost = propagation_cost(row_degrees(n as nat, p, true), p);
        let low_table = self.table(DigitFunction::ProductLow);
        let high_table = self.table(DigitFunction::ProductHigh);
        proof {
            p.lemma_bounds();
            lemma_pow_positive(m as int, n as nat);
            lemma_clean_digits(a@, p);
            lemma_clean_digits(b@, p);
            lemma_deepest(a@);
            lemma_deepest(b@);
            assert forall|i: int| 0 <= i < n implies {
                &&& (#[trigger] av@[i])@.wf(p)
                &&& av@[i]@.degree < m
                &&& av@[i]@.depth <= deep
            } by {
                assert(a@[i].wf(p));
                assert(a@[i].degree < m);
                assert(a@[i].depth <= deep);
            }
            assert forall|i: int| 0 <= i < n implies {
                &&& (#[trigger] bv@[i])@.wf(p)
                &&& bv@[i]@.degree < m
                &&& bv@[i]@.depth <= deep
            } by {
                assert(b@[i].wf(p));
                assert(b@[i].degree < m);
                assert(b@[i].depth <= deep);
            }
            lemma_row_degrees(n as nat, p, false);
            lemma_row_degrees(n as nat, p, true);
        }
        let mut j: usize = n - 1;
        let row = self.product_row(
            av,
            &bv[j],
            None,
            &low_table,
            &high_table,
            meter,
            Ghost(deep),
            Ghost(0),
        );
        let mut acc = RadixCiphertext::wrap(row);
        proof {
            assert forall|i: int| 0 <= i < acc@.len() implies (#[trigger] acc@[i]).depth <= deep
                + 1 by {
                assert(row@[i]@.depth <= deeper(deep + 1, 0));
            }
            lemma_deepest_within(acc@, deep + 1);
            let before = acc@;
            let nd = digit_values(before);
            let c = db[j as int];
            assert(bv@[j as int]@.wf(p));
            let prod = Seq::new(n as nat, |i: int| da[i] * c);
            lemma_radix_value_scaled(da, c, prod, m);
            lemma_split_pass(prod, nd, m, n as nat);
            assert(nd.take(n as int) =~= nd);
            assert(prod.take(n as int) =~= prod);
            let tail = db.subrange(j as int, n as int);
            assert(tail.drop_first() =~= Seq::<nat>::empty());
            assert(tail[0] == c);
            assert(radix_value(tail.drop_first(), m) == 0);
            assert(radix_value(tail, m) == c + m * 0);
            let dropped = prod[n - 1] / m;
            assert(va * 0 == 0) by (nonlinear_arith);
            lemma_small_mod(0, modulus);
            assert(m * 0 == 0) by (nonlinear_arith);
            lemma_horner_step(radix_value(nd, m), 0, va, c, 0, m, modulus, dropped);
            assert(digit_degrees(before) =~= row_degrees(n as nat, p, false));
            assert forall|i: int| 0 <= i < before.len() implies (#[trigger] before[i]).degree
                <= self@.max_degree by {
                assert(row_degrees(n as nat, p, false)[i] <= p.max_degree());
            }
            assert forall|i: int| 0 <= i < before.len() implies (#[trigger] before[i]).wf(p) by {
                assert(row@[i]@.wf(p));
            }
        }
        let ghost raw = acc@;
        self.full_propagate(&mut acc, meter);
        proof {
            lemma_propagated(acc@, raw, p);
        }
        let ghost mut spent: nat = row_cost + first_cost;
        proof {
            assert(1 * row_cost == row_cost) by (nonlinear_arith);
            assert(0 * later_cost == 0) by (nonlinear_arith);
            assert(0 * later_rounds == 0) by (nonlinear_arith);
        }
        while j > 0
            invariant
                self.wf(),
                p == self@.parameters,
                m == p.message_modulus.0,
                n == av@.len(),
                n == bv@.len(),
                n >= 1,
                j < n,
                da == digit_values(blocks_view(av@)),
                db == digit_values(blocks_view(bv@)),
                va == radix_value(da, m),
                modulus == pow(m as int, n as nat),
                modulus > 0,
                row_cost == 2 * n - 1,
                first_cost == propagation_cost(row_degrees(n as nat, p, false), p),
                later_cost == propagation_cost(row_degrees(n as nat, p, true), p),
                table_of(low_table, DigitFunction::ProductLow, p),
                table_of(high_table, DigitFunction::ProductHigh, p),
                forall|i: int|
                    0 <= i < n ==> {
                        &&& (#[trigger] av@[i])@.wf(p)
                        &&& av@[i]@.degree < m
                        &&& av@[i]@.depth <= deep
                    },
                forall|i: int|
                    0 <= i < n ==> {
                        &&& (#[trigger] bv@[i])@.wf(p)
                        &&& bv@[i]@.degree < m
                        &&& bv@[i]@.depth <= deep
                    },
                acc@.len() == n,
                blocks_wf(acc@, p),
                is_clean(acc@, p),
                digit_degrees(acc@) == Seq::new(n as nat, |i: int| (m - 1) as nat),
                radix_value(digit_values(acc@), m) == (va * radix_value(
                    db.subrange(j as int, n as int),
                    m,
                )) % modulus,
                spent == (n - j) * row_cost + first_cost + (n - j - 1) * later_cost,
                first_rounds == propagation_rounds(row_degrees(n as nat, p, false), p),
                later_rounds == propagation_rounds(row_degrees(n as nat, p, true), p),
                depth_within(
                    acc@,
                    (deep + 1 + first_rounds + (n - j - 1) * later_rounds) as nat,
                ),
                *meter == meter0.advance(spent),
            decreases j,
        {
            j = j - 1;
            let accv = acc.blocks();
            let ghost dacc = digit_values(acc@);
            let ghost acc_deep = (deep + 1 + first_rounds + (n - j - 2) * later_rounds) as nat;
            proof {
                assert forall|i: int| 0 <= i < accv@.len() implies {
                    &&& (#[trigger] accv@[i])@.wf(p)
                    &&& accv@[i]@.degree == m - 1
                    &&& accv@[i]@.depth <= acc_deep
                } by {
                    assert(acc@[i].wf(p));
                    assert(digit_degrees(acc@)[i] == acc@[i].degree);
                    assert(acc@[i].depth <= acc_deep);
                }
                assert(0 <= (n - j - 2) * later_rounds) by (nonlinear_arith)
                    requires
                        n - j - 2 >= 0,
                        later_rounds >= 0,
                ;
            }
            let row = self.product_row(
                av,
                &bv[j],
                Some(accv),
                &low_table,
                &high_table,
                meter,
                Ghost(deep),
                Ghost(acc_deep),
            );
            let mut next = RadixCiphertext::wrap(row);
            let ghost raw = next@;
            proof {
                assert forall|i: int| 0 <= i < raw.len() implies (#[trigger] raw[i]).depth
                    <= acc_deep by {
                    assert(row@[i]@.depth <= deeper(deep + 1, acc_deep));
                }
                lemma_deepest_within(raw, acc_deep);
                let s = (n - j - 2) as int;
                let lr = later_rounds as int;
                assert((s + 1) * lr == s * lr + lr) by (nonlinear_arith);
                let nd = digit_values(raw);
                let c = db[j as int];
                assert(bv@[j as int]@.wf(p));
                let prod = Seq::new(n as nat, |i: int| da[i] * c);
                let split = Seq::new(
                    n as nat,
                    |i: int|
                        prod[i] % m + if i >= 1 {
                            prod[i - 1] / m
                        } else {
                            0
                        },
                );
                lemma_radix_value_scaled(da, c, prod, m);
                lemma_split_pass(prod, split, m, n as nat);
                assert(split.take(n as int) =~= split);
                assert(prod.take(n as int) =~= prod);
                assert forall|i: int| 1 <= i < n implies #[trigger] nd[i] == dacc[i - 1]
                    + split[i] by {
                    assert(row@[i]@.wf(p));
                    assert(dacc[i - 1] == accv@[i - 1]@.value);
                }
                assert(nd[0] == split[0]) by {
                    assert(row@[0]@.wf(p));
                }
                lemma_shift_add(dacc, split, nd, m);
                let tail = db.subrange(j as int, n as int);
                let rest = db.subrange(j + 1, n as int);
                assert(tail.drop_first() =~= rest);
                assert(tail[0] == c);
                let dropped = prod[n - 1] / m + dacc[n - 1];
                let x = radix_value(nd, m) as int;
                let s = radix_value(split, m) as int;
                let r = radix_value(dacc, m) as int;
                let k1 = (prod[n - 1] / m) as int;
                let k2 = dacc[n - 1] as int;
                let big = modulus as int;
                let target = (c * va) as int;
                assert(s + k1 * big == target);
                assert(x + k2 * big == s + m * r);
                assert(x + (k1 + k2) * big == target + m * r) by (nonlinear_arith)
                    requires
                        s + k1 * big == target,
                        x + k2 * big == s + m * r,
                ;
                lemma_horner_step(
                    radix_value(nd, m),
                    radix_value(dacc, m),
                    va,
                    c,
                    radix_value(rest, m),
                    m,
                    modulus,
                    dropped,
                );
                assert(digit_degrees(raw) =~= row_degrees(n as nat, p, true));
                lemma_row_degrees(n as nat, p, true);
                assert forall|i: int| 0 <= i < raw.len() implies (#[trigger] raw[i]).degree
                    <= self@.max_degree by {
                    assert(row_degrees(n as nat, p, true)[i] <= p.max_degree());
                }
                assert forall|i: int| 0 <= i < raw.len() implies (#[trigger] raw[i]).wf(p) by {
                    assert(row@[i]@.wf(p));
                }
            }
            self.full_propagate(&mut next, meter);
            proof {
                lemma_propagated(next@, raw, p);
                let s = (n - j - 1) as int;
                assert((s + 1) * row_cost == s * row_cost + row_cost) by (nonlinear_arith);
                assert(s * later_cost == (s - 1) * later_cost + later_cost) by (nonlinear_arith);
                spent = spent + row_cost + later_cost;
            }
            acc = next;
        }
        proof {
            assert(db.subrange(0, n as int) =~= db);
            let vb = radix_value(db, m);
            lemma_radix_digits_of_value(digit_values(acc@), va * vb, m);
            lemma_clean_budget(acc@, p, self@.max_degree);
            lemma_clean_digits(acc@, p);
            assert forall|i: int| 0 <= i < acc@.len() implies (#[trigger] acc@[i]).degree == m
                - 1 by {
                assert(digit_degrees(acc@)[i] == acc@[i].degree);
            }
            assert(n * row_cost == n * (2 * n - 1)) by (nonlinear_arith)
                requires
                    row_cost == 2 * n - 1,
            ;
        }
        acc
    }

    /// Multiplies two radix integers. Operands that are not clean are
    /// propagated first, on copies.
    pub fn mul(&self, a: &RadixCiphertext, b: &RadixCiphertext, meter: &mut WorkMeter) -> (r:
        RadixCiphertext)
        requires
            self.wf(),
            a.wf(self@.parameters),
            b.wf(self@.parameters),
            a@.len() == b@.len(),
        ensures
            r@.len() == a@.len(),
            r.wf(self@.parameters),
            is_clean(r@, self@.parameters),
            within_budget(r@, self@.max_degree),
            forall|i: int|
                0 <= i < r@.len() ==> (#[trigger] r@[i]).degree == self@.parameters.message_modulus.0
                    - 1,
            r.digits() == radix_digits(
                radix_plaintext(a@, self@.parameters) * radix_plaintext(b@, self@.parameters),
                self@.parameters.message_modulus.0 as nat,
                a@.len(),
            ),
            radix_plaintext(r@, self@.parameters) == (radix_plaintext(a@, self@.parameters)
                * radix_plaintext(b@, self@.parameters)) % radix_modulus(
                self@.parameters,
                a@.len(),
            ),
            depth_within(
                r@,
                deeper(
                    deepest(a@) + parallel_propagation_rounds(digit_degrees(a@), self@.parameters),
                    deepest(b@) + parallel_propagation_rounds(digit_degrees(b@), self@.parameters),
                ) + mul_rounds(a@.len(), self@.parameters),
            ),
            *final(meter) == old(meter).advance(
                parallel_propagation_cost(digit_degrees(a@), self@.parameters)
                    + parallel_propagation_cost(digit_degrees(b@), self@.parameters) + mul_cost(
                    a@.len(),
                    self@.parameters,
                ),
            ),
    {
        let (ca, cb) = self.propagated_copies(a, b, meter);
        self.unchecked_mul(&ca, &cb, meter)
    }
}

/// Multiplication is multiplication modulo `message_modulus^n`: where `a`
/// encodes `x` and `b` encodes `y`, their clean product decrypts to
/// `(x * y) % message_modulus^n`.
pub proof fn lemma_mul_decrypts_to_product(
    p: Parameters,
    x: nat,
    y: nat,
    a: Seq<DigitView>,
    b: Seq<DigitView>,
    product: Seq<DigitView>,
)
    requires
        p.wf(),
        a.len() == b.len(),
        encrypts(a, x, p),
        encrypts(b, y, p),
        is_product(product, a, b, p),
    ensures
        radix_plaintext(product, p) == (x * y) % radix_modulus(p, a.len()),
{
    let base = p.message_modulus.0 as nat;
    let n = a.len();
    let m = pow(base as int, n);
    lemma_pow_positive(base as int, n);
    lemma_encrypts(a, x, p);
    lemma_encrypts(b, y, p);
    let va = radix_value(digit_values(a), base);
    let vb = radix_value(digit_values(b), base);
    crate::arithmetic::lemma_radix_digits_value(va * vb, base, n);
    lemma_mod_twice((va * vb) as int, m);
    lemma_mul_mod_noop_general(x as int, y as int, m);
}

} // verus!
