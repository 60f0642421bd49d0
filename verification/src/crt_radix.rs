//! Conversion of an integer from residue to radix representation.
//!
//! The residues are first turned into the digits of the integer in the
//! mixed radix of the moduli: the digit for a modulus is what is left of
//! the integer at that modulus once the digits for the moduli before it
//! are taken away. Every such digit, weighted by the product of the moduli
//! before it, is then written out in radix form by one table lookup for
//! each place, and the rows are added up.
use crate::arithmetic::{lemma_radix_digits_of_value, lemma_radix_digits_value, radix_digits, radix_value};
use crate::ciphertext::{
    blocks_view, blocks_wf, deepest, depth_within, digit_degrees, digit_values, is_clean,
    lemma_deepest, radix_modulus, radix_plaintext, within_budget, MalformedInteger,
    RadixCiphertext,
};
use crate::crt::{moduli_view, CrtCiphertext, CrtView};
use crate::lookahead::{lookahead_cost, lookahead_depth};
use crate::number_theory::{
    coprime, lemma_bezout, lemma_crt_unique, lemma_product_prefix, product,
};
use crate::radix::{lemma_clean_budget, lemma_clean_digits, lemma_sum_depth};
use crate::server_key::ServerKey;
use crate::shortint::{one_deeper, Ciphertext, DigitView, Parameters, WorkMeter};
use crate::tables::{garner_step, lemma_unpack, weighted_digit, DigitFunction};
use vstd::arithmetic::div_mod::*;
use vstd::arithmetic::power::*;
use vstd::prelude::*;

verus! {

/// The number of table lookups that turn `k` residues into mixed-radix
/// digits: the digit at a place takes one lookup for each place before it.
pub open spec fn garner_cost(k: nat) -> nat
    decreases k,
{
    if k == 0 {
        0
    } else {
        garner_cost((k - 1) as nat) + (k - 1) as nat
    }
}

/// The number of table lookups of a conversion to `n` radix digits: the
/// reduction of the residues where they are not reduced, the mixed-radix
/// digits, `n` lookups for the row of each of them, and a carry lookahead
/// for every row but the first.
pub open spec fn conversion_cost(ct: CrtView, n: nat) -> nat {
    let k = ct.moduli.len();
    ((if ct.is_reduced() {
        0
    } else {
        k
    }) + garner_cost(k) + k * n + (k - 1) * lookahead_cost(n)) as nat
}

/// A bound on the rounds of a conversion to `n` radix digits: one where
/// the residues are not reduced, one for every residue on the way to the
/// mixed-radix digits and their rows, and a carry lookahead for every row
/// but the first.
pub open spec fn conversion_rounds(ct: CrtView, n: nat) -> nat {
    let k = ct.moduli.len();
    ((if ct.is_reduced() {
        0nat
    } else {
        1nat
    }) + k + (k - 1) * lookahead_depth(n)) as nat
}

/// `radix` is the radix form of `ct`: clean digits, which are the lowest
/// digits of the integer under the product of the moduli that `ct`
/// encodes.
pub open spec fn is_reconstruction(radix: Seq<DigitView>, ct: CrtView, p: Parameters) -> bool {
    &&& blocks_wf(radix, p)
    &&& is_clean(radix, p)
    &&& forall|x: nat|
        x < ct.modulus() && #[trigger] ct.encodes(x) ==> digit_values(radix) == radix_digits(
            x,
            p.message_modulus.0 as nat,
            radix.len(),
        )
}

/// The round trip through the radix form: where `ct` encodes `x`, an
/// integer under the product of its moduli, and the radix form has room
/// for `x`, the radix form decrypts to `x`.
pub proof fn lemma_reconstruction_round_trip(
    radix: Seq<DigitView>,
    ct: CrtView,
    p: Parameters,
    x: nat,
)
    requires
        p.wf(),
        ct.wf(p),
        x < ct.modulus(),
        ct.encodes(x),
        is_reconstruction(radix, ct, p),
    ensures
        radix_plaintext(radix, p) == x % radix_modulus(p, radix.len()),
        x < radix_modulus(p, radix.len()) ==> radix_plaintext(radix, p) == x,
{
    let m = p.message_modulus.0 as nat;
    lemma_radix_digits_value(x, m, radix.len());
    lemma_mod_twice(x as int, pow(m as int, radix.len()));
    if x < radix_modulus(p, radix.len()) {
        lemma_small_mod(x, radix_modulus(p, radix.len()));
    }
}

/// The inverse of `a` modulo `m`, by trial: the least number whose product
/// with `a` leaves 1 modulo `m`, or 0 modulo 1.
pub fn modular_inverse(a: u64, m: u64) -> (inverse: u64)
    requires
        m >= 1,
        coprime(a as nat, m as nat),
    ensures
        inverse < m,
        (a * inverse) % (m as int) == 1int % (m as int),
{
    let ghost witness: nat;
    proof {
        if a == 0 {
            // only 1 is coprime to 0
            if m >= 2 {
                lemma_mod_self_0(m as int);
                lemma_small_mod(0, m as nat);
                assert((a as nat) % (m as nat) == 0 && (m as nat) % (m as nat) == 0);
            }
            witness = 0;
            assert(a * 0 == 0) by (nonlinear_arith);
        } else {
            let (s, u) = lemma_bezout(a as nat, m as nat);
            let w = s % (m as int);
            lemma_mod_bound(s, m as int);
            lemma_mul_mod_noop_right(a as int, s, m as int);
            assert(a * s == m * (-u) + 1) by (nonlinear_arith)
                requires
                    s * a + u * m == 1,
            ;
            lemma_mod_multiples_vanish(-u, 1, m as int);
            witness = w as nat;
        }
    }
    let target: u128 = 1 % (m as u128);
    let mut i: u64 = 0;
    proof {
        assert(a * 0 == 0) by (nonlinear_arith);
    }
    while ((a as u128) * (i as u128)) % (m as u128) != target
        invariant
            m >= 1,
            target == 1int % (m as int),
            i <= witness < m,
            (a * witness) % (m as int) == 1int % (m as int),
            a * i <= 0xffff_ffff_ffff_ffff * 0xffff_ffff_ffff_ffff,
        decreases witness - i,
    {
        i = i + 1;
        assert(a * i <= 0xffff_ffff_ffff_ffff * 0xffff_ffff_ffff_ffff) by (nonlinear_arith)
            requires
                0 <= a <= 0xffff_ffff_ffff_ffff,
                0 <= i <= 0xffff_ffff_ffff_ffff,
        ;
    }
    i
}

/// One step of the mixed-radix conversion: from the residue of `x` modulo
/// `mk` and the digit of `x` at `mj` to the residue modulo `mk` of what is
/// left of `x` above `mj`.
pub proof fn lemma_garner_step(x: nat, mj: nat, mk: nat, inverse: nat, msg: nat)
    requires
        mj >= 1,
        mk >= 2,
        mj <= msg,
        mk <= msg,
        (mj * inverse) % mk == 1,
    ensures
        garner_step((x % mk) * msg + x % mj, msg, mk, inverse) == (x / mj) % mk,
{
    let u = x % mk;
    let v = x % mj;
    lemma_mod_bound(x as int, mk as int);
    lemma_mod_bound(x as int, mj as int);
    lemma_unpack(u, v, msg);
    lemma_small_mod(u, mk);
    lemma_mod_bound(v as int, mk as int);
    let a = (u % mk + mk - v % mk) as int;
    let y = (x / mj) as int;
    lemma_fundamental_div_mod(x as int, mj as int);
    lemma_fundamental_div_mod(x as int, mk as int);
    lemma_fundamental_div_mod(v as int, mk as int);
    let c = 1 + (v as int) / (mk as int) - (x as int) / (mk as int);
    let xq = (x as int) / (mk as int);
    let vq = (v as int) / (mk as int);
    let vr = (v % mk) as int;
    assert(x == mk * xq + u);
    assert(v == mk * vq + vr);
    assert(x == mj * y + v);
    assert(a == mj * y + mk * c) by (nonlinear_arith)
        requires
            a == u + mk - vr,
            x == mk * xq + u,
            v == mk * vq + vr,
            x == mj * y + v,
            c == 1 + vq - xq,
    ;
    let inv = inverse as int;
    assert(a * inv == mk * (c * inv) + (mj * inv) * y) by (nonlinear_arith)
        requires
            a == mj * y + mk * c,
    ;
    lemma_mod_multiples_vanish(c * inv, (mj * inv) * y, mk as int);
    lemma_mul_mod_noop_left(mj * inv, y, mk as int);
    assert(1 * y == y);
}

impl ServerKey {
    /// The digits of the integer in the mixed radix of the moduli: the
    /// digit at `k` is the integer divided by the product of the moduli
    /// before `k`, modulo the modulus at `k`.
    fn garner_digits(
        &self,
        ct: &CrtCiphertext,
        meter: &mut WorkMeter,
        Ghost(x): Ghost<nat>,
        Ghost(known): Ghost<bool>,
        Ghost(deep): Ghost<nat>,
    ) -> (digits: Vec<Ciphertext>)
        requires
            self.wf(),
            ct.wf(self@.parameters),
            ct@.is_reduced(),
            known ==> ct@.encodes(x),
            depth_within(ct@.blocks, deep),
        ensures
            digits@.len() == ct@.moduli.len(),
            forall|k: int|
                0 <= k < digits@.len() ==> {
                    &&& (#[trigger] digits@[k])@.wf(self@.parameters)
                    &&& digits@[k]@.degree < ct@.moduli[k]
                    &&& digits@[k]@.depth <= deep + k
                    &&& known ==> digits@[k]@.value == (x / product(ct@.moduli.take(k)))
                        % ct@.moduli[k]
                },
            *final(meter) == old(meter).advance(garner_cost(ct@.moduli.len())),
    {
        let key = self.as_shortint();
        let ghost p = self@.parameters;
        let ghost msg = p.message_modulus.0 as nat;
        let ghost mv = ct@.moduli;
        let ghost meter0 = *meter;
        let blocks = ct.blocks();
        let moduli = ct.moduli();
        let count = moduli.len();
        let mut digits: Vec<Ciphertext> = Vec::new();
        proof {
            p.lemma_bounds();
            assert(ct@.blocks[0].wf(p));
            assert(ct@.blocks[0].degree < mv[0]);
            assert(ct@.blocks[0] == blocks@[0]@);
            assert(ct@.blocks[0].depth <= deep);
            assert(mv.take(0) =~= Seq::<nat>::empty());
            assert(product(mv.take(0)) == 1);
            assert(2 <= mv[0]);
            lemma_small_mod(ct@.blocks[0].value, mv[0]);
            assert(x / 1 == x);
            assert(meter0.advance(0) == meter0);
            assert(garner_cost(0) == 0);
            assert(garner_cost(1) == 0);
            assert forall|t: int| 0 <= t < mv.len() implies #[trigger] mv[t] >= 1 by {
                assert(2 <= mv[t]);
            }
        }
        digits.push(blocks[0]);
        let mut k: usize = 1;
        while k < count
            invariant
                self.wf(),
                p == self@.parameters,
                key@ == self@,
                msg == p.message_modulus.0,
                mv == ct@.moduli,
                ct.wf(p),
                ct@.is_reduced(),
                known ==> ct@.encodes(x),
                count == moduli@.len(),
                count == blocks@.len(),
                blocks_view(blocks@) == ct@.blocks,
                moduli_view(moduli@) == mv,
                crate::number_theory::all_at_least(mv, 1),
                1 <= k <= count,
                digits@.len() == k,
                forall|t: int|
                    0 <= t < k ==> {
                        &&& (#[trigger] digits@[t])@.wf(p)
                        &&& digits@[t]@.degree < mv[t]
                        &&& digits@[t]@.depth <= deep + t
                        &&& known ==> digits@[t]@.value == (x / product(mv.take(t))) % mv[t]
                    },
                depth_within(ct@.blocks, deep),
                *meter == meter0.advance(garner_cost(k as nat)),
            decreases count - k,
        {
            let mk: u64 = moduli[k];
            let mut running: Ciphertext = blocks[k];
            let ghost meter1 = *meter;
            let mut j: usize = 0;
            proof {
                assert(2 <= mv[k as int] <= msg);
                assert(ct@.blocks[k as int].wf(p));
                assert(ct@.blocks[k as int].degree < mv[k as int]);
                assert(ct@.blocks[k as int] == blocks@[k as int]@);
                assert(ct@.blocks[k as int].depth <= deep);
                lemma_small_mod(ct@.blocks[k as int].value, mv[k as int]);
                assert(mv.take(0) =~= Seq::<nat>::empty());
                assert(product(mv.take(0)) == 1);
                assert(x / 1 == x);
                assert(meter1.advance(0) == meter1);
            }
            while j < k
                invariant
                    self.wf(),
                    p == self@.parameters,
                    key@ == self@,
                    msg == p.message_modulus.0,
                    mv == ct@.moduli,
                    ct.wf(p),
                    count == moduli@.len(),
                    moduli_view(moduli@) == mv,
                    crate::number_theory::all_at_least(mv, 1),
                    j <= k < count,
                    mk == mv[k as int],
                    2 <= mk <= msg,
                    digits@.len() == k,
                    forall|t: int|
                        0 <= t < k ==> {
                            &&& (#[trigger] digits@[t])@.wf(p)
                            &&& digits@[t]@.degree < mv[t]
                            &&& digits@[t]@.depth <= deep + t
                            &&& known ==> digits@[t]@.value == (x / product(mv.take(t))) % mv[t]
                        },
                    running.wf(p),
                    running@.depth <= deep + j,
                    running@.degree < mk,
                    known ==> running@.value == (x / product(mv.take(j as int))) % (mk as nat),
                    *meter == meter1.advance(j as nat),
                decreases k - j,
            {
                let mj: u64 = moduli[j];
                proof {
                    p.lemma_bounds();
                    assert(2 <= mv[j as int] <= msg);
                    assert(coprime(mv[j as int], mv[k as int]));
                    assert(digits@[j as int]@.wf(p));
                }
                let inverse = modular_inverse(mj, mk);
                proof {
                    lemma_small_mod(1, mk as nat);
                }
                let table = self.table(DigitFunction::GarnerStep(mk, inverse));
                let packed = self.pack_pair(&running, &digits[j]);
                let ghost before = running@.value;
                running = key.apply_lookup_table(&packed, &table, meter);
                proof {
                    if known {
                        let pj = product(mv.take(j as int));
                        lemma_product_prefix(mv, 0, j as int);
                        let xj = x / pj;
                        lemma_garner_step(xj, mj as nat, mk as nat, inverse as nat, msg);
                        assert(mv.take(j + 1).drop_last() =~= mv.take(j as int));
                        lemma_div_denominator(x as int, pj as int, mj as int);
                        assert(product(mv.take(j + 1)) == pj * mj);
                    }
                }
                j = j + 1;
            }
            digits.push(running);
            k = k + 1;
        }
        digits
    }

    /// The row of a weighted digit: the lowest `n` radix digits of the
    /// plaintext of `digit` times `weight`, one table lookup for each.
    fn weighted_row(
        &self,
        digit: &Ciphertext,
        weight: u64,
        n: usize,
        meter: &mut WorkMeter,
    ) -> (row: Vec<Ciphertext>)
        requires
            self.wf(),
            digit.wf(self@.parameters),
        ensures
            row@.len() == n,
            forall|j: int|
                0 <= j < n ==> {
                    &&& (#[trigger] row@[j])@.wf(self@.parameters)
                    &&& row@[j]@.degree == self@.parameters.message_modulus.0 - 1
                    &&& row@[j]@.depth == one_deeper(digit@.depth)
                },
            digit_values(blocks_view(row@)) == radix_digits(
                digit@.value * (weight as nat),
                self@.parameters.message_modulus.0 as nat,
                n as nat,
            ),
            *final(meter) == old(meter).advance(n as nat),
    {
        let key = self.as_shortint();
        let ghost p = self@.parameters;
        let ghost msg = p.message_modulus.0 as nat;
        let ghost meter0 = *meter;
        let mut row: Vec<Ciphertext> = Vec::new();
        let mut j: usize = 0;
        proof {
            p.lemma_bounds();
        }
        while j < n
            invariant
                self.wf(),
                p == self@.parameters,
                key@ == self@,
                msg == p.message_modulus.0,
                digit.wf(p),
                j <= n,
                row@.len() == j,
                forall|t: int|
                    0 <= t < j ==> {
                        &&& (#[trigger] row@[t])@.wf(p)
                        &&& row@[t]@.degree == msg - 1
                        &&& row@[t]@.depth == one_deeper(digit@.depth)
                        &&& row@[t]@.value == weighted_digit(
                            digit@.value,
                            msg,
                            weight as nat,
                            t as nat,
                        )
                    },
                *meter == meter0.advance(j as nat),
            decreases n - j,
        {
            let table = self.table(DigitFunction::WeightedDigit(weight, j as u64));
            let block = key.apply_lookup_table(digit, &table, meter);
            row.push(block);
            j = j + 1;
        }
        proof {
            let d = digit_values(blocks_view(row@));
            let e = radix_digits(digit@.value * (weight as nat), msg, n as nat);
            assert forall|t: int| 0 <= t < n implies d[t] == e[t] by {
                assert(row@[t]@.wf(p));
            }
            assert(d =~= e);
        }
        row
    }

    /// Converts an integer from residue to radix representation with
    /// `num_blocks` digits: the result is clean and holds the lowest digits
    /// of the integer under the product of the moduli that `ct` encodes.
    /// `NoDigits` is returned for `num_blocks == 0`, and nothing is counted
    /// then. The product of the moduli has to fit in a `u64`.
    pub fn crt_to_radix(&self, ct: &CrtCiphertext, num_blocks: usize, meter: &mut WorkMeter) -> (r:
        Result<RadixCiphertext, MalformedInteger>)
        requires
            self.wf(),
            ct.wf(self@.parameters),
            ct@.modulus() <= u64::MAX,
        ensures
            r.is_ok() == (num_blocks >= 1),
            r matches Err(e) ==> e == MalformedInteger::NoDigits && *final(meter) == *old(meter),
            r matches Ok(radix) ==> {
                &&& radix@.len() == num_blocks
                &&& is_reconstruction(radix@, ct@, self@.parameters)
                &&& within_budget(radix@, self@.max_degree)
                &&& forall|i: int|
                    0 <= i < radix@.len() ==> (#[trigger] radix@[i]).degree
                        == self@.parameters.message_modulus.0 - 1
                &&& depth_within(
                    radix@,
                    deepest(ct@.blocks) + conversion_rounds(ct@, num_blocks as nat),
                )
                &&& *final(meter) == old(meter).advance(conversion_cost(ct@, num_blocks as nat))
            },
    {
        if num_blocks == 0 {
            return Err(MalformedInteger::NoDigits);
        }
        let ghost p = self@.parameters;
        let ghost msg = p.message_modulus.0 as nat;
        let ghost mv = ct@.moduli;
        let ghost meter0 = *meter;
        let ghost known = exists|x: nat| x < ct@.modulus() && #[trigger] ct@.encodes(x);
        let ghost x = if known {
            choose|x: nat| x < ct@.modulus() && #[trigger] ct@.encodes(x)
        } else {
            0
        };
        let ghost big = pow(msg as int, num_blocks as nat) as nat;
        let ghost deep = deepest(ct@.blocks) + if ct@.is_reduced() {
            0nat
        } else {
            1nat
        };
        let ghost step = lookahead_depth(num_blocks as nat);
        let n = num_blocks;
        let mut reduced = ct.duplicate();
        proof {
            lemma_deepest(ct@.blocks);
        }
        proof {
            p.lemma_bounds();
            lemma_pow_positive(msg as int, n as nat);
            assert(meter0.advance(0) == meter0);
            assert forall|t: int| 0 <= t < mv.len() implies #[trigger] mv[t] >= 1 by {
                assert(2 <= mv[t]);
            }
        }
        if !self.is_crt_reduced(ct) {
            self.crt_reduce(&mut reduced, meter);
            proof {
                if known {
                    assert forall|i: int| 0 <= i < reduced@.blocks.len() implies (
                    #[trigger] reduced@.blocks[i]).value % reduced@.moduli[i] == x
                        % reduced@.moduli[i] by {
                        assert(2 <= mv[i]);
                        assert(ct@.blocks[i].wf(p));
                        lemma_mod_twice(ct@.blocks[i].value as int, mv[i] as int);
                    }
                }
            }
        }
        let ghost meter1 = *meter;
        proof {
            assert forall|i: int| 0 <= i < reduced@.blocks.len() implies (
            #[trigger] reduced@.blocks[i]).depth <= deep by {
                assert(ct@.blocks[i].depth <= deepest(ct@.blocks));
            }
        }
        let digits = self.garner_digits(&reduced, meter, Ghost(x), Ghost(known), Ghost(deep));
        let moduli = ct.moduli();
        let count = moduli.len();
        proof {
            assert(digits@[0]@.wf(p));
            assert(mv.take(0) =~= Seq::<nat>::empty());
        }
        let first = self.weighted_row(&digits[0], 1, n, meter);
        let mut acc = RadixCiphertext::wrap(first);
        let mut weight: u64 = moduli[0];
        let mut k: usize = 1;
        let ghost mut spent: nat = n as nat;
        proof {
            assert(mv.take(1).drop_last() =~= mv.take(0));
            assert(product(mv.take(0)) == 1);
            assert(mv.take(1).last() == mv[0]);
            assert(product(mv.take(1)) == 1 * mv[0]);
            lemma_product_prefix(mv, 1, count as int);
            assert(mv.take(count as int) =~= mv);
            lemma_radix_digits_value(digits@[0]@.value * 1nat, msg, n as nat);
            assert(digit_degrees(acc@) =~= Seq::new(n as nat, |i: int| (msg - 1) as nat));
            assert forall|i: int| 0 <= i < acc@.len() implies (#[trigger] acc@[i]).wf(p) by {
                assert(first@[i]@.wf(p));
            }
            if known {
                lemma_small_mod(x % mv[0], mv[0]);
                lemma_mod_bound(x as int, mv[0] as int);
                assert(x / 1 == x);
            }
            assert(1 * (n as nat) == n) by (nonlinear_arith);
            assert(0 * lookahead_cost(n as nat) == 0) by (nonlinear_arith);
            assert(0 * step == 0) by (nonlinear_arith);
            assert forall|i: int| 0 <= i < acc@.len() implies (#[trigger] acc@[i]).depth <= deep
                + count by {
                assert(first@[i]@.wf(p));
            }
        }
        while k < count
            invariant
                self.wf(),
                p == self@.parameters,
                msg == p.message_modulus.0,
                msg >= 2,
                mv == ct@.moduli,
                ct.wf(p),
                count == moduli@.len(),
                moduli_view(moduli@) == mv,
                crate::number_theory::all_at_least(mv, 1),
                product(mv) <= u64::MAX,
                n >= 1,
                big == pow(msg as int, n as nat),
                big > 0,
                1 <= k <= count,
                weight == product(mv.take(k as int)),
                digits@.len() == count,
                forall|t: int|
                    0 <= t < count ==> {
                        &&& (#[trigger] digits@[t])@.wf(p)
                        &&& digits@[t]@.degree < mv[t]
                        &&& digits@[t]@.depth <= deep + t
                        &&& known ==> digits@[t]@.value == (x / product(mv.take(t))) % mv[t]
                    },
                step == lookahead_depth(n as nat),
                depth_within(acc@, (deep + count + (k - 1) * step) as nat),
                acc@.len() == n,
                blocks_wf(acc@, p),
                digit_degrees(acc@) == Seq::new(n as nat, |i: int| (msg - 1) as nat),
                known ==> radix_value(digit_values(acc@), msg) == (x % product(mv.take(k as int)))
                    % big,
                spent == k * n + (k - 1) * lookahead_cost(n as nat),
                *meter == meter1.advance(garner_cost(count as nat) + spent),
            decreases count - k,
        {
            proof {
                assert(digits@[k as int]@.wf(p));
            }
            let row_blocks = self.weighted_row(&digits[k], weight, n, meter);
            let ghost rb = row_blocks@;
            let row = RadixCiphertext::wrap(row_blocks);
            proof {
                p.lemma_bounds();
                assert forall|i: int| 0 <= i < n implies (#[trigger] acc@[i]).degree + (
                #[trigger] row@[i]).degree <= self@.max_degree by {
                    assert(digit_degrees(acc@)[i] == acc@[i].degree);
                    assert(rb[i]@.wf(p));
                }
                assert forall|i: int| 0 <= i < row@.len() implies (#[trigger] row@[i]).wf(p) by {
                    assert(rb[i]@.wf(p));
                }
            }
            let mut sum = self.unchecked_add(&acc, &row);
            proof {
                let so_far = (deep + count + (k - 1) * step) as nat;
                assert(0 <= (k - 1) * step) by (nonlinear_arith)
                    requires
                        k >= 1,
                        step >= 0,
                ;
                assert forall|i: int| 0 <= i < row@.len() implies (#[trigger] row@[i]).depth
                    <= so_far by {
                    assert(rb[i]@.wf(p));
                }
                lemma_sum_depth(sum@, acc@, row@, so_far, so_far);
                assert(k * step == (k - 1) * step + step) by (nonlinear_arith);
                assert forall|i: int| 0 <= i < n implies #[trigger] digit_degrees(sum@)[i] <= 2 * (
                msg - 1) by {
                    assert(digit_degrees(acc@)[i] == acc@[i].degree);
                    assert(sum@[i].degree == acc@[i].degree + row@[i].degree);
                    assert(rb[i]@.wf(p));
                }
            }
            let ghost raw = radix_value(sum.digits(), msg);
            self.propagate_lookahead(&mut sum, meter);
            proof {
                let pk = product(mv.take(k as int));
                lemma_product_prefix(mv, 0, k as int);
                assert(2 <= mv[k as int]);
                assert(mv.take(k + 1).drop_last() =~= mv.take(k as int));
                assert(product(mv.take(k + 1)) == pk * mv[k as int]);
                lemma_product_prefix(mv, k + 1, count as int);
                assert(mv.take(count as int) =~= mv);
                lemma_radix_digits_value(raw, msg, n as nat);
                assert(digit_degrees(sum@) =~= Seq::new(n as nat, |i: int| (msg - 1) as nat));
                if known {
                    let vk = digits@[k as int]@.value;
                    lemma_radix_digits_value(vk * (weight as nat), msg, n as nat);
                    lemma_mod_breakdown(x as int, pk as int, mv[k as int] as int);
                    lemma_add_mod_noop((x % pk) as int, (vk * weight) as int, big as int);
                    assert(vk * weight == pk * vk) by (nonlinear_arith)
                        requires
                            weight == pk,
                    ;
                }
                let s = k as int;
                let c = lookahead_cost(n as nat) as int;
                assert((s + 1) * n == s * n + n) by (nonlinear_arith);
                assert(s * c == (s - 1) * c + c) by (nonlinear_arith);
                spent = spent + n as nat + lookahead_cost(n as nat);
            }
            acc = sum;
            weight = weight * moduli[k];
            k = k + 1;
        }
        proof {
            assert(mv.take(count as int) =~= mv);
            assert(is_clean(acc@, p)) by {
                assert forall|i: int| 0 <= i < acc@.len() implies (#[trigger] acc@[i]).degree
                    < p.message_modulus.0 by {
                    assert(digit_degrees(acc@)[i] == acc@[i].degree);
                }
            }
            lemma_clean_budget(acc@, p, self@.max_degree);
            lemma_clean_digits(acc@, p);
            assert forall|i: int| 0 <= i < acc@.len() implies (#[trigger] acc@[i]).degree == msg
                - 1 by {
                assert(digit_degrees(acc@)[i] == acc@[i].degree);
            }
            assert forall|y: nat| y < ct@.modulus() && #[trigger] ct@.encodes(y) implies digit_values(
                acc@,
            ) == radix_digits(y, msg, acc@.len()) by {
                assert(known);
                assert(ct@.blocks.len() == mv.len());
                assert forall|i: int| 0 <= i < mv.len() implies y % #[trigger] mv[i] == x
                    % mv[i] by {
                    assert(ct@.blocks[i].wf(p));
                }
                lemma_crt_unique(y, x, mv);
                lemma_small_mod(x, product(mv));
                lemma_radix_digits_of_value(digit_values(acc@), x, msg);
            }
        }
        Ok(acc)
    }
}

} // verus!
