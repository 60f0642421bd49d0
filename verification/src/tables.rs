//! The lookup tables of the integer layer.
//!
//! Every function that the integer layer evaluates on a digit is one of the
//! functions below, on the plaintext `x` of the digit. Several of them read
//! `x` as a pair of digits `(x / message_modulus, x % message_modulus)`.
use crate::server_key::ServerKey;
use crate::shortint::{deeper, Ciphertext, Degree, LookupTable, Parameters};
use vstd::arithmetic::div_mod::*;
use vstd::arithmetic::power::*;
use vstd::prelude::*;

verus! {

/// A function on the plaintext of a digit.
#[derive(Clone, Copy, Debug, PartialEq, Eq)]
pub enum DigitFunction {
    /// The digit proper: `x % message_modulus`.
    Message,
    /// The carries above the digit: `x / message_modulus`.
    Carry,
    /// The carries above a digit that is known to be at most `limit`:
    /// `x / message_modulus` up to `limit`, and 0 above it.
    CarryBelow(u64),
    /// What a raw digit does to a carry: 2 where `x` reaches the message
    /// modulus and sends a carry on its own, 1 where `x` is one short of it
    /// and passes a carry on, 0 where it stops a carry.
    Signal,
    /// The combination of two signals packed as `2 * high + low`: `high`
    /// where it is not 1, else `low`.
    Select,
    /// Whether a signal sends a carry: 1 for the signal 2, else 0.
    CarryBit,
    /// The comparison of the two digits of the packed pair
    /// `high * message_modulus + low`: 0 where `high < low`, 1 where they
    /// are equal, 2 where `high > low`.
    Sign,
    /// The low digit of the product of the two digits of a packed pair:
    /// `(high * low) % message_modulus`, and 0 where `high` is no digit.
    ProductLow,
    /// The high digit of the product of the two digits of a packed pair:
    /// `(high * low) / message_modulus`, and 0 where `high` is no digit.
    ProductHigh,
    /// The digit that makes `x` full: `message_modulus - 1 - x %
    /// message_modulus`.
    Complement,
    /// The digit that makes `x` full, and one more: `message_modulus - x %
    /// message_modulus`.
    Negation,
    /// The residue of `x` modulo `k`.
    Residue(u64),
    /// The residue modulo `k` that adds up to 0 with that of `x`:
    /// `(k - x % k) % k`.
    ResidueNegation(u64),
    /// The residue modulo `k` of the product of the two digits of a packed
    /// pair.
    ResidueProduct(u64),
    /// One step of a mixed-radix conversion, on the packed pair of a
    /// running residue `high` and a mixed-radix digit `low`:
    /// `((high - low) * inverse) % k`, where the fields are `k` and
    /// `inverse`.
    GarnerStep(u64, u64),
    /// The digit at the place `place` of `x * weight`, where the fields are
    /// `weight` and `place`.
    WeightedDigit(u64, u64),
}

/// One step of a mixed-radix conversion on a packed pair.
pub open spec fn garner_step(x: nat, m: nat, k: nat, inverse: nat) -> nat {
    if k == 0 {
        0
    } else {
        ((((x / m) % k + k - (x % m) % k) as nat) * inverse) % k
    }
}

/// The digit at `place` of `x * weight` in the base `m`.
pub open spec fn weighted_digit(x: nat, m: nat, weight: nat, place: nat) -> nat {
    if m == 0 {
        0
    } else {
        ((x * weight) / (pow(m as int, place) as nat)) % m
    }
}

/// The product of the two digits of a packed pair, or 0 where the upper
/// part of `x` is no digit.
pub open spec fn pair_product(x: nat, m: nat) -> nat {
    if x / m >= m {
        0
    } else {
        (x / m) * (x % m)
    }
}

/// The product of two digits has a high digit of at most
/// `message_modulus - 2`.
pub proof fn lemma_pair_product(x: nat, m: nat)
    requires
        m >= 2,
    ensures
        pair_product(x, m) <= (m - 1) * (m - 1),
        pair_product(x, m) / m <= m - 2,
        pair_product(x, m) % m <= m - 1,
{
    let h = (x / m) as int;
    let l = (x % m) as int;
    lemma_mod_bound(x as int, m as int);
    let q = pair_product(x, m) as int;
    if h < m {
        assert(h * l <= (m - 1) * (m - 1)) by (nonlinear_arith)
            requires
                0 <= h <= m - 1,
                0 <= l <= m - 1,
        ;
    } else {
        assert(0 <= (m - 1) * (m - 1)) by (nonlinear_arith)
            requires
                m >= 2,
        ;
    }
    assert((m - 1) * (m - 1) < m * (m - 1)) by (nonlinear_arith)
        requires
            m >= 2,
    ;
    lemma_multiply_divide_lt(q, m as int, m - 1);
    lemma_mod_bound(q, m as int);
}

/// The comparison of two numbers as a number: 0 for less, 1 for equal, 2
/// for greater.
pub open spec fn comparison_code(a: nat, b: nat) -> nat {
    if a < b {
        0
    } else if a == b {
        1
    } else {
        2
    }
}

/// What a raw digit does to a carry coming in from below.
pub open spec fn signal(x: nat, m: nat) -> nat {
    if x >= m {
        2
    } else if x + 1 == m {
        1
    } else {
        0
    }
}

/// The combination of two signals, or of two comparison results: the
/// higher one decides unless it is 1, the neutral value.
pub open spec fn select(high: nat, low: nat) -> nat {
    if high == 1 {
        low
    } else {
        high
    }
}

/// `select` is the combination rule of carry lookahead. With "generates"
/// for the signal 2 and "propagates" for the signal 1, the combined signal
/// generates where the higher one generates, or propagates what the lower
/// one generates; and it propagates where both propagate.
pub proof fn lemma_select_combines(high: nat, low: nat)
    requires
        high <= 2,
        low <= 2,
    ensures
        select(high, low) == 2 <==> high == 2 || (high == 1 && low == 2),
        select(high, low) == 1 <==> high == 1 && low == 1,
{
}

/// `select` on the packed pair `2 * high + low`.
pub open spec fn select_packed(x: nat) -> nat {
    if x <= 2 {
        0
    } else if x == 3 {
        1
    } else {
        2
    }
}

/// Packing two signals as `2 * high + low` loses nothing that `select`
/// needs.
pub proof fn lemma_select_packed(high: nat, low: nat)
    requires
        high <= 2,
        low <= 2,
    ensures
        select_packed(2 * high + low) == select(high, low),
        select(high, low) <= 2,
{
}

impl DigitFunction {
    /// A function with a modulus of its own takes one between 1 and the
    /// message modulus.
    pub open spec fn valid(self, p: Parameters) -> bool {
        match self {
            DigitFunction::Residue(k) => 1 <= k <= p.message_modulus.0,
            DigitFunction::ResidueNegation(k) => 1 <= k <= p.message_modulus.0,
            DigitFunction::ResidueProduct(k) => 1 <= k <= p.message_modulus.0,
            DigitFunction::GarnerStep(k, inverse) => 1 <= k <= p.message_modulus.0 && inverse < k,
            DigitFunction::CarryBelow(limit) => limit < p.total(),
            _ => true,
        }
    }

    /// The value of the function at `x`.
    pub open spec fn apply(self, x: nat, p: Parameters) -> nat {
        let m = p.message_modulus.0 as nat;
        match self {
            DigitFunction::Message => x % m,
            DigitFunction::Carry => x / m,
            DigitFunction::CarryBelow(limit) => if x <= limit {
                x / m
            } else {
                0
            },
            DigitFunction::Signal => signal(x, m),
            DigitFunction::Select => select_packed(x),
            DigitFunction::CarryBit => if x == 2 {
                1
            } else {
                0
            },
            DigitFunction::Sign => comparison_code(x / m, x % m),
            DigitFunction::ProductLow => pair_product(x, m) % m,
            DigitFunction::ProductHigh => pair_product(x, m) / m,
            DigitFunction::Complement => (m - 1 - x % m) as nat,
            DigitFunction::Negation => (m - x % m) as nat,
            DigitFunction::Residue(k) => x % (k as nat),
            DigitFunction::ResidueNegation(k) => ((k - x % (k as nat)) % (k as int)) as nat,
            DigitFunction::ResidueProduct(k) => pair_product(x, m) % (k as nat),
            DigitFunction::GarnerStep(k, inverse) => garner_step(x, m, k as nat, inverse as nat),
            DigitFunction::WeightedDigit(weight, place) => weighted_digit(
                x,
                m,
                weight as nat,
                place as nat,
            ),
        }
    }

    /// A bound on the values of the function over the plaintext space.
    pub open spec fn bound(self, p: Parameters) -> nat {
        let m = p.message_modulus.0 as nat;
        let c = p.carry_modulus.0 as nat;
        match self {
            DigitFunction::Message => (m - 1) as nat,
            DigitFunction::Carry => (c - 1) as nat,
            DigitFunction::CarryBelow(limit) => (limit as nat) / m,
            DigitFunction::Signal => 2,
            DigitFunction::Select => 2,
            DigitFunction::CarryBit => 1,
            DigitFunction::Sign => 2,
            DigitFunction::ProductLow => (m - 1) as nat,
            DigitFunction::ProductHigh => (m - 2) as nat,
            DigitFunction::Complement => (m - 1) as nat,
            DigitFunction::Negation => m,
            DigitFunction::Residue(k) => (k - 1) as nat,
            DigitFunction::ResidueNegation(k) => (k - 1) as nat,
            DigitFunction::ResidueProduct(k) => (k - 1) as nat,
            DigitFunction::GarnerStep(k, inverse) => (k - 1) as nat,
            DigitFunction::WeightedDigit(weight, place) => (m - 1) as nat,
        }
    }

    /// The function stays under its bound, and the bound inside the
    /// plaintext space.
    pub proof fn lemma_bound(self, x: nat, p: Parameters)
        requires
            p.wf(),
            self.valid(p),
            x < p.total(),
        ensures
            self.apply(x, p) <= self.bound(p),
            self.bound(p) < p.total(),
    {
        p.lemma_bounds();
        let m = p.message_modulus.0 as int;
        let c = p.carry_modulus.0 as int;
        match self {
            DigitFunction::Message => {
                lemma_mod_bound(x as int, m);
            },
            DigitFunction::Carry => {
                lemma_multiply_divide_lt(x as int, m, c);
            },
            DigitFunction::CarryBelow(limit) => {
                if x <= limit {
                    lemma_div_is_ordered(x as int, limit as int, m);
                }
                lemma_div_is_ordered_by_denominator(limit as int, 1, m);
                lemma_div_basics_2(limit as int);
                lemma_div_pos_is_pos(limit as int, m);
            },
            DigitFunction::Signal => {},
            DigitFunction::Select => {},
            DigitFunction::CarryBit => {},
            DigitFunction::Sign => {},
            DigitFunction::ProductLow => {
                lemma_pair_product(x, m as nat);
            },
            DigitFunction::ProductHigh => {
                lemma_pair_product(x, m as nat);
            },
            DigitFunction::Complement => {
                lemma_mod_bound(x as int, m);
            },
            DigitFunction::Negation => {
                lemma_mod_bound(x as int, m);
            },
            DigitFunction::Residue(k) => {
                lemma_mod_bound(x as int, k as int);
            },
            DigitFunction::ResidueNegation(k) => {
                lemma_mod_bound(k - x % (k as nat), k as int);
            },
            DigitFunction::ResidueProduct(k) => {
                lemma_mod_bound(pair_product(x, m as nat) as int, k as int);
            },
            DigitFunction::GarnerStep(k, inverse) => {
                let kn = k as nat;
                let d = (((x / (m as nat)) % kn + kn - (x % (m as nat)) % kn) as nat) * (
                inverse as nat);
                lemma_mod_bound(d as int, k as int);
            },
            DigitFunction::WeightedDigit(weight, place) => {
                lemma_pow_positive(m, place as nat);
                lemma_mod_bound(
                    ((x * (weight as nat)) / (pow(m, place as nat) as nat)) as int,
                    m,
                );
            },
        }
    }

    /// Computes the function at `x`.
    pub fn eval(self, x: u64, p: Parameters) -> (y: u64)
        requires
            p.wf(),
            self.valid(p),
            x < p.total(),
        ensures
            y == self.apply(x as nat, p),
    {
        let m = p.message_modulus.0;
        proof {
            p.lemma_bounds();
        }
        match self {
            DigitFunction::Message => x % m,
            DigitFunction::Carry => x / m,
            DigitFunction::CarryBelow(limit) => if x <= limit {
                x / m
            } else {
                0
            },
            DigitFunction::Signal => if x >= m {
                2
            } else if x + 1 == m {
                1
            } else {
                0
            },
            DigitFunction::Select => if x <= 2 {
                0
            } else if x == 3 {
                1
            } else {
                2
            },
            DigitFunction::CarryBit => if x == 2 {
                1
            } else {
                0
            },
            DigitFunction::Sign => {
                let high = x / m;
                let low = x % m;
                if high < low {
                    0
                } else if high == low {
                    1
                } else {
                    2
                }
            },
            DigitFunction::ProductLow => {
                if x / m >= m {
                    proof {
                        lemma_small_mod(0, m as nat);
                    }
                    0
                } else {
                    proof {
                        lemma_pair_product(x as nat, m as nat);
                        assert((m - 1) * (m - 1) <= 255 * 255) by (nonlinear_arith)
                            requires
                                2 <= m <= 256,
                        ;
                    }
                    let y = ((x / m) * (x % m)) % m;
                    assert(y == self.apply(x as nat, p));
                    y
                }
            },
            DigitFunction::ProductHigh => {
                if x / m >= m {
                    proof {
                        lemma_div_basics_1(m as int);
                    }
                    0
                } else {
                    proof {
                        lemma_pair_product(x as nat, m as nat);
                        assert((m - 1) * (m - 1) <= 255 * 255) by (nonlinear_arith)
                            requires
                                2 <= m <= 256,
                        ;
                    }
                    let y = ((x / m) * (x % m)) / m;
                    assert(y == self.apply(x as nat, p));
                    y
                }
            },
            DigitFunction::Complement => {
                let y = m - 1 - x % m;
                assert(y == self.apply(x as nat, p));
                y
            },
            DigitFunction::Negation => {
                let y = m - x % m;
                assert(y == self.apply(x as nat, p));
                y
            },
            DigitFunction::Residue(k) => x % k,
            DigitFunction::ResidueNegation(k) => (k - x % k) % k,
            DigitFunction::ResidueProduct(k) => {
                if x / m >= m {
                    proof {
                        lemma_small_mod(0, k as nat);
                    }
                    0
                } else {
                    proof {
                        lemma_pair_product(x as nat, m as nat);
                        assert((m - 1) * (m - 1) <= 255 * 255) by (nonlinear_arith)
                            requires
                                2 <= m <= 256,
                        ;
                    }
                    let y = ((x / m) * (x % m)) % k;
                    assert(y == self.apply(x as nat, p));
                    y
                }
            },
            DigitFunction::GarnerStep(k, inverse) => {
                proof {
                    lemma_mod_bound((x / m) as int, k as int);
                    lemma_mod_bound((x % m) as int, k as int);
                }
                let difference: u64 = (x / m) % k + k - (x % m) % k;
                assert(difference * inverse <= 512 * 256) by (nonlinear_arith)
                    requires
                        difference <= 512,
                        inverse <= 256,
                ;
                (difference * inverse) % k
            },
            DigitFunction::WeightedDigit(weight, place) => {
                assert(x * weight <= 65536 * 0xffff_ffff_ffff_ffff) by (nonlinear_arith)
                    requires
                        x <= 65536,
                        weight <= 0xffff_ffff_ffff_ffff,
                ;
                let mut q: u128 = (x as u128) * (weight as u128);
                let mut t: u64 = 0;
                proof {
                    lemma_pow0(m as int);
                }
                while t < place
                    invariant
                        t <= place,
                        m >= 2,
                        pow(m as int, t as nat) > 0,
                        q == (x * weight) / pow(m as int, t as nat),
                    decreases place - t,
                {
                    proof {
                        let pt = pow(m as int, t as nat);
                        crate::arithmetic::lemma_pow_step(m as nat, t as nat);
                        lemma_pow_positive(m as int, (t + 1) as nat);
                        lemma_div_denominator(x * weight, pt, m as int);
                        assert(pt * m == m * pt) by (nonlinear_arith);
                    }
                    q = q / (m as u128);
                    t = t + 1;
                }
                (q % (m as u128)) as u64
            },
        }
    }

    /// Computes the bound.
    pub fn eval_bound(self, p: Parameters) -> (d: u64)
        requires
            p.wf(),
            self.valid(p),
        ensures
            d == self.bound(p),
    {
        let m = p.message_modulus.0;
        let c = p.carry_modulus.0;
        match self {
            DigitFunction::Message => m - 1,
            DigitFunction::Carry => c - 1,
            DigitFunction::CarryBelow(limit) => limit / m,
            DigitFunction::Signal => 2,
            DigitFunction::Select => 2,
            DigitFunction::CarryBit => 1,
            DigitFunction::Sign => 2,
            DigitFunction::ProductLow => m - 1,
            DigitFunction::ProductHigh => m - 2,
            DigitFunction::Complement => m - 1,
            DigitFunction::Negation => m,
            DigitFunction::Residue(k) => k - 1,
            DigitFunction::ResidueNegation(k) => k - 1,
            DigitFunction::ResidueProduct(k) => k - 1,
            DigitFunction::GarnerStep(k, inverse) => k - 1,
            DigitFunction::WeightedDigit(weight, place) => m - 1,
        }
    }
}

/// The table holds the function `f` on the plaintext space of `p`.
pub open spec fn table_of(t: LookupTable, f: DigitFunction, p: Parameters) -> bool {
    &&& t.wf(p)
    &&& t@.degree == f.bound(p)
    &&& forall|x: int| 0 <= x < p.total() ==> #[trigger] t@.values[x] == f.apply(x as nat, p)
}

/// A packed pair of digits unpacks into its two digits.
pub proof fn lemma_unpack(high: nat, low: nat, m: nat)
    requires
        low < m,
    ensures
        (high * m + low) / m == high,
        (high * m + low) % m == low,
{
    lemma_fundamental_div_mod_converse((high * m + low) as int, m as int, high as int, low as int);
}

impl ServerKey {
    /// Packs two clean digits into one: the plaintext of the result is
    /// `high * message_modulus + low`. The digit `high` is added to `low`
    /// `message_modulus` times.
    pub fn pack_pair(&self, high: &Ciphertext, low: &Ciphertext) -> (r: Ciphertext)
        requires
            self.wf(),
            high.wf(self@.parameters),
            low.wf(self@.parameters),
            high@.degree < self@.parameters.message_modulus.0,
            low@.degree < self@.parameters.message_modulus.0,
        ensures
            r.wf(self@.parameters),
            r@.value == high@.value * self@.parameters.message_modulus.0 + low@.value,
            r@.degree == high@.degree * self@.parameters.message_modulus.0 + low@.degree,
            r@.depth == deeper(high@.depth, low@.depth),
    {
        let key = self.as_shortint();
        let p = self.parameters();
        let m: u64 = p.message_modulus.0;
        let mut acc: Ciphertext = *low;
        let mut k: u64 = 0;
        proof {
            p.lemma_bounds();
            assert(high@.value * 0 == 0 && high@.degree * 0 == 0) by (nonlinear_arith);
        }
        while k < m
            invariant
                self.wf(),
                p == self@.parameters,
                key@ == self@,
                m == p.message_modulus.0,
                k <= m,
                high.wf(p),
                low.wf(p),
                high@.degree < m,
                low@.degree < m,
                m * m <= p.total(),
                acc.wf(p),
                acc@.value == high@.value * k + low@.value,
                acc@.degree == high@.degree * k + low@.degree,
                acc@.depth == if k == 0 {
                    low@.depth
                } else {
                    deeper(high@.depth, low@.depth)
                },
            decreases m - k,
        {
            proof {
                let hv = high@.value as int;
                let hd = high@.degree as int;
                assert(hv * (k + 1) == hv * k + hv) by (nonlinear_arith);
                assert(hd * (k + 1) == hd * k + hd) by (nonlinear_arith);
                assert(hd * (k + 1) <= (m - 1) * m) by (nonlinear_arith)
                    requires
                        0 <= hd <= m - 1,
                        0 <= k + 1 <= m,
                ;
                assert(hv * (k + 1) <= (m - 1) * m) by (nonlinear_arith)
                    requires
                        0 <= hv <= m - 1,
                        0 <= k + 1 <= m,
                ;
                assert((m - 1) * m + m == m * m) by (nonlinear_arith);
                lemma_small_mod((acc@.value + high@.value) as nat, p.total());
            }
            acc = key.unchecked_add(&acc, high);
            k = k + 1;
        }
        acc
    }

    /// Writes out the table of `f`.
    pub fn table(&self, f: DigitFunction) -> (t: LookupTable)
        requires
            self.wf(),
            f.valid(self@.parameters),
        ensures
            table_of(t, f, self@.parameters),
    {
        let p = self.parameters();
        proof {
            p.lemma_bounds();
        }
        let total: u64 = p.message_modulus.0 * p.carry_modulus.0;
        let bound: u64 = f.eval_bound(p);
        let mut values: Vec<u64> = Vec::new();
        let mut x: u64 = 0;
        while x < total
            invariant
                p.wf(),
                f.valid(p),
                total == p.total(),
                bound == f.bound(p),
                x <= total,
                values@.len() == x,
                forall|j: int| 0 <= j < x ==> #[trigger] values@[j] == f.apply(j as nat, p),
                forall|j: int| 0 <= j < x ==> #[trigger] values@[j] <= bound,
            decreases total - x,
        {
            let y = f.eval(x, p);
            proof {
                f.lemma_bound(x as nat, p);
            }
            values.push(y);
            x = x + 1;
        }
        proof {
            f.lemma_bound(0, p);
        }
        self.as_shortint().lookup_table_from(values, Degree(bound))
    }
}

} // verus!
