//! Subtraction of radix integers, as the addition of the two's complement:
//! every digit of the subtrahend is replaced by the digit that makes it
//! full, one is added at the lowest place, and the carries are propagated.
use crate::arithmetic::{
    lemma_complement, lemma_radix_value_update, radix_digits, radix_value,
};
use crate::ciphertext::{
    blocks_view, blocks_wf, deepest, depth_within, digit_degrees, digit_values, is_clean,
    radix_modulus, radix_plaintext, within_budget, RadixCiphertext,
};
use crate::radix::{
    added_degrees, lemma_clean_digits, lemma_propagated, lemma_sum_depth, propagated_degrees,
    propagation_cost, propagation_rounds,
};
use crate::radix_parallel::{
    parallel_degrees, parallel_propagation_cost,
    parallel_propagation_rounds,
};
use crate::server_key::ServerKey;
use crate::shortint::{deeper, one_deeper, Ciphertext, DigitView, Parameters, WorkMeter};
use crate::tables::{table_of, DigitFunction};
use vstd::arithmetic::div_mod::*;
use vstd::arithmetic::power::*;
use vstd::prelude::*;

verus! {

/// The degrees of a two's complement: the lowest digit may reach the
/// message modulus, the others are digits.
pub open spec fn negation_degrees(n: nat, p: Parameters) -> Seq<nat> {
    Seq::new(
        n,
        |i: int|
            if i == 0 {
                p.message_modulus.0 as nat
            } else {
                (p.message_modulus.0 - 1) as nat
            },
    )
}

/// `difference` is the clean difference of `a` and `b`: each of its digits
/// is the digit of what `a` encodes minus what `b` encodes, modulo
/// `message_modulus^n`.
pub open spec fn is_difference(
    difference: Seq<DigitView>,
    a: Seq<DigitView>,
    b: Seq<DigitView>,
    p: Parameters,
) -> bool {
    &&& difference.len() == a.len()
    &&& blocks_wf(difference, p)
    &&& is_clean(difference, p)
    &&& digit_values(difference) == radix_digits(
        (radix_plaintext(a, p) + radix_modulus(p, a.len()) - radix_plaintext(b, p)) as nat,
        p.message_modulus.0 as nat,
        a.len(),
    )
}

/// A bound on the depth of the result of `sub`, for operands no deeper
/// than `deep_a` and `deep_b`.
pub open spec fn sub_depth(deep_a: nat, deep_b: nat, a: Seq<nat>, b: Seq<nat>, p: Parameters) -> nat {
    deeper(
        deep_a + parallel_propagation_rounds(a, p),
        deep_b + parallel_propagation_rounds(b, p) + 1,
    ) + propagation_rounds(
        added_degrees(parallel_degrees(a, p), negation_degrees(b.len(), p)),
        p,
    )
}

/// The number of table lookups of `sub`: both operands are propagated, the
/// subtrahend is complemented digit by digit, and the sum is propagated.
pub open spec fn sub_cost(a: Seq<nat>, b: Seq<nat>, p: Parameters) -> nat {
    parallel_propagation_cost(a, p) + parallel_propagation_cost(b, p) + b.len() + propagation_cost(
        added_degrees(parallel_degrees(a, p), negation_degrees(b.len(), p)),
        p,
    )
}

impl ServerKey {
    /// The two's complement of a clean radix integer, with its carries not
    /// yet propagated: it is worth `message_modulus^n` minus what `b`
    /// encodes.
    pub fn unchecked_neg(&self, b: &RadixCiphertext, meter: &mut WorkMeter) -> (r: RadixCiphertext)
        requires
            self.wf(),
            b.wf(self@.parameters),
            is_clean(b@, self@.parameters),
        ensures
            r@.len() == b@.len(),
            r.wf(self@.parameters),
            digit_degrees(r@) == negation_degrees(b@.len(), self@.parameters),
            radix_value(r.digits(), self@.parameters.message_modulus.0 as nat) + radix_plaintext(
                b@,
                self@.parameters,
            ) == radix_modulus(self@.parameters, b@.len()),
            forall|i: int| 0 <= i < r@.len() ==> (#[trigger] r@[i]).depth == one_deeper(b@[i].depth),
            *final(meter) == old(meter).advance(b@.len()),
    {
        let key = self.as_shortint();
        let ghost p = self@.parameters;
        let ghost m = p.message_modulus.0 as nat;
        let ghost meter0 = *meter;
        let bv = b.blocks();
        let n = bv.len();
        let complement = self.table(DigitFunction::Complement);
        let negation = self.table(DigitFunction::Negation);
        let mut blocks: Vec<Ciphertext> = Vec::new();
        let mut i: usize = 0;
        proof {
            p.lemma_bounds();
        }
        while i < n
            invariant
                self.wf(),
                p == self@.parameters,
                key@ == self@,
                m == p.message_modulus.0,
                n == bv@.len(),
                blocks_view(bv@) == b@,
                b.wf(p),
                is_clean(b@, p),
                i <= n,
                blocks@.len() == i,
                table_of(complement, DigitFunction::Complement, p),
                table_of(negation, DigitFunction::Negation, p),
                forall|j: int|
                    0 <= j < i ==> {
                        &&& (#[trigger] blocks@[j])@.wf(p)
                        &&& blocks@[j]@.degree == negation_degrees(n as nat, p)[j]
                        &&& blocks@[j]@.value == m - 1 - b@[j].value + if j == 0 {
                            1nat
                        } else {
                            0nat
                        }
                        &&& blocks@[j]@.depth == one_deeper(b@[j].depth)
                    },
                *meter == meter0.advance(i as nat),
            decreases n - i,
        {
            proof {
                assert(b@[i as int].wf(p));
                assert(b@[i as int].degree < m);
                lemma_small_mod(b@[i as int].value, m);
            }
            let block = if i == 0 {
                key.apply_lookup_table(&bv[i], &negation, meter)
            } else {
                key.apply_lookup_table(&bv[i], &complement, meter)
            };
            blocks.push(block);
            i = i + 1;
        }
        let r = RadixCiphertext::wrap(blocks);
        proof {
            let db = b.digits();
            let nd = r.digits();
            lemma_clean_digits(b@, p);
            let comp = Seq::new(n as nat, |j: int| (m - 1 - db[j]) as nat);
            lemma_complement(db, comp, m);
            lemma_radix_value_update(comp, 0, comp[0] + 1, m);
            assert(nd =~= comp.update(0, comp[0] + 1));
            lemma_pow0(m as int);
            assert(digit_degrees(r@) =~= negation_degrees(n as nat, p));
            let x = comp[0] as int;
            assert(x * 1 == x && (x + 1) * 1 == x + 1) by (nonlinear_arith);
            lemma_pow_positive(m as int, n as nat);
        }
        r
    }

    /// Subtracts `b` from `a` and propagates the carries: the result is
    /// clean and encodes the difference modulo `message_modulus^n`.
    /// Operands that are not clean are propagated first, on copies.
    pub fn sub(&self, a: &RadixCiphertext, b: &RadixCiphertext, meter: &mut WorkMeter) -> (r:
        RadixCiphertext)
        requires
            self.wf(),
            a.wf(self@.parameters),
            b.wf(self@.parameters),
            a@.len() == b@.len(),
        ensures
            is_difference(r@, a@, b@, self@.parameters),
            within_budget(r@, self@.max_degree),
            digit_degrees(r@) == propagated_degrees(
                added_degrees(
                    parallel_degrees(digit_degrees(a@), self@.parameters),
                    negation_degrees(a@.len(), self@.parameters),
                ),
                self@.parameters,
            ),
            radix_plaintext(r@, self@.parameters) == (radix_plaintext(a@, self@.parameters)
                + radix_modulus(self@.parameters, a@.len()) - radix_plaintext(
                b@,
                self@.parameters,
            )) % (radix_modulus(self@.parameters, a@.len()) as int),
            depth_within(
                r@,
                sub_depth(
                    deepest(a@),
                    deepest(b@),
                    digit_degrees(a@),
                    digit_degrees(b@),
                    self@.parameters,
                ),
            ),
            *final(meter) == old(meter).advance(
                sub_cost(digit_degrees(a@), digit_degrees(b@), self@.parameters),
            ),
    {
        let ghost p = self@.parameters;
        let ghost m = p.message_modulus.0 as nat;
        let ghost n = a@.len();
        let (ca, cb) = self.propagated_copies(a, b, meter);
        proof {
            p.lemma_bounds();
        }
        let negated = self.unchecked_neg(&cb, meter);
        proof {
            let mm = p.message_modulus.0 as int;
            let c = p.carry_modulus.0 as int;
            assert(2 * mm - 1 <= (mm - 1) * c - 1) by (nonlinear_arith)
                requires
                    2 <= mm <= c,
                    8 <= mm * c,
            ;
            assert forall|i: int| 0 <= i < n implies (#[trigger] ca@[i]).degree + (
            #[trigger] negated@[i]).degree <= self@.max_degree by {
                assert(ca@[i].degree < m);
                assert(digit_degrees(negated@)[i] == negated@[i].degree);
                assert(negation_degrees(n, p)[i] <= m);
            }
        }
        let mut sum = self.unchecked_add(&ca, &negated);
        let ghost raw = sum@;
        proof {
            let da = deepest(a@) + parallel_propagation_rounds(digit_degrees(a@), p);
            let db = deepest(b@) + parallel_propagation_rounds(digit_degrees(b@), p);
            assert forall|i: int| 0 <= i < negated@.len() implies (#[trigger] negated@[i]).depth
                <= db + 1 by {
                assert(cb@[i].depth <= db);
            }
            lemma_sum_depth(raw, ca@, negated@, da, db + 1);
            assert(digit_degrees(raw) =~= added_degrees(
                parallel_degrees(digit_degrees(a@), p),
                negation_degrees(n, p),
            ));
        }
        self.full_propagate(&mut sum, meter);
        proof {
            lemma_propagated(sum@, raw, p);
            lemma_clean_digits(ca@, p);
            lemma_pow_positive(m as int, n);
            let v = radix_value(digit_values(raw), m);
            assert(v == radix_plaintext(a@, p) + radix_modulus(p, n) - radix_plaintext(b@, p));
            crate::arithmetic::lemma_radix_digits_value(v, m, n);
        }
        sum
    }
}

} // verus!
