//! Carry propagation by lookahead.
//!
//! Every digit of a raw digit-wise sum is turned into a signal: it sends a
//! carry, passes one on, or stops one. The signals are combined over all
//! prefixes in a logarithmic number of rounds, every combination of a round
//! being independent of the others. The combined signal below a digit says
//! whether a carry comes in, and one more round gives every digit its final
//! value. Digits that hold more than a sum of two clean digits are first
//! brought down by splitting rounds, in each of which every digit hands its
//! carries to the digit above it.
use crate::arithmetic::{
    largest, lemma_largest, lemma_radix_digits_congruent, lemma_radix_digits_value,
    lemma_split_pass, radix_digits, radix_value,
};
use crate::ciphertext::{
    blocks_view, blocks_wf, deepest, depth_within, digit_degrees, digit_values, is_clean,
    lemma_deepest, lemma_deepest_within, radix_modulus, radix_plaintext, within_budget,
    RadixCiphertext,
};
use crate::lookahead::{
    fold, lemma_carry_is_fold, lemma_fold_agree, lemma_fold_split, lemma_rippled, lookahead_cost,
    lookahead_depth, rippled, scan_cost, scan_rounds, signals_of,
};
use crate::radix::{
    added_degrees, degrees_fit, first_dirty, is_propagated, is_sum,
    lemma_add_possible_by_degrees, lemma_clean_budget, lemma_clean_digits, lemma_first_dirty,
    lemma_plaintext_of_sum, lemma_sum_depth,
    lemma_propagated, };
use crate::server_key::ServerKey;
use crate::shortint::{
    deeper, one_deeper, Ciphertext, DigitView, LookupTable, Parameters, WorkMeter,
};
use crate::tables::{lemma_select_packed, select, signal, table_of, DigitFunction};
use vstd::arithmetic::div_mod::*;
use vstd::arithmetic::power::*;
use vstd::prelude::*;

verus! {

/// Every degree is at most that of a sum of two clean digits: the carries
/// of such an integer are 0 or 1, which is what lookahead can handle.
pub open spec fn fits_lookahead(degrees: Seq<nat>, p: Parameters) -> bool {
    forall|i: int| 0 <= i < degrees.len() ==> #[trigger] degrees[i] <= 2 * (p.message_modulus.0 - 1)
}

/// What the degrees say of the plaintexts: none exceeds the largest
/// degree, and none leaves the plaintext space.
pub open spec fn plaintext_bound(degrees: Seq<nat>, p: Parameters) -> nat {
    let d = largest(degrees, degrees.len());
    if d < p.total() {
        d
    } else {
        (p.total() - 1) as nat
    }
}

/// The bound on the plaintexts after one splitting round, where it was `d`
/// before: a digit proper and, where there is a digit below, its carries.
pub open spec fn split_bound(d: nat, n: nat, p: Parameters) -> nat {
    if n >= 2 {
        (p.message_modulus.0 - 1 + d / (p.message_modulus.0 as nat)) as nat
    } else {
        (p.message_modulus.0 - 1) as nat
    }
}

/// A splitting round lowers a bound that is too large for the lookahead.
pub proof fn lemma_split_bound_decreases(d: nat, n: nat, p: Parameters)
    requires
        p.message_modulus.0 >= 2,
        d > 2 * (p.message_modulus.0 - 1),
    ensures
        split_bound(d, n, p) < d,
{
    let m = p.message_modulus.0 as int;
    let q = (d as int) / m;
    lemma_fundamental_div_mod(d as int, m);
    lemma_mod_bound(d as int, m);
    lemma_div_pos_is_pos(d as int, m);
    if q >= m {
        assert(m * q >= q + q) by (nonlinear_arith)
            requires
                m >= 2,
                q >= 0,
        ;
    }
}

/// The number of splitting rounds that bring the bound `d` down to that of
/// a sum of two clean digits.
pub open spec fn split_passes(d: nat, n: nat, p: Parameters) -> nat
    decreases d,
{
    if p.message_modulus.0 < 2 || d <= 2 * (p.message_modulus.0 - 1) {
        0
    } else {
        proof {
            lemma_split_bound_decreases(d, n, p);
        }
        1 + split_passes(split_bound(d, n, p), n, p)
    }
}

/// The degrees after a parallel propagation: those of a clean integer
/// stay; otherwise every digit is fresh.
pub open spec fn parallel_degrees(degrees: Seq<nat>, p: Parameters) -> Seq<nat> {
    if first_dirty(degrees, p, 0) >= degrees.len() {
        degrees
    } else {
        Seq::new(degrees.len(), |i: int| (p.message_modulus.0 - 1) as nat)
    }
}

/// The number of table lookups of a parallel propagation: none for a clean
/// integer; otherwise `2 * n - 1` for every splitting round, and the
/// lookahead.
pub open spec fn parallel_propagation_cost(degrees: Seq<nat>, p: Parameters) -> nat {
    if first_dirty(degrees, p, 0) >= degrees.len() {
        0
    } else {
        (split_passes(plaintext_bound(degrees, p), degrees.len(), p) * (2 * degrees.len() - 1)
            + lookahead_cost(degrees.len())) as nat
    }
}

/// The number of rounds of a parallel propagation: none for a clean
/// integer; otherwise the splitting rounds, and those of the lookahead.
pub open spec fn parallel_propagation_rounds(degrees: Seq<nat>, p: Parameters) -> nat {
    if first_dirty(degrees, p, 0) >= degrees.len() {
        0
    } else {
        split_passes(plaintext_bound(degrees, p), degrees.len(), p) + lookahead_depth(
            degrees.len(),
        )
    }
}

/// `after` is `before` with its carries propagated by the parallel
/// strategy: the same number of digits, each the digit of what `before` is
/// worth.
pub open spec fn is_propagated_in_parallel(
    after: Seq<DigitView>,
    before: Seq<DigitView>,
    p: Parameters,
) -> bool {
    &&& after.len() == before.len()
    &&& blocks_wf(after, p)
    &&& digit_values(after) == radix_digits(
        radix_value(digit_values(before), p.message_modulus.0 as nat),
        p.message_modulus.0 as nat,
        before.len(),
    )
    &&& digit_degrees(after) == parallel_degrees(digit_degrees(before), p)
}

/// The number of table lookups of `add_parallelized`.
pub open spec fn add_parallelized_cost(
    a: Seq<nat>,
    b: Seq<nat>,
    p: Parameters,
    max_degree: nat,
) -> nat {
    if degrees_fit(a, b, max_degree) {
        parallel_propagation_cost(added_degrees(a, b), p)
    } else {
        parallel_propagation_cost(a, p) + parallel_propagation_cost(b, p)
            + parallel_propagation_cost(
            added_degrees(parallel_degrees(a, p), parallel_degrees(b, p)),
            p,
        )
    }
}

/// A bound on the depth of the result of `add_parallelized`, for operands
/// no deeper than `deep_a` and `deep_b`.
pub open spec fn add_parallelized_depth(
    deep_a: nat,
    deep_b: nat,
    a: Seq<nat>,
    b: Seq<nat>,
    p: Parameters,
    max_degree: nat,
) -> nat {
    if degrees_fit(a, b, max_degree) {
        deeper(deep_a, deep_b) + parallel_propagation_rounds(added_degrees(a, b), p)
    } else {
        deeper(
            deep_a + parallel_propagation_rounds(a, p),
            deep_b + parallel_propagation_rounds(b, p),
        ) + parallel_propagation_rounds(
            added_degrees(parallel_degrees(a, p), parallel_degrees(b, p)),
            p,
        )
    }
}

/// The degrees of the result of `add_parallelized`.
pub open spec fn add_parallelized_degrees(
    a: Seq<nat>,
    b: Seq<nat>,
    p: Parameters,
    max_degree: nat,
) -> Seq<nat> {
    if degrees_fit(a, b, max_degree) {
        parallel_degrees(added_degrees(a, b), p)
    } else {
        parallel_degrees(added_degrees(parallel_degrees(a, p), parallel_degrees(b, p)), p)
    }
}

/// An integer propagated in parallel is clean and encodes what the integer
/// before it encoded.
pub proof fn lemma_propagated_in_parallel(
    after: Seq<DigitView>,
    before: Seq<DigitView>,
    p: Parameters,
)
    requires
        p.wf(),
        blocks_wf(before, p),
        is_propagated_in_parallel(after, before, p),
    ensures
        is_clean(after, p),
        radix_plaintext(after, p) == radix_plaintext(before, p),
        radix_value(digit_values(after), p.message_modulus.0 as nat) == radix_plaintext(before, p),
{
    let base = p.message_modulus.0 as nat;
    let n = before.len();
    let dd = digit_degrees(before);
    lemma_first_dirty(dd, p, 0);
    assert forall|i: int| 0 <= i < after.len() implies (#[trigger] after[i]).degree < base by {
        assert(digit_degrees(after)[i] == after[i].degree);
        if first_dirty(dd, p, 0) >= dd.len() {
            assert(dd[i] < base);
        }
    }
    let v = radix_value(digit_values(before), base);
    lemma_radix_digits_value(v, base, n);
    lemma_mod_twice(v as int, pow(base as int, n));
}

/// `copy` is `original` with its carries propagated by the parallel
/// strategy: it is clean, inside the degree budget, encodes what
/// `original` encodes, and is deeper by the rounds of the propagation at
/// most.
pub open spec fn is_clean_copy(
    copy: Seq<DigitView>,
    original: Seq<DigitView>,
    p: Parameters,
    max_degree: nat,
) -> bool {
    &&& is_propagated_in_parallel(copy, original, p)
    &&& is_clean(copy, p)
    &&& within_budget(copy, max_degree)
    &&& radix_plaintext(copy, p) == radix_plaintext(original, p)
    &&& radix_value(digit_values(copy), p.message_modulus.0 as nat) == radix_plaintext(original, p)
    &&& depth_within(
        copy,
        deepest(original) + parallel_propagation_rounds(digit_degrees(original), p),
    )
    &&& deepest(copy) <= deepest(original) + parallel_propagation_rounds(
        digit_degrees(original),
        p,
    )
}

/// Both strategies give the same digits: an integer propagated digit by
/// digit and the same integer propagated in parallel hold the same
/// plaintext in every digit, and decrypt to the same value.
pub proof fn lemma_strategies_agree(
    sequential: Seq<DigitView>,
    parallel: Seq<DigitView>,
    raw: Seq<DigitView>,
    p: Parameters,
)
    requires
        p.wf(),
        blocks_wf(raw, p),
        is_propagated(sequential, raw, p),
        is_propagated_in_parallel(parallel, raw, p),
    ensures
        digit_values(sequential) == digit_values(parallel),
        radix_plaintext(sequential, p) == radix_plaintext(parallel, p),
        radix_plaintext(sequential, p) == radix_plaintext(raw, p),
{
    lemma_propagated(sequential, raw, p);
    lemma_propagated_in_parallel(parallel, raw, p);
}

impl ServerKey {
    /// Combines two signals by one table lookup on the packed pair
    /// `2 * high + low`.
    pub(crate) fn select_signal(
        &self,
        high: &Ciphertext,
        low: &Ciphertext,
        table: &LookupTable,
        meter: &mut WorkMeter,
    ) -> (r: Ciphertext)
        requires
            self.wf(),
            high.wf(self@.parameters),
            low.wf(self@.parameters),
            high@.degree <= 2,
            low@.degree <= 2,
            table_of(*table, DigitFunction::Select, self@.parameters),
        ensures
            r.wf(self@.parameters),
            r@.value == select(high@.value, low@.value),
            r@.degree == 2,
            r@.depth == one_deeper(deeper(high@.depth, low@.depth)),
            *final(meter) == old(meter).advance(1),
    {
        let key = self.as_shortint();
        proof {
            self@.parameters.lemma_bounds();
            lemma_small_mod(high@.value + high@.value, self@.parameters.total());
            lemma_small_mod(2 * high@.value + low@.value, self@.parameters.total());
            lemma_select_packed(high@.value, low@.value);
        }
        let twice = key.unchecked_add(high, high);
        let packed = key.unchecked_add(&twice, low);
        key.apply_lookup_table(&packed, table, meter)
    }

    /// One signal for each digit but the topmost.
    fn carry_signals(&self, blocks: &Vec<Ciphertext>, meter: &mut WorkMeter) -> (signals: Vec<
        Ciphertext,
    >)
        requires
            self.wf(),
            blocks@.len() >= 1,
            forall|j: int| 0 <= j < blocks@.len() ==> (#[trigger] blocks@[j])@.wf(self@.parameters),
        ensures
            signals@.len() == blocks@.len() - 1,
            forall|j: int|
                0 <= j < signals@.len() ==> {
                    &&& (#[trigger] signals@[j])@.wf(self@.parameters)
                    &&& signals@[j]@.degree == 2
                    &&& signals@[j]@.value == signal(
                        blocks@[j]@.value,
                        self@.parameters.message_modulus.0 as nat,
                    )
                    &&& signals@[j]@.depth == one_deeper(blocks@[j]@.depth)
                },
            *final(meter) == old(meter).advance((blocks@.len() - 1) as nat),
    {
        let key = self.as_shortint();
        let table = self.table(DigitFunction::Signal);
        let ghost p = self@.parameters;
        let ghost meter0 = *meter;
        let k = blocks.len() - 1;
        let mut signals: Vec<Ciphertext> = Vec::new();
        let mut i: usize = 0;
        while i < k
            invariant
                self.wf(),
                p == self@.parameters,
                key@ == self@,
                k == blocks@.len() - 1,
                i <= k,
                signals@.len() == i,
                table_of(table, DigitFunction::Signal, p),
                forall|j: int| 0 <= j < blocks@.len() ==> (#[trigger] blocks@[j])@.wf(p),
                forall|j: int|
                    0 <= j < i ==> {
                        &&& (#[trigger] signals@[j])@.wf(p)
                        &&& signals@[j]@.degree == 2
                        &&& signals@[j]@.value == signal(
                            blocks@[j]@.value,
                            p.message_modulus.0 as nat,
                        )
                        &&& signals@[j]@.depth == one_deeper(blocks@[j]@.depth)
                    },
                *meter == meter0.advance(i as nat),
            decreases k - i,
        {
            proof {
                assert(blocks@[i as int]@.wf(p));
            }
            let s = key.apply_lookup_table(&blocks[i], &table, meter);
            signals.push(s);
            i = i + 1;
        }
        signals
    }

    /// One round of the prefix combination: every signal from the place
    /// `w` on is combined with the signal `w` places below it.
    fn scan_round(
        &self,
        cur: &Vec<Ciphertext>,
        w: usize,
        table: &LookupTable,
        meter: &mut WorkMeter,
        Ghost(base): Ghost<Seq<nat>>,
        Ghost(depth): Ghost<nat>,
    ) -> (next: Vec<Ciphertext>)
        requires
            self.wf(),
            forall|i: int| 0 <= i < cur@.len() ==> (#[trigger] cur@[i])@.depth <= depth,
            table_of(*table, DigitFunction::Select, self@.parameters),
            1 <= w < cur@.len(),
            base.len() == cur@.len(),
            forall|i: int| 0 <= i < base.len() ==> #[trigger] base[i] <= 2,
            forall|i: int|
                0 <= i < cur@.len() ==> {
                    &&& (#[trigger] cur@[i])@.wf(self@.parameters)
                    &&& cur@[i]@.degree <= 2
                    &&& cur@[i]@.value == fold(
                        base,
                        if i - w + 1 > 0 {
                            i - w + 1
                        } else {
                            0
                        },
                        i,
                    )
                },
        ensures
            next@.len() == cur@.len(),
            forall|i: int|
                0 <= i < next@.len() ==> {
                    &&& (#[trigger] next@[i])@.wf(self@.parameters)
                    &&& next@[i]@.degree <= 2
                    &&& next@[i]@.value == fold(
                        base,
                        if i - 2 * w + 1 > 0 {
                            i - 2 * w + 1
                        } else {
                            0
                        },
                        i,
                    )
                },
            forall|i: int| 0 <= i < next@.len() ==> (#[trigger] next@[i])@.depth <= depth + 1,
            *final(meter) == old(meter).advance((cur@.len() - w) as nat),
    {
        let ghost p = self@.parameters;
        let ghost meter0 = *meter;
        let k = cur.len();
        let mut next: Vec<Ciphertext> = Vec::new();
        let mut i: usize = 0;
        while i < k
            invariant
                self.wf(),
                p == self@.parameters,
                table_of(*table, DigitFunction::Select, p),
                k == cur@.len(),
                base.len() == k,
                1 <= w < k,
                i <= k,
                next@.len() == i,
                forall|j: int| 0 <= j < base.len() ==> #[trigger] base[j] <= 2,
                forall|j: int|
                    0 <= j < k ==> {
                        &&& (#[trigger] cur@[j])@.wf(p)
                        &&& cur@[j]@.degree <= 2
                        &&& cur@[j]@.value == fold(
                            base,
                            if j - w + 1 > 0 {
                                j - w + 1
                            } else {
                                0
                            },
                            j,
                        )
                    },
                forall|j: int|
                    0 <= j < i ==> {
                        &&& (#[trigger] next@[j])@.wf(p)
                        &&& next@[j]@.degree <= 2
                        &&& next@[j]@.value == fold(
                            base,
                            if j - 2 * w + 1 > 0 {
                                j - 2 * w + 1
                            } else {
                                0
                            },
                            j,
                        )
                    },
                forall|j: int| 0 <= j < k ==> (#[trigger] cur@[j])@.depth <= depth,
                forall|j: int| 0 <= j < i ==> (#[trigger] next@[j])@.depth <= depth + 1,
                *meter == meter0.advance(
                    if i > w {
                        (i - w) as nat
                    } else {
                        0
                    },
                ),
            decreases k - i,
        {
            if i < w {
                proof {
                    assert(cur@[i as int]@.wf(p));
                }
                next.push(cur[i]);
            } else {
                proof {
                    assert(cur@[i as int]@.wf(p));
                    assert(cur@[i - w]@.wf(p));
                    let low: int = if i - 2 * w + 1 > 0 {
                        i - 2 * w + 1
                    } else {
                        0
                    };
                    lemma_fold_split(base, low, i - w, i as int);
                }
                let combined = self.select_signal(&cur[i], &cur[i - w], table, meter);
                next.push(combined);
            }
            i = i + 1;
        }
        next
    }

    /// The prefix combination of the signals: the result at the place `i`
    /// combines the signals of the places `0 ..= i`.
    fn scan_signals(
        &self,
        signals: Vec<Ciphertext>,
        meter: &mut WorkMeter,
        Ghost(depth): Ghost<nat>,
    ) -> (prefix: Vec<Ciphertext>)
        requires
            self.wf(),
            forall|i: int| 0 <= i < signals@.len() ==> (#[trigger] signals@[i])@.depth <= depth,
            forall|i: int|
                0 <= i < signals@.len() ==> {
                    &&& (#[trigger] signals@[i])@.wf(self@.parameters)
                    &&& signals@[i]@.degree <= 2
                },
        ensures
            prefix@.len() == signals@.len(),
            forall|i: int|
                0 <= i < prefix@.len() ==> {
                    &&& (#[trigger] prefix@[i])@.wf(self@.parameters)
                    &&& prefix@[i]@.degree <= 2
                    &&& prefix@[i]@.value == fold(digit_values(blocks_view(signals@)), 0, i)
                },
            forall|i: int|
                0 <= i < prefix@.len() ==> (#[trigger] prefix@[i])@.depth <= depth + scan_rounds(
                    signals@.len(),
                    1,
                ),
            *final(meter) == old(meter).advance(scan_cost(signals@.len(), 1)),
    {
        let ghost p = self@.parameters;
        let ghost meter0 = *meter;
        let ghost base = digit_values(blocks_view(signals@));
        let k = signals.len();
        if k <= 1 {
            proof {
                assert(meter0.advance(0) == meter0);
                if k == 1 {
                    assert(fold(base, 0, -1) == 1);
                    assert(fold(base, 0, 0) == select(base[0], 1));
                }
            }
            return signals;
        }
        let table = self.table(DigitFunction::Select);
        let mut cur = signals;
        let mut w: usize = 1;
        proof {
            assert forall|i: int| 0 <= i < k implies (#[trigger] cur@[i])@.value == fold(
                base,
                if i - w + 1 > 0 {
                    i - w + 1
                } else {
                    0
                },
                i,
            ) by {
                assert(fold(base, i, i - 1) == 1);
                assert(fold(base, i, i) == select(base[i], 1));
            }
            assert(meter0.advance(0) == meter0);
        }
        let ghost mut spent: nat = 0;
        let ghost mut rounds: nat = 0;
        while w < k
            invariant
                self.wf(),
                p == self@.parameters,
                table_of(table, DigitFunction::Select, p),
                k == cur@.len(),
                base.len() == k,
                1 <= w <= k,
                forall|j: int| 0 <= j < base.len() ==> #[trigger] base[j] <= 2,
                forall|j: int|
                    0 <= j < k ==> {
                        &&& (#[trigger] cur@[j])@.wf(p)
                        &&& cur@[j]@.degree <= 2
                        &&& cur@[j]@.value == fold(
                            base,
                            if j - w + 1 > 0 {
                                j - w + 1
                            } else {
                                0
                            },
                            j,
                        )
                    },
                spent + scan_cost(k as nat, w as nat) == scan_cost(k as nat, 1),
                rounds + scan_rounds(k as nat, w as nat) == scan_rounds(k as nat, 1),
                forall|j: int| 0 <= j < k ==> (#[trigger] cur@[j])@.depth <= depth + rounds,
                *meter == meter0.advance(spent),
            decreases k - w,
        {
            let next = self.scan_round(&cur, w, &table, meter, Ghost(base), Ghost(depth + rounds));
            proof {
                spent = spent + (k - w) as nat;
                rounds = rounds + 1;
            }
            cur = next;
            w = if w >= k - w {
                k
            } else {
                2 * w
            };
        }
        cur
    }

    /// The last round of a lookahead: every digit takes in the carry that
    /// the combined signal below it sends, and is reduced to the digit
    /// proper.
    fn resolve_carries(
        &self,
        blocks: &Vec<Ciphertext>,
        prefix: &Vec<Ciphertext>,
        meter: &mut WorkMeter,
        Ghost(block_depth): Ghost<nat>,
        Ghost(prefix_depth): Ghost<nat>,
    ) -> (r: Vec<Ciphertext>)
        requires
            self.wf(),
            forall|j: int| 0 <= j < blocks@.len() ==> (#[trigger] blocks@[j])@.depth <= block_depth,
            forall|j: int| 0 <= j < prefix@.len() ==> (#[trigger] prefix@[j])@.depth <= prefix_depth,
            blocks@.len() >= 1,
            prefix@.len() == blocks@.len() - 1,
            forall|j: int|
                0 <= j < blocks@.len() ==> {
                    &&& (#[trigger] blocks@[j])@.wf(self@.parameters)
                    &&& blocks@[j]@.degree <= 2 * (self@.parameters.message_modulus.0 - 1)
                },
            forall|j: int|
                0 <= j < prefix@.len() ==> {
                    &&& (#[trigger] prefix@[j])@.wf(self@.parameters)
                    &&& prefix@[j]@.degree <= 2
                },
        ensures
            r@.len() == blocks@.len(),
            forall|j: int|
                0 <= j < r@.len() ==> {
                    &&& (#[trigger] r@[j])@.wf(self@.parameters)
                    &&& r@[j]@.degree == self@.parameters.message_modulus.0 - 1
                    &&& r@[j]@.value == (blocks@[j]@.value + (if j >= 1 && prefix@[j - 1]@.value
                        == 2 {
                        1nat
                    } else {
                        0nat
                    })) % (self@.parameters.message_modulus.0 as nat)
                },
            forall|j: int|
                0 <= j < r@.len() ==> (#[trigger] r@[j])@.depth <= deeper(
                    block_depth,
                    prefix_depth + 1,
                ) + 1,
            *final(meter) == old(meter).advance((2 * blocks@.len() - 1) as nat),
    {
        let key = self.as_shortint();
        let ghost p = self@.parameters;
        let ghost meter0 = *meter;
        let n = blocks.len();
        let message_table = self.table(DigitFunction::Message);
        let bit_table = self.table(DigitFunction::CarryBit);
        let mut r: Vec<Ciphertext> = Vec::new();
        proof {
            p.lemma_bounds();
            assert(blocks@[0]@.wf(p));
        }
        let lowest = key.apply_lookup_table(&blocks[0], &message_table, meter);
        r.push(lowest);
        let mut i: usize = 1;
        while i < n
            invariant
                self.wf(),
                p == self@.parameters,
                key@ == self@,
                n == blocks@.len(),
                prefix@.len() == n - 1,
                1 <= i <= n,
                r@.len() == i,
                table_of(message_table, DigitFunction::Message, p),
                table_of(bit_table, DigitFunction::CarryBit, p),
                forall|j: int|
                    0 <= j < blocks@.len() ==> {
                        &&& (#[trigger] blocks@[j])@.wf(p)
                        &&& blocks@[j]@.degree <= 2 * (p.message_modulus.0 - 1)
                    },
                forall|j: int|
                    0 <= j < prefix@.len() ==> {
                        &&& (#[trigger] prefix@[j])@.wf(p)
                        &&& prefix@[j]@.degree <= 2
                    },
                forall|j: int|
                    0 <= j < i ==> {
                        &&& (#[trigger] r@[j])@.wf(p)
                        &&& r@[j]@.degree == p.message_modulus.0 - 1
                        &&& r@[j]@.value == (blocks@[j]@.value + (if j >= 1 && prefix@[j
                            - 1]@.value == 2 {
                            1nat
                        } else {
                            0nat
                        })) % (p.message_modulus.0 as nat)
                    },
                forall|j: int|
                    0 <= j < blocks@.len() ==> (#[trigger] blocks@[j])@.depth <= block_depth,
                forall|j: int|
                    0 <= j < prefix@.len() ==> (#[trigger] prefix@[j])@.depth <= prefix_depth,
                forall|j: int|
                    0 <= j < i ==> (#[trigger] r@[j])@.depth <= deeper(block_depth, prefix_depth + 1)
                        + 1,
                *meter == meter0.advance((2 * i - 1) as nat),
            decreases n - i,
        {
            proof {
                p.lemma_bounds();
                assert(blocks@[i as int]@.wf(p));
                assert(prefix@[i - 1]@.wf(p));
            }
            let bit = key.apply_lookup_table(&prefix[i - 1], &bit_table, meter);
            proof {
                lemma_small_mod(blocks@[i as int]@.value + bit@.value, p.total());
            }
            let raised = key.unchecked_add(&blocks[i], &bit);
            let digit = key.apply_lookup_table(&raised, &message_table, meter);
            r.push(digit);
            i = i + 1;
        }
        r
    }

    /// Propagates the carries of a raw digit-wise sum by lookahead. Every
    /// digit of the result is fresh, and the number of table lookups
    /// depends on the number of digits alone.
    pub fn propagate_lookahead(&self, ct: &mut RadixCiphertext, meter: &mut WorkMeter)
        requires
            self.wf(),
            old(ct).wf(self@.parameters),
            fits_lookahead(digit_degrees(old(ct)@), self@.parameters),
        ensures
            final(ct)@.len() == old(ct)@.len(),
            final(ct).wf(self@.parameters),
            final(ct).digits() == radix_digits(
                radix_value(old(ct).digits(), self@.parameters.message_modulus.0 as nat),
                self@.parameters.message_modulus.0 as nat,
                old(ct)@.len(),
            ),
            forall|i: int|
                0 <= i < final(ct)@.len() ==> (#[trigger] final(ct)@[i]).degree
                    == self@.parameters.message_modulus.0 - 1,
            depth_within(final(ct)@, deepest(old(ct)@) + lookahead_depth(old(ct)@.len())),
            *final(meter) == old(meter).advance(lookahead_cost(old(ct)@.len())),
    {
        let ghost p = self@.parameters;
        let ghost m = p.message_modulus.0 as nat;
        let ghost before = ct@;
        let ghost t = digit_values(before);
        let blocks = ct.to_blocks();
        proof {
            p.lemma_bounds();
            assert forall|j: int| 0 <= j < blocks@.len() implies {
                &&& (#[trigger] blocks@[j])@.wf(p)
                &&& blocks@[j]@.degree <= 2 * (p.message_modulus.0 - 1)
            } by {
                assert(before[j].wf(p));
                assert(digit_degrees(before)[j] <= 2 * (p.message_modulus.0 - 1));
            }
        }
        let ghost deep = deepest(before);
        proof {
            lemma_deepest(before);
            assert forall|j: int| 0 <= j < blocks@.len() implies (#[trigger] blocks@[j])@.depth
                <= deep by {
                assert(before[j].depth <= deep);
            }
        }
        let signals = self.carry_signals(&blocks, meter);
        let ghost sig = digit_values(blocks_view(signals@));
        let ghost rounds = scan_rounds(signals@.len(), 1);
        let prefix = self.scan_signals(signals, meter, Ghost(deep + 1));
        let resolved = self.resolve_carries(
            &blocks,
            &prefix,
            meter,
            Ghost(deep),
            Ghost(deep + 1 + rounds),
        );
        proof {
            assert forall|j: int| 0 <= j < resolved@.len() implies (
            #[trigger] blocks_view(resolved@)[j]).depth <= deep + 3 + rounds by {
                assert(resolved@[j]@.depth <= deeper(deep, deep + 1 + rounds + 1) + 1);
            }
            assert forall|j: int| 0 <= j < t.len() implies #[trigger] t[j] <= 2 * (m - 1) by {
                assert(blocks@[j]@.wf(p));
            }
            let after = blocks_view(resolved@);
            let f = digit_values(after);
            assert forall|j: int| 0 <= j < f.len() implies f[j] == rippled(t, m)[j] by {
                lemma_carry_is_fold(t, m, j as nat);
                if j >= 1 {
                    assert(prefix@[j - 1]@.wf(p));
                    lemma_fold_agree(sig, signals_of(t, m), 0, j - 1);
                }
                assert(resolved@[j]@.wf(p));
            }
            assert(f =~= rippled(t, m));
            lemma_rippled(t, m);
            assert forall|j: int| 0 <= j < after.len() implies (#[trigger] after[j]).wf(p) by {
                assert(resolved@[j]@.wf(p));
            }
            assert forall|j: int| 0 <= j < after.len() implies (#[trigger] after[j]).degree == m
                - 1 by {
                assert(resolved@[j]@.wf(p));
            }
        }
        ct.replace_blocks(resolved);
    }

    /// One splitting round: every digit is split into the digit proper and
    /// its carries, and takes in the carries of the digit below it. The
    /// carries of the topmost digit are dropped.
    fn split_pass(
        &self,
        blocks: &Vec<Ciphertext>,
        limit: u64,
        meter: &mut WorkMeter,
        Ghost(depth): Ghost<nat>,
    ) -> (next: Vec<Ciphertext>)
        requires
            self.wf(),
            forall|i: int| 0 <= i < blocks@.len() ==> (#[trigger] blocks@[i])@.depth <= depth,
            blocks@.len() >= 1,
            limit < self@.parameters.total(),
            forall|i: int|
                0 <= i < blocks@.len() ==> {
                    &&& (#[trigger] blocks@[i])@.wf(self@.parameters)
                    &&& blocks@[i]@.value <= limit
                },
        ensures
            next@.len() == blocks@.len(),
            forall|i: int|
                0 <= i < next@.len() ==> {
                    &&& (#[trigger] next@[i])@.wf(self@.parameters)
                    &&& next@[i]@.degree == if i == 0 {
                        (self@.parameters.message_modulus.0 - 1) as nat
                    } else {
                        (self@.parameters.message_modulus.0 - 1 + (limit as nat) / (
                        self@.parameters.message_modulus.0 as nat)) as nat
                    }
                    &&& next@[i]@.value == blocks@[i]@.value % (
                    self@.parameters.message_modulus.0 as nat) + if i >= 1 {
                        blocks@[i - 1]@.value / (self@.parameters.message_modulus.0 as nat)
                    } else {
                        0
                    }
                },
            forall|i: int| 0 <= i < next@.len() ==> (#[trigger] next@[i])@.depth <= depth + 1,
            *final(meter) == old(meter).advance((2 * blocks@.len() - 1) as nat),
    {
        let key = self.as_shortint();
        let ghost p = self@.parameters;
        let ghost m = p.message_modulus.0 as nat;
        let ghost meter0 = *meter;
        let n = blocks.len();
        let message_table = self.table(DigitFunction::Message);
        let carry_table = self.table(DigitFunction::CarryBelow(limit));
        let mut next: Vec<Ciphertext> = Vec::new();
        proof {
            p.lemma_bounds();
            assert(blocks@[0]@.wf(p));
            lemma_multiply_divide_lt(limit as int, m as int, p.carry_modulus.0 as int);
        }
        let lowest = key.apply_lookup_table(&blocks[0], &message_table, meter);
        next.push(lowest);
        let mut i: usize = 1;
        while i < n
            invariant
                self.wf(),
                p == self@.parameters,
                key@ == self@,
                m == p.message_modulus.0,
                n == blocks@.len(),
                1 <= i <= n,
                next@.len() == i,
                limit < p.total(),
                (limit as nat) / m < p.carry_modulus.0,
                m + p.carry_modulus.0 <= p.total(),
                table_of(message_table, DigitFunction::Message, p),
                table_of(carry_table, DigitFunction::CarryBelow(limit), p),
                forall|j: int|
                    0 <= j < blocks@.len() ==> {
                        &&& (#[trigger] blocks@[j])@.wf(p)
                        &&& blocks@[j]@.value <= limit
                    },
                forall|j: int|
                    0 <= j < i ==> {
                        &&& (#[trigger] next@[j])@.wf(p)
                        &&& next@[j]@.degree == if j == 0 {
                            (m - 1) as nat
                        } else {
                            (m - 1 + (limit as nat) / m) as nat
                        }
                        &&& next@[j]@.value == blocks@[j]@.value % m + if j >= 1 {
                            blocks@[j - 1]@.value / m
                        } else {
                            0
                        }
                    },
                forall|j: int| 0 <= j < blocks@.len() ==> (#[trigger] blocks@[j])@.depth <= depth,
                forall|j: int| 0 <= j < i ==> (#[trigger] next@[j])@.depth <= depth + 1,
                *meter == meter0.advance((2 * i - 1) as nat),
            decreases n - i,
        {
            proof {
                assert(blocks@[i as int]@.wf(p));
                assert(blocks@[i - 1]@.wf(p));
            }
            let low = key.apply_lookup_table(&blocks[i], &message_table, meter);
            let high = key.apply_lookup_table(&blocks[i - 1], &carry_table, meter);
            proof {
                lemma_small_mod(low@.value + high@.value, p.total());
            }
            let sum = key.unchecked_add(&low, &high);
            next.push(sum);
            i = i + 1;
        }
        next
    }

    /// Propagates the carries by the parallel strategy. A clean integer is
    /// left as it is. Otherwise splitting rounds bring every digit down to
    /// at most a sum of two clean digits, and the lookahead does the rest:
    /// every digit of the result is fresh.
    pub fn full_propagate_parallelized(&self, ct: &mut RadixCiphertext, meter: &mut WorkMeter)
        requires
            self.wf(),
            old(ct).wf(self@.parameters),
        ensures
            is_propagated_in_parallel(final(ct)@, old(ct)@, self@.parameters),
            is_clean(final(ct)@, self@.parameters),
            within_budget(final(ct)@, self@.max_degree),
            is_clean(old(ct)@, self@.parameters) ==> final(ct)@ == old(ct)@,
            depth_within(
                final(ct)@,
                deepest(old(ct)@) + parallel_propagation_rounds(
                    digit_degrees(old(ct)@),
                    self@.parameters,
                ),
            ),
            *final(meter) == old(meter).advance(
                parallel_propagation_cost(digit_degrees(old(ct)@), self@.parameters),
            ),
    {
        let p = self.parameters();
        let ghost before = ct@;
        let ghost degrees = digit_degrees(before);
        let ghost meter0 = *meter;
        let ghost deep = deepest(before);
        let m: u64 = p.message_modulus.0;
        let n = ct.len();
        let mut clean = true;
        let mut top: u64 = 0;
        let ghost mut dirty: int = 0;
        let mut i: usize = 0;
        proof {
            p.lemma_bounds();
        }
        while i < n
            invariant
                i <= n,
                n == ct@.len(),
                ct@ == before,
                degrees == digit_degrees(before),
                m == p.message_modulus.0,
                2 <= m <= 256,
                clean ==> forall|j: int| 0 <= j < i ==> #[trigger] degrees[j] < m,
                !clean ==> 0 <= dirty < n && degrees[dirty] >= m,
                top == largest(degrees, i as nat),
            decreases n - i,
        {
            let d = ct.blocks()[i].degree().0;
            proof {
                assert(degrees[i as int] == before[i as int].degree);
            }
            if d >= m {
                clean = false;
                proof {
                    dirty = i as int;
                }
            }
            if d > top {
                top = d;
            }
            i = i + 1;
        }
        proof {
            lemma_first_dirty(degrees, p, 0);
            assert(meter.advance(0) == *meter);
        }
        if clean {
            proof {
                assert(is_clean(before, p)) by {
                    assert forall|j: int| 0 <= j < before.len() implies (#[trigger] before[j]).degree
                        < p.message_modulus.0 by {
                        assert(degrees[j] < m);
                    }
                }
                lemma_clean_digits(before, p);
                lemma_radix_digits_congruent(
                    radix_value(digit_values(before), m as nat),
                    radix_plaintext(before, p),
                    m as nat,
                    before.len(),
                );
                lemma_clean_budget(before, p, self@.max_degree);
                lemma_deepest(before);
            }
            return ;
        }
        let total: u64 = m * p.carry_modulus.0;
        let mut limit: u64 = if top < total {
            top
        } else {
            total - 1
        };
        let mut blocks = ct.to_blocks();
        let ghost base = m as nat;
        let ghost modulus = pow(base as int, n as nat) as nat;
        let ghost first_limit = limit as nat;
        let ghost row = (2 * n - 1) as nat;
        let ghost mut passes: nat = 0;
        proof {
            p.lemma_bounds();
            lemma_pow_positive(base as int, n as nat);
            assert(!is_clean(before, p)) by {
                assert(before[dirty].degree == degrees[dirty]);
            }
            lemma_deepest(before);
            assert forall|j: int| 0 <= j < n implies {
                &&& (#[trigger] blocks@[j])@.wf(p)
                &&& blocks@[j]@.value <= limit
                &&& top < total ==> blocks@[j]@.degree <= limit
                &&& blocks@[j]@.depth <= deep
            } by {
                assert(before[j].wf(p));
                assert(degrees[j] == before[j].degree);
                assert(before[j].depth <= deep);
                lemma_largest(degrees, n as nat, j);
            }
            assert(0 * row == 0) by (nonlinear_arith);
        }
        while limit > 2 * (m - 1)
            invariant
                self.wf(),
                p == self@.parameters,
                m == p.message_modulus.0,
                2 <= m <= 256,
                base == m,
                n == blocks@.len(),
                n == before.len(),
                n >= 1,
                row == 2 * n - 1,
                modulus == pow(base as int, n as nat),
                modulus > 0,
                limit < p.total(),
                total == p.total(),
                total >= 2 * m,
                passes == 0 ==> limit == if top < total {
                    top
                } else {
                    (total - 1) as u64
                },
                forall|j: int|
                    0 <= j < n ==> {
                        &&& (#[trigger] blocks@[j])@.wf(p)
                        &&& blocks@[j]@.value <= limit
                        &&& (top < total || passes > 0) ==> blocks@[j]@.degree <= limit
                    },
                radix_value(digit_values(blocks_view(blocks@)), base) % modulus == radix_value(
                    digit_values(before),
                    base,
                ) % modulus,
                passes + split_passes(limit as nat, n as nat, p) == split_passes(
                    first_limit,
                    n as nat,
                    p,
                ),
                forall|j: int| 0 <= j < n ==> (#[trigger] blocks@[j])@.depth <= deep + passes,
                *meter == meter0.advance(passes * row),
            decreases limit,
        {
            let ghost d = digit_values(blocks_view(blocks@));
            let next = self.split_pass(&blocks, limit, meter, Ghost(deep + passes));
            proof {
                let s = digit_values(blocks_view(next@));
                assert(s[0] == d[0] % base) by {
                    assert(next@[0]@.wf(p));
                }
                assert forall|j: int| 1 <= j < n implies #[trigger] s[j] == d[j] % base + d[j - 1]
                    / base by {
                    assert(next@[j]@.wf(p));
                }
                lemma_split_pass(d, s, base, n as nat);
                assert(s.take(n as int) =~= s);
                assert(d.take(n as int) =~= d);
                let dropped = (d[n - 1] / base) as int;
                let rs = radix_value(s, base) as int;
                assert(radix_value(d, base) == modulus * dropped + rs) by (nonlinear_arith)
                    requires
                        rs + dropped * modulus == radix_value(d, base),
                ;
                lemma_mod_multiples_vanish(dropped, rs, modulus as int);
                lemma_split_bound_decreases(limit as nat, n as nat, p);
                assert((passes + 1) * row == passes * row + row) by (nonlinear_arith);
                passes = passes + 1;
            }
            blocks = next;
            limit = if n >= 2 {
                m - 1 + limit / m
            } else {
                m - 1
            };
            proof {
                assert forall|j: int| 0 <= j < n implies {
                    &&& (#[trigger] blocks@[j])@.value <= limit
                    &&& blocks@[j]@.degree <= limit
                } by {
                    assert(blocks@[j]@.wf(p));
                }
            }
        }
        let mut raw = RadixCiphertext::wrap(blocks);
        let ghost raw_view = raw@;
        proof {
            assert forall|j: int| 0 <= j < n implies (#[trigger] raw_view[j]).wf(p) by {
                assert(blocks@[j]@.wf(p));
            }
            assert forall|j: int| 0 <= j < n implies #[trigger] digit_degrees(raw_view)[j] <= 2 * (
            m - 1) by {
                assert(blocks@[j]@.wf(p));
            }
            assert forall|j: int| 0 <= j < n implies (#[trigger] raw_view[j]).depth <= deep
                + passes by {
                assert(blocks@[j]@.depth <= deep + passes);
            }
            lemma_deepest_within(raw_view, deep + passes);
        }
        self.propagate_lookahead(&mut raw, meter);
        proof {
            lemma_radix_digits_congruent(
                radix_value(digit_values(raw_view), base),
                radix_value(digit_values(before), base),
                base,
                n as nat,
            );
            assert(digit_degrees(raw@) =~= parallel_degrees(degrees, p));
            lemma_propagated_in_parallel(raw@, before, p);
            lemma_clean_budget(raw@, p, self@.max_degree);
        }
        ct.replace_blocks(raw.to_blocks());
    }

    /// Copies of two integers with their carries propagated by the parallel
    /// strategy. The operands stay as they are.
    pub fn propagated_copies(
        &self,
        a: &RadixCiphertext,
        b: &RadixCiphertext,
        meter: &mut WorkMeter,
    ) -> (r: (RadixCiphertext, RadixCiphertext))
        requires
            self.wf(),
            a.wf(self@.parameters),
            b.wf(self@.parameters),
        ensures
            is_clean_copy(r.0@, a@, self@.parameters, self@.max_degree),
            is_clean_copy(r.1@, b@, self@.parameters, self@.max_degree),
            *final(meter) == old(meter).advance(
                parallel_propagation_cost(digit_degrees(a@), self@.parameters)
                    + parallel_propagation_cost(digit_degrees(b@), self@.parameters),
            ),
    {
        let ghost p = self@.parameters;
        let mut ca = a.duplicate();
        let mut cb = b.duplicate();
        self.full_propagate_parallelized(&mut ca, meter);
        self.full_propagate_parallelized(&mut cb, meter);
        proof {
            lemma_propagated_in_parallel(ca@, a@, p);
            lemma_propagated_in_parallel(cb@, b@, p);
            lemma_deepest_within(
                ca@,
                deepest(a@) + parallel_propagation_rounds(digit_degrees(a@), p),
            );
            lemma_deepest_within(
                cb@,
                deepest(b@) + parallel_propagation_rounds(digit_degrees(b@), p),
            );
        }
        (ca, cb)
    }

    /// Adds two radix integers and propagates the carries by the parallel
    /// strategy: the result is clean and encodes the sum modulo
    /// `message_modulus^n`. Where the degrees of the operands do not allow
    /// the digit-wise addition, copies of the operands are propagated
    /// first.
    pub fn add_parallelized(
        &self,
        a: &RadixCiphertext,
        b: &RadixCiphertext,
        meter: &mut WorkMeter,
    ) -> (r: RadixCiphertext)
        requires
            self.wf(),
            a.wf(self@.parameters),
            b.wf(self@.parameters),
            a@.len() == b@.len(),
        ensures
            is_sum(r@, a@, b@, self@.parameters),
            within_budget(r@, self@.max_degree),
            radix_plaintext(r@, self@.parameters) == (radix_plaintext(a@, self@.parameters)
                + radix_plaintext(b@, self@.parameters)) % radix_modulus(
                self@.parameters,
                a@.len(),
            ),
            digit_degrees(r@) == add_parallelized_degrees(
                digit_degrees(a@),
                digit_degrees(b@),
                self@.parameters,
                self@.max_degree,
            ),
            depth_within(
                r@,
                add_parallelized_depth(
                    deepest(a@),
                    deepest(b@),
                    digit_degrees(a@),
                    digit_degrees(b@),
                    self@.parameters,
                    self@.max_degree,
                ),
            ),
            *final(meter) == old(meter).advance(
                add_parallelized_cost(
                    digit_degrees(a@),
                    digit_degrees(b@),
                    self@.parameters,
                    self@.max_degree,
                ),
            ),
    {
        let ghost p = self@.parameters;
        let ghost base = p.message_modulus.0 as nat;
        let ghost n = a@.len();
        let ghost va = radix_value(a.digits(), base);
        let ghost vb = radix_value(b.digits(), base);
        proof {
            p.lemma_bounds();
            lemma_pow_positive(base as int, n);
            lemma_add_possible_by_degrees(a@, b@, self@.max_degree);
        }
        if self.is_add_possible(a, b) {
            let mut sum = self.unchecked_add(a, b);
            let ghost raw = sum@;
            proof {
                assert(digit_degrees(raw) =~= added_degrees(digit_degrees(a@), digit_degrees(b@)));
                lemma_deepest(a@);
                lemma_deepest(b@);
                lemma_sum_depth(raw, a@, b@, deepest(a@), deepest(b@));
            }
            self.full_propagate_parallelized(&mut sum, meter);
            proof {
                lemma_propagated_in_parallel(sum@, raw, p);
                lemma_plaintext_of_sum(va, vb, base, n);
            }
            sum
        } else {
            let (ca, cb) = self.propagated_copies(a, b, meter);
            proof {
                assert forall|i: int| 0 <= i < n implies (#[trigger] ca@[i]).degree + (
                #[trigger] cb@[i]).degree <= self@.max_degree by {
                    assert(ca@[i].degree < base && cb@[i].degree < base);
                }
            }
            let mut sum = self.unchecked_add(&ca, &cb);
            let ghost raw = sum@;
            proof {
                assert(digit_degrees(raw) =~= added_degrees(
                    parallel_degrees(digit_degrees(a@), p),
                    parallel_degrees(digit_degrees(b@), p),
                ));
                lemma_sum_depth(
                    raw,
                    ca@,
                    cb@,
                    deepest(a@) + parallel_propagation_rounds(digit_degrees(a@), p),
                    deepest(b@) + parallel_propagation_rounds(digit_degrees(b@), p),
                );
            }
            self.full_propagate_parallelized(&mut sum, meter);
            proof {
                lemma_propagated_in_parallel(sum@, raw, p);
                lemma_plaintext_of_sum(va, vb, base, n);
                let m = pow(base as int, n) as nat;
                lemma_add_mod_noop(va as int, vb as int, m as int);
                lemma_mod_twice((va % m + vb % m) as int, m as int);
                lemma_radix_digits_congruent(va % m + vb % m, va + vb, base, n);
            }
            sum
        }
    }
}

} // verus!
