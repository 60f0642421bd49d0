//! Comparison of radix integers.
//!
//! Every pair of digits is compared on its own; the results are then
//! combined pair by pair in a binary tree, the more significant result
//! deciding unless it says "equal". The work done depends on the number of
//! digits alone, never on the digits.
use crate::arithmetic::{all_below, lemma_radix_value_bound, lemma_radix_value_push, radix_value};
use crate::ciphertext::{
    blocks_view, deepest, depth_within, digit_degrees, digit_values, is_clean, lemma_deepest,
    radix_plaintext, RadixCiphertext,
};
use crate::client_key::ClientKey;
use crate::lookahead::{fold, lemma_fold_split, tree_rounds};
use crate::radix::lemma_clean_digits;
use crate::radix_parallel::{
    parallel_propagation_cost, parallel_propagation_rounds,
};
use crate::server_key::ServerKey;
use crate::shortint::{deeper, Ciphertext, DigitView, LookupTable, Parameters, WorkMeter};
use crate::tables::{comparison_code, lemma_unpack, select, table_of, DigitFunction};
use vstd::arithmetic::power::*;
use vstd::prelude::*;

verus! {

/// How one integer stands to another.
#[derive(Clone, Copy, Debug, PartialEq, Eq)]
pub enum Comparison {
    Less,
    Equal,
    Greater,
}

impl Comparison {
    /// The comparison that the plaintext `code` of a comparison result
    /// stands for.
    pub open spec fn from_code(code: nat) -> Comparison {
        if code == 0 {
            Comparison::Less
        } else if code == 1 {
            Comparison::Equal
        } else {
            Comparison::Greater
        }
    }

    /// How `a` stands to `b`.
    pub open spec fn of(a: nat, b: nat) -> Comparison {
        if a < b {
            Comparison::Less
        } else if a == b {
            Comparison::Equal
        } else {
            Comparison::Greater
        }
    }
}

/// The comparison results of the digits of two sequences, place by place.
pub open spec fn digit_signs(a: Seq<nat>, b: Seq<nat>) -> Seq<nat> {
    Seq::new(a.len(), |i: int| comparison_code(a[i], b[i]))
}

/// The number of rounds of a comparison of clean integers of `n` digits:
/// one for the digit-wise results, and those of the binary tree that
/// combines them.
pub open spec fn comparison_rounds(n: nat) -> nat {
    1 + tree_rounds(n)
}

/// The number of table lookups of a comparison of clean integers of `n`
/// digits: one for each pair of digits, and one for each combination of
/// two results.
pub open spec fn comparison_cost(n: nat) -> nat {
    (2 * n - 1) as nat
}

/// Combining the digit-wise results of the lowest `k` places, the higher
/// places first, compares what the lowest `k` digits are worth.
pub proof fn lemma_fold_compares(a: Seq<nat>, b: Seq<nat>, m: nat, k: nat)
    requires
        m >= 2,
        a.len() == b.len(),
        k <= a.len(),
        all_below(a, m),
        all_below(b, m),
    ensures
        fold(digit_signs(a, b), 0, k - 1) == comparison_code(
            radix_value(a.take(k as int), m),
            radix_value(b.take(k as int), m),
        ),
    decreases k,
{
    if k == 0 {
        assert(a.take(0) =~= Seq::<nat>::empty());
        assert(b.take(0) =~= Seq::<nat>::empty());
    } else {
        let j = (k - 1) as nat;
        lemma_fold_compares(a, b, m, j);
        let ta = a.take(j as int);
        let tb = b.take(j as int);
        assert(a.take(k as int) =~= ta.push(a[j as int]));
        assert(b.take(k as int) =~= tb.push(b[j as int]));
        lemma_radix_value_push(ta, a[j as int], m);
        lemma_radix_value_push(tb, b[j as int], m);
        assert forall|i: int| 0 <= i < ta.len() implies #[trigger] ta[i] < m by {
            assert(ta[i] == a[i]);
        }
        assert forall|i: int| 0 <= i < tb.len() implies #[trigger] tb[i] < m by {
            assert(tb[i] == b[i]);
        }
        lemma_radix_value_bound(ta, m);
        lemma_radix_value_bound(tb, m);
        let pj = pow(m as int, j);
        let x = a[j as int] as int;
        let y = b[j as int] as int;
        let ra = radix_value(ta, m) as int;
        let rb = radix_value(tb, m) as int;
        assert(digit_signs(a, b)[j as int] == comparison_code(a[j as int], b[j as int]));
        if x < y {
            assert(ra + x * pj < rb + y * pj) by (nonlinear_arith)
                requires
                    0 <= ra < pj,
                    0 <= rb,
                    x + 1 <= y,
            ;
        } else if x > y {
            assert(ra + x * pj > rb + y * pj) by (nonlinear_arith)
                requires
                    0 <= rb < pj,
                    0 <= ra,
                    y + 1 <= x,
            ;
        }
    }
}

impl ClientKey {
    /// Decrypts the result of a comparison.
    pub fn decrypt_comparison(&self, ct: &Ciphertext) -> (r: Comparison)
        ensures
            r == Comparison::from_code(ct@.value),
    {
        let code = self.as_shortint().decrypt_message_and_carry(ct);
        if code == 0 {
            Comparison::Less
        } else if code == 1 {
            Comparison::Equal
        } else {
            Comparison::Greater
        }
    }
}

impl ServerKey {
    /// One round of the binary tree: every two neighbours are combined into
    /// one, the higher deciding first; a last signal without a neighbour is
    /// kept. The signal at `j` combines the places from `bounds[j]` up to
    /// `bounds[j + 1]`, the latter left out.
    fn combine_pairs(
        &self,
        cur: &Vec<Ciphertext>,
        table: &LookupTable,
        meter: &mut WorkMeter,
        Ghost(base): Ghost<Seq<nat>>,
        Ghost(bounds): Ghost<Seq<int>>,
        Ghost(depth): Ghost<nat>,
    ) -> (next: Vec<Ciphertext>)
        requires
            self.wf(),
            table_of(*table, DigitFunction::Select, self@.parameters),
            cur@.len() >= 2,
            bounds.len() == cur@.len() + 1,
            forall|j: int| 0 <= j < cur@.len() ==> #[trigger] bounds[j] <= bounds[j + 1],
            forall|j: int|
                0 <= j < cur@.len() ==> {
                    &&& (#[trigger] cur@[j])@.wf(self@.parameters)
                    &&& cur@[j]@.degree <= 2
                    &&& cur@[j]@.depth <= depth
                    &&& cur@[j]@.value == fold(base, bounds[j], bounds[j + 1] - 1)
                },
        ensures
            next@.len() == (cur@.len() + 1) / 2,
            forall|i: int|
                0 <= i < next@.len() ==> {
                    &&& (#[trigger] next@[i])@.wf(self@.parameters)
                    &&& next@[i]@.degree <= 2
                    &&& next@[i]@.depth <= depth + 1
                    &&& next@[i]@.value == fold(
                        base,
                        bounds[2 * i],
                        (if 2 * i + 2 <= cur@.len() {
                            bounds[2 * i + 2]
                        } else {
                            bounds[cur@.len() as int]
                        }) - 1,
                    )
                },
            (forall|j: int| 0 <= j < cur@.len() ==> (#[trigger] cur@[j])@.degree == 2) ==> (forall|
                i: int,
            | 0 <= i < next@.len() ==> (#[trigger] next@[i])@.degree == 2),
            *final(meter) == old(meter).advance(cur@.len() / 2),
    {
        let ghost p = self@.parameters;
        let ghost meter0 = *meter;
        let ghost exact = forall|j: int| 0 <= j < cur@.len() ==> (#[trigger] cur@[j])@.degree == 2;
        let len = cur.len();
        let mut next: Vec<Ciphertext> = Vec::new();
        let mut j: usize = 0;
        proof {
            assert(meter0.advance(0) == meter0);
        }
        while j + 1 < len
            invariant
                self.wf(),
                p == self@.parameters,
                table_of(*table, DigitFunction::Select, p),
                len == cur@.len(),
                len >= 2,
                j <= len,
                next@.len() * 2 == j,
                bounds.len() == len + 1,
                forall|i: int| 0 <= i < len ==> #[trigger] bounds[i] <= bounds[i + 1],
                forall|i: int|
                    0 <= i < len ==> {
                        &&& (#[trigger] cur@[i])@.wf(p)
                        &&& cur@[i]@.degree <= 2
                        &&& cur@[i]@.depth <= depth
                        &&& cur@[i]@.value == fold(base, bounds[i], bounds[i + 1] - 1)
                    },
                forall|i: int|
                    0 <= i < next@.len() ==> {
                        &&& (#[trigger] next@[i])@.wf(p)
                        &&& next@[i]@.degree == 2
                        &&& next@[i]@.depth <= depth + 1
                        &&& next@[i]@.value == fold(base, bounds[2 * i], bounds[2 * i + 2] - 1)
                    },
                *meter == meter0.advance(next@.len() as nat),
            decreases len - j,
        {
            proof {
                assert(cur@[j as int]@.wf(p));
                assert(cur@[j + 1]@.wf(p));
                assert(bounds[j as int] <= bounds[j + 1]);
                assert(bounds[j + 1] <= bounds[j + 2]);
                lemma_fold_split(base, bounds[j as int], bounds[j + 1] - 1, bounds[j + 2] - 1);
            }
            let combined = self.select_signal(&cur[j + 1], &cur[j], table, meter);
            next.push(combined);
            j = j + 2;
        }
        if j < len {
            proof {
                assert(cur@[j as int]@.wf(p));
                if exact {
                    assert(cur@[j as int]@.degree == 2);
                }
            }
            next.push(cur[j]);
        }
        next
    }

    /// Combines the signals pair by pair in a binary tree, down to one. The
    /// result combines them all, the higher places deciding first.
    pub(crate) fn reduce_signals(
        &self,
        signals: Vec<Ciphertext>,
        meter: &mut WorkMeter,
        Ghost(depth): Ghost<nat>,
    ) -> (r: Ciphertext)
        requires
            self.wf(),
            signals@.len() >= 1,
            forall|i: int|
                0 <= i < signals@.len() ==> {
                    &&& (#[trigger] signals@[i])@.wf(self@.parameters)
                    &&& signals@[i]@.degree <= 2
                    &&& signals@[i]@.depth <= depth
                },
        ensures
            r.wf(self@.parameters),
            r@.degree <= 2,
            (forall|i: int| 0 <= i < signals@.len() ==> (#[trigger] signals@[i])@.degree == 2)
                ==> r@.degree == 2,
            r@.value == fold(digit_values(blocks_view(signals@)), 0, signals@.len() - 1),
            r@.depth <= depth + tree_rounds(signals@.len()),
            *final(meter) == old(meter).advance((signals@.len() - 1) as nat),
    {
        let ghost p = self@.parameters;
        let ghost meter0 = *meter;
        let ghost base = digit_values(blocks_view(signals@));
        let ghost exact = forall|i: int|
            0 <= i < signals@.len() ==> (#[trigger] signals@[i])@.degree == 2;
        let n = signals.len();
        let table = self.table(DigitFunction::Select);
        let mut cur = signals;
        let ghost mut levels: nat = 0;
        let ghost mut bounds: Seq<int> = Seq::new((n + 1) as nat, |i: int| i);
        proof {
            assert forall|j: int| 0 <= j < n implies (#[trigger] cur@[j])@.value == fold(
                base,
                bounds[j],
                bounds[j + 1] - 1,
            ) by {
                assert(fold(base, j, j - 1) == 1);
                assert(fold(base, j, j) == select(base[j], 1));
            }
            assert(meter0.advance(0) == meter0);
        }
        while cur.len() > 1
            invariant
                self.wf(),
                p == self@.parameters,
                table_of(table, DigitFunction::Select, p),
                1 <= cur@.len() <= n,
                bounds.len() == cur@.len() + 1,
                bounds[0] == 0,
                bounds[cur@.len() as int] == n,
                forall|j: int| 0 <= j < cur@.len() ==> #[trigger] bounds[j] <= bounds[j + 1],
                forall|j: int|
                    0 <= j < cur@.len() ==> {
                        &&& (#[trigger] cur@[j])@.wf(p)
                        &&& cur@[j]@.degree <= 2
                        &&& cur@[j]@.depth <= depth + levels
                        &&& cur@[j]@.value == fold(base, bounds[j], bounds[j + 1] - 1)
                    },
                exact ==> forall|j: int| 0 <= j < cur@.len() ==> (#[trigger] cur@[j])@.degree == 2,
                levels + tree_rounds(cur@.len()) == tree_rounds(n as nat),
                *meter == meter0.advance((n - cur@.len()) as nat),
            decreases cur@.len(),
        {
            let ghost len = cur@.len() as int;
            let next = self.combine_pairs(
                &cur,
                &table,
                meter,
                Ghost(base),
                Ghost(bounds),
                Ghost(depth + levels),
            );
            proof {
                let k = next@.len() as int;
                let old_bounds = bounds;
                bounds = Seq::new(
                    (k + 1) as nat,
                    |i: int|
                        if 2 * i <= len {
                            old_bounds[2 * i]
                        } else {
                            old_bounds[len]
                        },
                );
                assert forall|i: int| 0 <= i < k implies #[trigger] bounds[i] <= bounds[i + 1] by {
                    assert(old_bounds[2 * i] <= old_bounds[2 * i + 1]);
                    if 2 * i + 2 <= len {
                        assert(old_bounds[2 * i + 1] <= old_bounds[2 * i + 2]);
                    }
                }
                levels = levels + 1;
            }
            cur = next;
        }
        cur[0]
    }

    /// Compares two clean radix integers. The plaintext of the result is 0
    /// where `a` is less than `b`, 1 where they are equal and 2 where `a` is
    /// greater. The number of table lookups is `2 * n - 1` whatever the
    /// integers are.
    pub fn unchecked_compare(
        &self,
        a: &RadixCiphertext,
        b: &RadixCiphertext,
        meter: &mut WorkMeter,
    ) -> (r: Ciphertext)
        requires
            self.wf(),
            a.wf(self@.parameters),
            b.wf(self@.parameters),
            a@.len() == b@.len(),
            is_clean(a@, self@.parameters),
            is_clean(b@, self@.parameters),
        ensures
            r.wf(self@.parameters),
            r@.degree == 2,
            r@.degree <= self@.max_degree,
            r@.value == comparison_code(
                radix_plaintext(a@, self@.parameters),
                radix_plaintext(b@, self@.parameters),
            ),
            r@.depth <= deeper(deepest(a@), deepest(b@)) + comparison_rounds(a@.len()),
            *final(meter) == old(meter).advance(comparison_cost(a@.len())),
    {
        let key = self.as_shortint();
        let ghost deep = deeper(deepest(a@), deepest(b@));
        let ghost p = self@.parameters;
        let ghost m = p.message_modulus.0 as nat;
        let ghost meter0 = *meter;
        let av = a.blocks();
        let bv = b.blocks();
        let n = av.len();
        let table = self.table(DigitFunction::Sign);
        let mut signs: Vec<Ciphertext> = Vec::new();
        let mut i: usize = 0;
        proof {
            p.lemma_bounds();
            lemma_deepest(a@);
            lemma_deepest(b@);
        }
        while i < n
            invariant
                self.wf(),
                p == self@.parameters,
                key@ == self@,
                m == p.message_modulus.0,
                n == av@.len(),
                n == bv@.len(),
                blocks_view(av@) == a@,
                blocks_view(bv@) == b@,
                a.wf(p),
                b.wf(p),
                is_clean(a@, p),
                is_clean(b@, p),
                i <= n,
                signs@.len() == i,
                table_of(table, DigitFunction::Sign, p),
                m * m <= p.total(),
                forall|j: int|
                    0 <= j < i ==> {
                        &&& (#[trigger] signs@[j])@.wf(p)
                        &&& signs@[j]@.degree == 2
                        &&& signs@[j]@.value == comparison_code(a@[j].value, b@[j].value)
                        &&& signs@[j]@.depth <= deep + 1
                    },
                depth_within(a@, deep),
                depth_within(b@, deep),
                *meter == meter0.advance(i as nat),
            decreases n - i,
        {
            proof {
                assert(a@[i as int].wf(p) && b@[i as int].wf(p));
                assert(a@[i as int].degree < m && b@[i as int].degree < m);
                assert(a@[i as int].depth <= deep && b@[i as int].depth <= deep);
            }
            let packed = self.pack_pair(&av[i], &bv[i]);
            proof {
                lemma_unpack(a@[i as int].value, b@[i as int].value, m);
            }
            let sign = key.apply_lookup_table(&packed, &table, meter);
            signs.push(sign);
            i = i + 1;
        }
        let ghost sign_values = digit_values(blocks_view(signs@));
        let r = self.reduce_signals(signs, meter, Ghost(deep + 1));
        proof {
            let da = a.digits();
            let db = b.digits();
            lemma_clean_digits(a@, p);
            lemma_clean_digits(b@, p);
            assert(sign_values =~= digit_signs(da, db));
            lemma_fold_compares(da, db, m, n as nat);
            assert(da.take(n as int) =~= da);
            assert(db.take(n as int) =~= db);
        }
        r
    }

    /// Compares two radix integers. Operands that are not clean are
    /// propagated first, on copies. The number of table lookups depends on
    /// the number of digits and on the degrees, never on the integers.
    pub fn compare(&self, a: &RadixCiphertext, b: &RadixCiphertext, meter: &mut WorkMeter) -> (r:
        Ciphertext)
        requires
            self.wf(),
            a.wf(self@.parameters),
            b.wf(self@.parameters),
            a@.len() == b@.len(),
        ensures
            r.wf(self@.parameters),
            r@.degree == 2,
            r@.degree <= self@.max_degree,
            r@.value == comparison_code(
                radix_plaintext(a@, self@.parameters),
                radix_plaintext(b@, self@.parameters),
            ),
            r@.depth <= deeper(
                deepest(a@) + parallel_propagation_rounds(digit_degrees(a@), self@.parameters),
                deepest(b@) + parallel_propagation_rounds(digit_degrees(b@), self@.parameters),
            ) + comparison_rounds(a@.len()),
            *final(meter) == old(meter).advance(
                parallel_propagation_cost(digit_degrees(a@), self@.parameters)
                    + parallel_propagation_cost(digit_degrees(b@), self@.parameters)
                    + comparison_cost(a@.len()),
            ),
    {
        let (ca, cb) = self.propagated_copies(a, b, meter);
        self.unchecked_compare(&ca, &cb, meter)
    }
}

/// A comparison decrypts to the order of the plaintexts: where `a` encodes
/// `x` and `b` encodes `y`, both inside the width of the integers, the
/// result of comparing `a` with `b` stands for the order of `x` and `y`.
pub proof fn lemma_compare_decrypts_to_order(
    p: Parameters,
    x: nat,
    y: nat,
    a: Seq<DigitView>,
    b: Seq<DigitView>,
    code: nat,
)
    requires
        p.wf(),
        a.len() == b.len(),
        x < crate::ciphertext::radix_modulus(p, a.len()),
        y < crate::ciphertext::radix_modulus(p, a.len()),
        crate::radix::encrypts(a, x, p),
        crate::radix::encrypts(b, y, p),
        code == comparison_code(radix_plaintext(a, p), radix_plaintext(b, p)),
    ensures
        Comparison::from_code(code) == Comparison::of(x, y),
{
    crate::radix::lemma_encrypts(a, x, p);
    crate::radix::lemma_encrypts(b, y, p);
    vstd::arithmetic::div_mod::lemma_small_mod(x, crate::ciphertext::radix_modulus(p, a.len()));
    vstd::arithmetic::div_mod::lemma_small_mod(y, crate::ciphertext::radix_modulus(p, a.len()));
}

} // verus!
