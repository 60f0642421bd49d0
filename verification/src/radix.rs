//! Radix integers: encryption and decryption, digit-wise addition, and
//! carry propagation from the least significant digit upwards.
use crate::arithmetic::{
    all_below, lemma_carry_drop, lemma_carry_step, lemma_pow_step, lemma_radix_digits_congruent,
    lemma_radix_digits_of_value, lemma_radix_digits_value, lemma_radix_value_add,
    lemma_radix_value_bound, radix_digits, radix_value,
};
use crate::ciphertext::{
    blocks_view, blocks_wf, deepest, depth_within, digit_degrees, digit_values, is_clean,
    lemma_deepest, lemma_deepest_within, radix_modulus, radix_plaintext, within_budget,
    MalformedInteger, RadixCiphertext,
};
use crate::client_key::ClientKey;
use crate::server_key::ServerKey;
use crate::shortint::{deeper, CheckError, Ciphertext, DigitView, Parameters, WorkMeter};
use crate::tables::{table_of, DigitFunction};
use vstd::arithmetic::div_mod::*;
use vstd::arithmetic::mul::*;
use vstd::arithmetic::power::*;
use vstd::prelude::*;

verus! {

/// Every pair of digits can be added inside the degree budget.
pub open spec fn add_possible(a: Seq<DigitView>, b: Seq<DigitView>, max_degree: nat) -> bool {
    forall|i: int|
        0 <= i < a.len() ==> (#[trigger] a[i]).degree + (#[trigger] b[i]).degree <= max_degree
}

/// `sum` holds, digit by digit, the sums of the plaintexts and of the
/// degrees of `a` and `b`, and is as deep as the deeper of the two.
pub open spec fn is_digitwise_sum(
    sum: Seq<DigitView>,
    a: Seq<DigitView>,
    b: Seq<DigitView>,
) -> bool {
    &&& sum.len() == a.len()
    &&& forall|i: int|
        0 <= i < sum.len() ==> {
            &&& (#[trigger] sum[i]).value == a[i].value + b[i].value
            &&& sum[i].degree == a[i].degree + b[i].degree
            &&& sum[i].depth == deeper(a[i].depth, b[i].depth)
        }
}

/// The first place at or after `from` whose degree leaves room for a carry,
/// or the number of digits if there is none.
pub open spec fn first_dirty(degrees: Seq<nat>, p: Parameters, from: nat) -> nat
    decreases degrees.len() - from,
{
    if from >= degrees.len() {
        degrees.len()
    } else if degrees[from as int] >= p.message_modulus.0 {
        from
    } else {
        first_dirty(degrees, p, from + 1)
    }
}

/// The number of table lookups of a carry propagation: none for a clean
/// integer; otherwise two for every digit from the first dirty one on, but
/// one only for the topmost digit, whose carry is dropped.
pub open spec fn propagation_cost(degrees: Seq<nat>, p: Parameters) -> nat {
    let start = first_dirty(degrees, p, 0);
    if start < degrees.len() {
        (2 * (degrees.len() - start) - 1) as nat
    } else {
        0
    }
}

/// The number of rounds of a carry propagation digit by digit: one for
/// every digit from the first dirty one on, each waiting for the one
/// before it.
pub open spec fn propagation_rounds(degrees: Seq<nat>, p: Parameters) -> nat {
    (degrees.len() - first_dirty(degrees, p, 0)) as nat
}

/// The degrees after a carry propagation: the digits below the first dirty
/// one keep theirs, the others are fresh.
pub open spec fn propagated_degrees(degrees: Seq<nat>, p: Parameters) -> Seq<nat> {
    Seq::new(
        degrees.len(),
        |i: int|
            if i < first_dirty(degrees, p, 0) {
                degrees[i]
            } else {
                (p.message_modulus.0 - 1) as nat
            },
    )
}

/// `after` is `before` with its carries propagated: the same number of
/// digits, each the digit of what `before` is worth.
pub open spec fn is_propagated(after: Seq<DigitView>, before: Seq<DigitView>, p: Parameters) -> bool {
    &&& after.len() == before.len()
    &&& blocks_wf(after, p)
    &&& digit_values(after) == radix_digits(
        radix_value(digit_values(before), p.message_modulus.0 as nat),
        p.message_modulus.0 as nat,
        before.len(),
    )
    &&& digit_degrees(after) == propagated_degrees(digit_degrees(before), p)
}

/// `sum` is the clean sum of `a` and `b`: each of its digits is the digit
/// of what `a` and `b` are worth together.
pub open spec fn is_sum(sum: Seq<DigitView>, a: Seq<DigitView>, b: Seq<DigitView>, p: Parameters) -> bool {
    &&& sum.len() == a.len()
    &&& blocks_wf(sum, p)
    &&& is_clean(sum, p)
    &&& digit_values(sum) == radix_digits(
        radix_value(digit_values(a), p.message_modulus.0 as nat) + radix_value(
            digit_values(b),
            p.message_modulus.0 as nat,
        ),
        p.message_modulus.0 as nat,
        a.len(),
    )
}

/// The degrees of a digit-wise sum.
pub open spec fn added_degrees(a: Seq<nat>, b: Seq<nat>) -> Seq<nat> {
    Seq::new(a.len(), |i: int| a[i] + b[i])
}

/// Whether every pair of degrees adds up inside the budget.
pub open spec fn degrees_fit(a: Seq<nat>, b: Seq<nat>, max_degree: nat) -> bool {
    forall|i: int| 0 <= i < a.len() ==> #[trigger] a[i] + b[i] <= max_degree
}

/// The number of table lookups of `add`. Where the operands can be added
/// as they are, only the sum is propagated; otherwise both operands are
/// propagated first.
pub open spec fn add_cost(a: Seq<nat>, b: Seq<nat>, p: Parameters, max_degree: nat) -> nat {
    if degrees_fit(a, b, max_degree) {
        propagation_cost(added_degrees(a, b), p)
    } else {
        propagation_cost(a, p) + propagation_cost(b, p) + propagation_cost(
            added_degrees(propagated_degrees(a, p), propagated_degrees(b, p)),
            p,
        )
    }
}

/// Whether two integers can be added digit by digit is a matter of their
/// degrees alone.
pub proof fn lemma_add_possible_by_degrees(a: Seq<DigitView>, b: Seq<DigitView>, max_degree: nat)
    requires
        a.len() == b.len(),
    ensures
        add_possible(a, b, max_degree) == degrees_fit(
            digit_degrees(a),
            digit_degrees(b),
            max_degree,
        ),
{
    if add_possible(a, b, max_degree) {
        assert forall|i: int| 0 <= i < a.len() implies #[trigger] digit_degrees(a)[i]
            + digit_degrees(b)[i] <= max_degree by {
            assert(a[i].degree + b[i].degree <= max_degree);
        }
    }
    if degrees_fit(digit_degrees(a), digit_degrees(b), max_degree) {
        assert forall|i: int| 0 <= i < a.len() implies (#[trigger] a[i]).degree + (
        #[trigger] b[i]).degree <= max_degree by {
            assert(digit_degrees(a)[i] + digit_degrees(b)[i] <= max_degree);
        }
    }
}

/// A bound on the depth of the result of `add`, for operands no deeper
/// than `deep_a` and `deep_b`.
pub open spec fn add_depth(
    deep_a: nat,
    deep_b: nat,
    a: Seq<nat>,
    b: Seq<nat>,
    p: Parameters,
    max_degree: nat,
) -> nat {
    if degrees_fit(a, b, max_degree) {
        deeper(deep_a, deep_b) + propagation_rounds(added_degrees(a, b), p)
    } else {
        deeper(deep_a + propagation_rounds(a, p), deep_b + propagation_rounds(b, p))
            + propagation_rounds(
            added_degrees(propagated_degrees(a, p), propagated_degrees(b, p)),
            p,
        )
    }
}

/// A digit-wise sum is no deeper than the deeper of its operands.
pub proof fn lemma_sum_depth(
    sum: Seq<DigitView>,
    a: Seq<DigitView>,
    b: Seq<DigitView>,
    deep_a: nat,
    deep_b: nat,
)
    requires
        a.len() == b.len(),
        is_digitwise_sum(sum, a, b),
        depth_within(a, deep_a),
        depth_within(b, deep_b),
    ensures
        depth_within(sum, deeper(deep_a, deep_b)),
        deepest(sum) <= deeper(deep_a, deep_b),
{
    assert forall|i: int| 0 <= i < sum.len() implies (#[trigger] sum[i]).depth <= deeper(
        deep_a,
        deep_b,
    ) by {
        assert(a[i].depth <= deep_a && b[i].depth <= deep_b);
    }
    lemma_deepest_within(sum, deeper(deep_a, deep_b));
}

/// The degrees of the result of `add`.
pub open spec fn add_degrees(a: Seq<nat>, b: Seq<nat>, p: Parameters, max_degree: nat) -> Seq<nat> {
    if degrees_fit(a, b, max_degree) {
        propagated_degrees(added_degrees(a, b), p)
    } else {
        propagated_degrees(
            added_degrees(propagated_degrees(a, p), propagated_degrees(b, p)),
            p,
        )
    }
}

/// A clean integer is worth what it encodes, and its digits are the digits
/// of that.
pub proof fn lemma_clean_digits(blocks: Seq<DigitView>, p: Parameters)
    requires
        p.wf(),
        blocks_wf(blocks, p),
        is_clean(blocks, p),
    ensures
        all_below(digit_values(blocks), p.message_modulus.0 as nat),
        radix_value(digit_values(blocks), p.message_modulus.0 as nat) == radix_plaintext(blocks, p),
        radix_plaintext(blocks, p) < radix_modulus(p, blocks.len()),
        digit_values(blocks) == radix_digits(
            radix_plaintext(blocks, p),
            p.message_modulus.0 as nat,
            blocks.len(),
        ),
{
    let base = p.message_modulus.0 as nat;
    let d = digit_values(blocks);
    assert forall|i: int| 0 <= i < d.len() implies #[trigger] d[i] < base by {
        assert(blocks[i].wf(p));
        assert(blocks[i].degree < base);
    }
    lemma_radix_value_bound(d, base);
    lemma_small_mod(radix_value(d, base), pow(base as int, d.len()) as nat);
    lemma_mod_twice(radix_value(d, base) as int, pow(base as int, d.len()));
    lemma_radix_digits_of_value(d, radix_plaintext(blocks, p), base);
}

/// A propagated integer encodes what the integer before it encoded, and
/// every one of its degrees lies under the message modulus.
pub proof fn lemma_propagated(after: Seq<DigitView>, before: Seq<DigitView>, p: Parameters)
    requires
        p.wf(),
        blocks_wf(before, p),
        is_propagated(after, before, p),
    ensures
        is_clean(after, p),
        radix_plaintext(after, p) == radix_plaintext(before, p),
        radix_value(digit_values(after), p.message_modulus.0 as nat) == radix_plaintext(before, p),
{
    let base = p.message_modulus.0 as nat;
    let n = before.len();
    let dd = digit_degrees(before);
    lemma_first_dirty(dd, p, 0);
    assert forall|i: int| 0 <= i < after.len() implies (#[trigger] after[i]).degree < base by {
        assert(digit_degrees(after)[i] == after[i].degree);
        assert(propagated_degrees(dd, p)[i] < base);
    }
    let v = radix_value(digit_values(before), base);
    lemma_radix_digits_value(v, base, n);
    lemma_mod_twice(v as int, pow(base as int, n));
}

/// What `first_dirty` finds: every degree between `from` and the place
/// found lies under the message modulus, and the degree at the place found
/// does not.
pub proof fn lemma_first_dirty(degrees: Seq<nat>, p: Parameters, from: nat)
    requires
        from <= degrees.len(),
    ensures
        from <= first_dirty(degrees, p, from) <= degrees.len(),
        forall|i: int|
            from <= i < first_dirty(degrees, p, from) ==> #[trigger] degrees[i]
                < p.message_modulus.0,
        first_dirty(degrees, p, from) < degrees.len() ==> degrees[first_dirty(
            degrees,
            p,
            from,
        ) as int] >= p.message_modulus.0,
    decreases degrees.len() - from,
{
    if from < degrees.len() && degrees[from as int] < p.message_modulus.0 {
        lemma_first_dirty(degrees, p, from + 1);
    }
}

impl ClientKey {
    /// Encrypts the `num_blocks` lowest digits of `message`, one ciphertext
    /// for each digit. `NoDigits` is returned for `num_blocks == 0`.
    pub fn encrypt_radix(&self, message: u64, num_blocks: usize) -> (r: Result<
        RadixCiphertext,
        MalformedInteger,
    >)
        requires
            self.wf(),
        ensures
            r.is_ok() == (num_blocks >= 1),
            r matches Err(e) ==> e == MalformedInteger::NoDigits,
            r matches Ok(ct) ==> {
                &&& ct.wf(self@)
                &&& ct@.len() == num_blocks
                &&& encrypts(ct@, message as nat, self@)
                &&& is_clean(ct@, self@)
                &&& within_budget(ct@, self@.max_degree() as nat)
                &&& ct.digits() == radix_digits(
                    message as nat,
                    self@.message_modulus.0 as nat,
                    num_blocks as nat,
                )
                &&& forall|i: int|
                    0 <= i < num_blocks ==> (#[trigger] ct@[i]).degree == self@.message_modulus.0
                        - 1
                &&& radix_plaintext(ct@, self@) == message as nat % radix_modulus(
                    self@,
                    num_blocks as nat,
                )
            },
    {
        if num_blocks == 0 {
            return Err(MalformedInteger::NoDigits);
        }
        let p = self.parameters();
        let base: u64 = p.message_modulus.0;
        let mut blocks: Vec<Ciphertext> = Vec::new();
        let mut rest: u64 = message;
        let mut i: usize = 0;
        proof {
            p.lemma_bounds();
            lemma_pow0(base as int);
        }
        while i < num_blocks
            invariant
                self.wf(),
                p == self@,
                base == p.message_modulus.0,
                i <= num_blocks,
                blocks@.len() == i,
                pow(base as int, i as nat) > 0,
                rest == message as int / pow(base as int, i as nat),
                forall|j: int|
                    0 <= j < i ==> {
                        &&& (#[trigger] blocks@[j])@.wf(p)
                        &&& blocks@[j]@.degree == base - 1
                        &&& blocks@[j]@.value == radix_digits(
                            message as nat,
                            base as nat,
                            num_blocks as nat,
                        )[j]
                    },
            decreases num_blocks - i,
        {
            let block = self.as_shortint().encrypt(rest);
            proof {
                assert(block@.value == radix_digits(
                    message as nat,
                    base as nat,
                    num_blocks as nat,
                )[i as int]);
                lemma_pow_step(base as nat, i as nat);
                lemma_div_denominator(message as int, pow(base as int, i as nat), base as int);
                assert(pow(base as int, i as nat) * base == base * pow(base as int, i as nat))
                    by (nonlinear_arith);
            }
            blocks.push(block);
            rest = rest / base;
            i = i + 1;
        }
        let ct = RadixCiphertext::wrap(blocks);
        proof {
            assert(ct.digits() =~= radix_digits(message as nat, base as nat, num_blocks as nat));
            lemma_radix_digits_value(message as nat, base as nat, num_blocks as nat);
            lemma_small_mod(
                radix_value(ct.digits(), base as nat),
                pow(base as int, num_blocks as nat) as nat,
            );
            lemma_mod_twice(message as int, pow(base as int, num_blocks as nat));
            lemma_clean_budget(ct@, p, p.max_degree() as nat);
        }
        Ok(ct)
    }

    /// Whether the number of values of a radix integer of `num_blocks`
    /// digits, `message_modulus^num_blocks`, is at most `2^64`, so that
    /// every value fits in a `u64`.
    pub fn radix_fits(&self, num_blocks: usize) -> (fits: bool)
        requires
            self.wf(),
        ensures
            fits == (radix_modulus(self@, num_blocks as nat) <= 0x1_0000_0000_0000_0000),
    {
        let p = self.parameters();
        let base: u64 = p.message_modulus.0;
        let mut modulus: u128 = 1;
        let mut k: usize = 0;
        proof {
            p.lemma_bounds();
            lemma_pow0(base as int);
        }
        while k < num_blocks
            invariant
                k <= num_blocks,
                2 <= base <= 256,
                base == self@.message_modulus.0,
                modulus == pow(base as int, k as nat),
                modulus <= 0x1_0000_0000_0000_0000,
            decreases num_blocks - k,
        {
            proof {
                lemma_pow_step(base as nat, k as nat);
                lemma_pow_increases(base as nat, (k + 1) as nat, num_blocks as nat);
                lemma_pow_positive(base as int, num_blocks as nat);
                assert(modulus * base == base * modulus) by (nonlinear_arith);
                assert(modulus * base <= 0x1_0000_0000_0000_0000 * 256) by (nonlinear_arith)
                    requires
                        0 <= modulus <= 0x1_0000_0000_0000_0000,
                        0 <= base <= 256,
                ;
            }
            let next: u128 = modulus * (base as u128);
            if next > 0x1_0000_0000_0000_0000 {
                return false;
            }
            modulus = next;
            k = k + 1;
        }
        true
    }

    /// Decrypts a radix integer: the worth of its digits, carries included,
    /// modulo `message_modulus^n`. That modulus may be at most `2^64`, so
    /// that the result fits in a `u64`.
    pub fn decrypt_radix(&self, ct: &RadixCiphertext) -> (m: u64)
        requires
            self.wf(),
            ct.wf(self@),
            radix_modulus(self@, ct@.len()) <= 0x1_0000_0000_0000_0000,
        ensures
            m == radix_plaintext(ct@, self@),
    {
        let p = self.parameters();
        let base: u64 = p.message_modulus.0;
        let blocks = ct.blocks();
        let n = blocks.len();
        proof {
            p.lemma_bounds();
            lemma_pow0(base as int);
        }
        let mut modulus: u128 = 1;
        let mut k: usize = 0;
        while k < n
            invariant
                k <= n,
                2 <= base <= 256,
                modulus > 0,
                modulus == pow(base as int, k as nat),
                pow(base as int, n as nat) <= 0x1_0000_0000_0000_0000,
            decreases n - k,
        {
            proof {
                lemma_pow_step(base as nat, k as nat);
                lemma_pow_positive(base as int, (k + 1) as nat);
                lemma_pow_increases(base as nat, (k + 1) as nat, n as nat);
                lemma_pow_increases(base as nat, k as nat, n as nat);
                assert(modulus * base == base * modulus) by (nonlinear_arith);
            }
            modulus = modulus * (base as u128);
            k = k + 1;
        }
        let ghost digits = ct.digits();
        let mut acc: u128 = 0;
        let mut i: usize = n;
        proof {
            assert(digits.subrange(n as int, n as int) =~= Seq::<nat>::empty());
            lemma_small_mod(0, modulus as nat);
            assert forall|j: int| 0 <= j < n implies (#[trigger] blocks@[j])@.wf(p) by {
                assert(ct@[j].wf(p));
            }
        }
        while i > 0
            invariant
                i <= n,
                n == blocks@.len(),
                digits == digit_values(blocks_view(blocks@)),
                digits.len() == n,
                2 <= base <= 256,
                base == p.message_modulus.0,
                0 < modulus <= 0x1_0000_0000_0000_0000,
                p.wf(),
                forall|j: int| 0 <= j < n ==> (#[trigger] blocks@[j])@.wf(p),
                acc < modulus,
                acc == radix_value(digits.subrange(i as int, n as int), base as nat) % (
                modulus as nat),
            decreases i,
        {
            i = i - 1;
            let v: u64 = self.as_shortint().decrypt_message_and_carry(&blocks[i]);
            proof {
                p.lemma_bounds();
                assert(blocks@[i as int]@.wf(p));
                let s = digits.subrange(i as int, n as int);
                let t = digits.subrange(i + 1, n as int);
                assert(s.drop_first() =~= t);
                assert(s[0] == v);
                let rt = radix_value(t, base as nat) as int;
                let m = modulus as int;
                // (v + base * (rt % m)) % m == (v + base * rt) % m
                lemma_mul_mod_noop_right(base as int, rt, m);
                lemma_add_mod_noop_right(v as int, base * (rt % m), m);
                lemma_add_mod_noop_right(v as int, base * rt, m);
                assert(acc * base <= 0x1_0000_0000_0000_0000 * 256) by (nonlinear_arith)
                    requires
                        0 <= acc <= 0x1_0000_0000_0000_0000,
                        0 <= base <= 256,
                ;
            }
            let wide: u128 = acc * (base as u128) + (v as u128);
            proof {
                lemma_mod_bound(wide as int, modulus as int);
                assert(wide == v + base * acc) by (nonlinear_arith)
                    requires
                        wide == acc * base + v,
                ;
            }
            acc = wide % modulus;
        }
        proof {
            assert(digits.subrange(0, n as int) =~= digits);
        }
        acc as u64
    }
}

impl ServerKey {
    /// Whether every pair of digits can be added inside the degree budget.
    pub fn is_add_possible(&self, a: &RadixCiphertext, b: &RadixCiphertext) -> (possible: bool)
        requires
            a@.len() == b@.len(),
        ensures
            possible == add_possible(a@, b@, self@.max_degree),
    {
        let av = a.blocks();
        let bv = b.blocks();
        let mut i: usize = 0;
        while i < av.len()
            invariant
                i <= av@.len(),
                av@.len() == bv@.len(),
                av@.len() == a@.len(),
                blocks_view(av@) == a@,
                blocks_view(bv@) == b@,
                forall|j: int|
                    0 <= j < i ==> (#[trigger] a@[j]).degree + (#[trigger] b@[j]).degree
                        <= self@.max_degree,
            decreases av@.len() - i,
        {
            if !self.as_shortint().is_add_possible(&av[i], &bv[i]) {
                assert(a@[i as int].degree + b@[i as int].degree > self@.max_degree);
                return false;
            }
            i = i + 1;
        }
        true
    }

    /// Adds two radix integers digit by digit, without a check and without
    /// carry propagation. The caller answers for the degree budget.
    pub fn unchecked_add(&self, a: &RadixCiphertext, b: &RadixCiphertext) -> (r: RadixCiphertext)
        requires
            self.wf(),
            a.wf(self@.parameters),
            b.wf(self@.parameters),
            a@.len() == b@.len(),
            add_possible(a@, b@, self@.max_degree),
        ensures
            r.wf(self@.parameters),
            is_digitwise_sum(r@, a@, b@),
            within_budget(r@, self@.max_degree),
            radix_value(r.digits(), self@.parameters.message_modulus.0 as nat) == radix_value(
                a.digits(),
                self@.parameters.message_modulus.0 as nat,
            ) + radix_value(b.digits(), self@.parameters.message_modulus.0 as nat),
    {
        let av = a.blocks();
        let bv = b.blocks();
        let ghost p = self@.parameters;
        let mut blocks: Vec<Ciphertext> = Vec::new();
        let mut i: usize = 0;
        proof {
            p.lemma_bounds();
        }
        while i < av.len()
            invariant
                self.wf(),
                p == self@.parameters,
                i <= av@.len(),
                av@.len() == bv@.len(),
                av@.len() == a@.len(),
                blocks_view(av@) == a@,
                blocks_view(bv@) == b@,
                a.wf(p),
                b.wf(p),
                add_possible(a@, b@, self@.max_degree),
                self@.max_degree < p.total(),
                blocks@.len() == i,
                forall|j: int|
                    0 <= j < i ==> {
                        &&& (#[trigger] blocks@[j])@.wf(p)
                        &&& blocks@[j]@.value == a@[j].value + b@[j].value
                        &&& blocks@[j]@.degree == a@[j].degree + b@[j].degree
                        &&& blocks@[j]@.depth == deeper(a@[j].depth, b@[j].depth)
                    },
            decreases av@.len() - i,
        {
            proof {
                assert(a@[i as int].wf(p) && b@[i as int].wf(p));
                assert(a@[i as int].degree + b@[i as int].degree <= self@.max_degree);
                lemma_small_mod(a@[i as int].value + b@[i as int].value, p.total());
            }
            let sum = self.as_shortint().unchecked_add(&av[i], &bv[i]);
            blocks.push(sum);
            i = i + 1;
        }
        let r = RadixCiphertext::wrap(blocks);
        proof {
            assert forall|j: int| 0 <= j < r@.len() implies (#[trigger] r@[j]).degree
                <= self@.max_degree by {
                assert(a@[j].degree + b@[j].degree <= self@.max_degree);
            }
            lemma_radix_value_add(a.digits(), b.digits(), r.digits(), p.message_modulus.0 as nat);
        }
        r
    }

    /// Adds two radix integers digit by digit where the degree budget
    /// allows it, and returns `CarryFull` where it does not.
    pub fn checked_add(&self, a: &RadixCiphertext, b: &RadixCiphertext) -> (r: Result<
        RadixCiphertext,
        CheckError,
    >)
        requires
            self.wf(),
            a.wf(self@.parameters),
            b.wf(self@.parameters),
            a@.len() == b@.len(),
        ensures
            r.is_ok() == add_possible(a@, b@, self@.max_degree),
            r matches Err(e) ==> e == CheckError::CarryFull,
            r matches Ok(ct) ==> {
                &&& ct.wf(self@.parameters)
                &&& is_digitwise_sum(ct@, a@, b@)
                &&& within_budget(ct@, self@.max_degree)
                &&& radix_value(ct.digits(), self@.parameters.message_modulus.0 as nat)
                    == radix_value(a.digits(), self@.parameters.message_modulus.0 as nat)
                    + radix_value(b.digits(), self@.parameters.message_modulus.0 as nat)
            },
    {
        if self.is_add_possible(a, b) {
            Ok(self.unchecked_add(a, b))
        } else {
            Err(CheckError::CarryFull)
        }
    }

    /// Propagates the carries, from the first digit that may hold one up to
    /// the topmost digit, one digit after the other. Each digit is split by
    /// two table lookups into the digit proper, which stays, and its
    /// carries, which are added to the next digit. A clean integer is left
    /// as it is.
    pub fn full_propagate(&self, ct: &mut RadixCiphertext, meter: &mut WorkMeter)
        requires
            self.wf(),
            old(ct).wf(self@.parameters),
            within_budget(old(ct)@, self@.max_degree),
        ensures
            is_propagated(final(ct)@, old(ct)@, self@.parameters),
            is_clean(final(ct)@, self@.parameters),
            within_budget(final(ct)@, self@.max_degree),
            is_clean(old(ct)@, self@.parameters) ==> final(ct)@ == old(ct)@,
            depth_within(
                final(ct)@,
                deepest(old(ct)@) + propagation_rounds(
                    digit_degrees(old(ct)@),
                    self@.parameters,
                ),
            ),
            *final(meter) == old(meter).advance(
                propagation_cost(digit_degrees(old(ct)@), self@.parameters),
            ),
    {
        let p = self.parameters();
        let key = self.as_shortint();
        let mut blocks = ct.to_blocks();
        let n = blocks.len();
        let ghost before = ct@;
        let ghost deep = deepest(before);
        let ghost degrees = digit_degrees(before);
        let ghost meter0 = *meter;
        let ghost base = p.message_modulus.0 as nat;
        let ghost modulus = pow(base as int, n as nat) as nat;
        proof {
            p.lemma_bounds();
            lemma_pow_positive(base as int, n as nat);
        }
        let mut start: usize = 0;
        while start < n && blocks[start].degree().0 < p.message_modulus.0
            invariant
                start <= n,
                n == blocks@.len(),
                blocks_view(blocks@) == before,
                degrees == digit_degrees(before),
                first_dirty(degrees, p, start as nat) == first_dirty(degrees, p, 0),
                forall|j: int| 0 <= j < start ==> (#[trigger] before[j]).degree < p.message_modulus.0,
            decreases n - start,
        {
            proof {
                assert(degrees[start as int] == before[start as int].degree);
            }
            start = start + 1;
        }
        proof {
            if start < n {
                assert(degrees[start as int] == before[start as int].degree);
                assert(before[start as int].degree >= p.message_modulus.0);
            }
            assert(first_dirty(degrees, p, 0) == start);
            assert forall|j: int| 0 <= j < n implies (#[trigger] blocks@[j])@.wf(p) by {
                assert(before[j].wf(p));
            }
            lemma_deepest(before);
            assert forall|j: int| 0 <= j < n implies (#[trigger] blocks@[j])@.depth <= deep by {
                assert(before[j].depth <= deep);
            }
        }
        if start < n {
            let message_table = self.table(DigitFunction::Message);
            let carry_table = self.table(DigitFunction::Carry);
            let mut i: usize = start;
            while i < n
                invariant
                    self.wf(),
                    p == self@.parameters,
                    *key == self.digit_key(),
                    key@ == self@,
                    start <= i <= n,
                    start < n,
                    n == blocks@.len(),
                    n == before.len(),
                    base == p.message_modulus.0,
                    modulus == pow(base as int, n as nat),
                    modulus > 0,
                    blocks_wf(before, p),
                    within_budget(before, self@.max_degree),
                    table_of(message_table, DigitFunction::Message, p),
                    table_of(carry_table, DigitFunction::Carry, p),
                    forall|j: int| 0 <= j < n ==> (#[trigger] blocks@[j])@.wf(p),
                    forall|j: int| 0 <= j < start ==> (#[trigger] blocks@[j])@ == before[j],
                    forall|j: int| start <= j < i ==> (#[trigger] blocks@[j])@.degree == base - 1,
                    forall|j: int| i < j < n ==> (#[trigger] blocks@[j])@ == before[j],
                    depth_within(before, deep),
                    forall|j: int|
                        0 <= j < n ==> (#[trigger] blocks@[j])@.depth <= deep + (if j < start {
                            0
                        } else if j < i {
                            j - start + 1
                        } else if j == i {
                            i - start
                        } else {
                            0
                        }),
                    radix_value(digit_values(blocks_view(blocks@)), base) % modulus == radix_value(
                        digit_values(before),
                        base,
                    ) % modulus,
                    *meter == meter0.advance(
                        if i == n {
                            (2 * (n - start) - 1) as nat
                        } else {
                            (2 * (i - start)) as nat
                        },
                    ),
                decreases n - i,
            {
                let block = blocks[i];
                let ghost d = digit_values(blocks_view(blocks@));
                proof {
                    p.lemma_bounds();
                    assert(blocks@[i as int]@.wf(p));
                }
                let low = key.apply_lookup_table(&block, &message_table, meter);
                if i + 1 < n {
                    let carry = key.apply_lookup_table(&block, &carry_table, meter);
                    proof {
                        assert(blocks@[i + 1]@ == before[i + 1]);
                        assert(before[i + 1].wf(p));
                        assert(before[i + 1].degree <= self@.max_degree);
                        lemma_small_mod(before[i + 1].value + carry@.value, p.total());
                    }
                    let next = key.unchecked_add(&blocks[i + 1], &carry);
                    blocks.set(i + 1, next);
                    blocks.set(i, low);
                    proof {
                        lemma_carry_step(d, i as int, base);
                        assert(digit_values(blocks_view(blocks@)) =~= d.update(
                            i as int,
                            d[i as int] % base,
                        ).update(i + 1, d[i + 1] + d[i as int] / base));
                    }
                } else {
                    blocks.set(i, low);
                    proof {
                        lemma_carry_drop(d, base);
                        assert(digit_values(blocks_view(blocks@)) =~= d.update(
                            i as int,
                            d[i as int] % base,
                        ));
                    }
                }
                i = i + 1;
            }
        }
        proof {
            let after = blocks_view(blocks@);
            let f = digit_values(after);
            assert forall|j: int| 0 <= j < f.len() implies #[trigger] f[j] < base by {
                assert(blocks@[j]@.wf(p));
                if j < start {
                    assert(blocks@[j]@ == before[j]);
                    assert(before[j].degree < base);
                }
            }
            lemma_radix_value_bound(f, base);
            lemma_small_mod(radix_value(f, base), modulus);
            lemma_radix_digits_of_value(f, radix_value(digit_values(before), base), base);
            assert(digit_degrees(after) =~= propagated_degrees(degrees, p));
            assert forall|j: int| 0 <= j < after.len() implies (#[trigger] after[j]).wf(p) by {
                assert(blocks@[j]@.wf(p));
            }
            if is_clean(before, p) {
                if start < n {
                    assert(before[start as int].degree < base);
                }
                assert(after =~= before);
            }
            lemma_propagated(after, before, p);
            lemma_clean_budget(after, p, self@.max_degree);
            assert forall|j: int| 0 <= j < after.len() implies (#[trigger] after[j]).depth <= deep
                + (n - start) by {
                assert(blocks@[j]@.depth <= deep + (n - start));
            }
        }
        ct.replace_blocks(blocks);
    }

    /// Adds two radix integers and propagates the carries: the result is
    /// clean and encodes the sum modulo `message_modulus^n`. Where the
    /// degrees of the operands do not allow the digit-wise addition, copies
    /// of the operands are propagated first.
    pub fn add(&self, a: &RadixCiphertext, b: &RadixCiphertext, meter: &mut WorkMeter) -> (r:
        RadixCiphertext)
        requires
            self.wf(),
            a.wf(self@.parameters),
            b.wf(self@.parameters),
            a@.len() == b@.len(),
            within_budget(a@, self@.max_degree),
            within_budget(b@, self@.max_degree),
        ensures
            is_sum(r@, a@, b@, self@.parameters),
            within_budget(r@, self@.max_degree),
            radix_plaintext(r@, self@.parameters) == (radix_plaintext(a@, self@.parameters)
                + radix_plaintext(b@, self@.parameters)) % radix_modulus(
                self@.parameters,
                a@.len(),
            ),
            digit_degrees(r@) == add_degrees(
                digit_degrees(a@),
                digit_degrees(b@),
                self@.parameters,
                self@.max_degree,
            ),
            depth_within(
                r@,
                add_depth(
                    deepest(a@),
                    deepest(b@),
                    digit_degrees(a@),
                    digit_degrees(b@),
                    self@.parameters,
                    self@.max_degree,
                ),
            ),
            *final(meter) == old(meter).advance(
                add_cost(
                    digit_degrees(a@),
                    digit_degrees(b@),
                    self@.parameters,
                    self@.max_degree,
                ),
            ),
    {
        let ghost p = self@.parameters;
        let ghost base = p.message_modulus.0 as nat;
        let ghost n = a@.len();
        let ghost va = radix_value(a.digits(), base);
        let ghost vb = radix_value(b.digits(), base);
        proof {
            p.lemma_bounds();
            lemma_pow_positive(base as int, n);
            lemma_add_possible_by_degrees(a@, b@, self@.max_degree);
        }
        if self.is_add_possible(a, b) {
            let mut sum = self.unchecked_add(a, b);
            let ghost raw = sum@;
            proof {
                assert(digit_degrees(raw) =~= added_degrees(digit_degrees(a@), digit_degrees(b@)));
                lemma_deepest(a@);
                lemma_deepest(b@);
                lemma_sum_depth(raw, a@, b@, deepest(a@), deepest(b@));
            }
            self.full_propagate(&mut sum, meter);
            proof {
                lemma_propagated(sum@, raw, p);
                lemma_clean_budget(sum@, p, self@.max_degree);
                lemma_plaintext_of_sum(va, vb, base, n);
            }
            sum
        } else {
            let mut ca = a.duplicate();
            let mut cb = b.duplicate();
            self.full_propagate(&mut ca, meter);
            self.full_propagate(&mut cb, meter);
            proof {
                lemma_propagated(ca@, a@, p);
                lemma_propagated(cb@, b@, p);
                assert forall|i: int| 0 <= i < n implies (#[trigger] ca@[i]).degree + (
                #[trigger] cb@[i]).degree <= self@.max_degree by {
                    assert(ca@[i].degree < base && cb@[i].degree < base);
                }
            }
            let mut sum = self.unchecked_add(&ca, &cb);
            let ghost raw = sum@;
            proof {
                assert(digit_degrees(raw) =~= added_degrees(
                    propagated_degrees(digit_degrees(a@), p),
                    propagated_degrees(digit_degrees(b@), p),
                ));
                lemma_sum_depth(
                    raw,
                    ca@,
                    cb@,
                    deepest(a@) + propagation_rounds(digit_degrees(a@), p),
                    deepest(b@) + propagation_rounds(digit_degrees(b@), p),
                );
            }
            self.full_propagate(&mut sum, meter);
            proof {
                lemma_propagated(sum@, raw, p);
                lemma_clean_budget(sum@, p, self@.max_degree);
                lemma_plaintext_of_sum(va, vb, base, n);
                let m = pow(base as int, n) as nat;
                lemma_add_mod_noop(va as int, vb as int, m as int);
                lemma_mod_twice((va % m + vb % m) as int, m as int);
                lemma_radix_digits_congruent(va % m + vb % m, va + vb, base, n);
            }
            sum
        }
    }
}

/// The digits encode `message`: they are its lowest digits.
pub open spec fn encrypts(blocks: Seq<DigitView>, message: nat, p: Parameters) -> bool {
    &&& blocks_wf(blocks, p)
    &&& digit_values(blocks) == radix_digits(message, p.message_modulus.0 as nat, blocks.len())
}

/// Digits that encode `message` decrypt to `message` modulo
/// `message_modulus^n`.
pub proof fn lemma_encrypts(blocks: Seq<DigitView>, message: nat, p: Parameters)
    requires
        p.wf(),
        encrypts(blocks, message, p),
    ensures
        radix_value(digit_values(blocks), p.message_modulus.0 as nat) == message % radix_modulus(
            p,
            blocks.len(),
        ),
        radix_plaintext(blocks, p) == message % radix_modulus(p, blocks.len()),
{
    let base = p.message_modulus.0 as nat;
    lemma_radix_digits_value(message, base, blocks.len());
    lemma_mod_twice(message as int, pow(base as int, blocks.len()));
}

/// Addition is addition modulo `message_modulus^n`: where `a` encodes `x`
/// and `b` encodes `y`, their clean sum decrypts to
/// `(x + y) % message_modulus^n`.
pub proof fn lemma_add_decrypts_to_sum(
    p: Parameters,
    x: nat,
    y: nat,
    a: Seq<DigitView>,
    b: Seq<DigitView>,
    sum: Seq<DigitView>,
)
    requires
        p.wf(),
        a.len() == b.len(),
        encrypts(a, x, p),
        encrypts(b, y, p),
        is_sum(sum, a, b, p),
    ensures
        radix_plaintext(sum, p) == (x + y) % radix_modulus(p, a.len()),
{
    let base = p.message_modulus.0 as nat;
    let n = a.len();
    let m = pow(base as int, n);
    lemma_pow_positive(base as int, n);
    lemma_encrypts(a, x, p);
    lemma_encrypts(b, y, p);
    let va = radix_value(digit_values(a), base);
    let vb = radix_value(digit_values(b), base);
    lemma_radix_digits_value(va + vb, base, n);
    lemma_mod_twice((va + vb) as int, m);
    lemma_add_mod_noop(x as int, y as int, m);
}

/// Carry propagation is idempotent: propagating a clean integer changes
/// neither a plaintext nor a degree, and takes no table lookup.
pub proof fn lemma_propagation_idempotent(
    after: Seq<DigitView>,
    before: Seq<DigitView>,
    p: Parameters,
)
    requires
        p.wf(),
        blocks_wf(before, p),
        is_clean(before, p),
        is_propagated(after, before, p),
    ensures
        digit_values(after) == digit_values(before),
        digit_degrees(after) == digit_degrees(before),
        propagation_cost(digit_degrees(before), p) == 0,
{
    let base = p.message_modulus.0 as nat;
    let dd = digit_degrees(before);
    lemma_first_dirty(dd, p, 0);
    let s = first_dirty(dd, p, 0);
    if s < dd.len() {
        assert(dd[s as int] == before[s as int].degree);
    }
    lemma_clean_digits(before, p);
    lemma_radix_digits_congruent(
        radix_value(digit_values(before), base),
        radix_plaintext(before, p),
        base,
        before.len(),
    );
    assert forall|i: int| 0 <= i < before.len() implies digit_degrees(after)[i] == dd[i] by {
        assert(propagated_degrees(dd, p)[i] == dd[i]);
    }
    assert(digit_degrees(after) =~= dd);
}

/// A clean integer lies inside the degree budget.
pub proof fn lemma_clean_budget(blocks: Seq<DigitView>, p: Parameters, max_degree: nat)
    requires
        p.wf(),
        is_clean(blocks, p),
        max_degree == p.max_degree(),
    ensures
        within_budget(blocks, max_degree),
{
    p.lemma_bounds();
    assert forall|i: int| 0 <= i < blocks.len() implies (#[trigger] blocks[i]).degree
        <= max_degree by {
        assert(blocks[i].degree < p.message_modulus.0);
    }
}

/// The sum of two values modulo `base^n` is the sum of the two values
/// modulo `base^n`, modulo `base^n`.
pub proof fn lemma_plaintext_of_sum(va: nat, vb: nat, base: nat, n: nat)
    requires
        base > 0,
    ensures
        (va + vb) % (pow(base as int, n) as nat) == (va % (pow(base as int, n) as nat) + vb % (pow(
            base as int,
            n,
        ) as nat)) % (pow(base as int, n) as nat),
{
    lemma_pow_positive(base as int, n);
    lemma_add_mod_noop(va as int, vb as int, pow(base as int, n));
}

} // verus!
