//! Integers made of encrypted digits.
use crate::arithmetic::{largest, lemma_largest, lemma_largest_bounded, radix_value};
use crate::shortint::{Ciphertext, DigitView, Parameters};
use vstd::arithmetic::power::pow;
use vstd::prelude::*;

verus! {

/// Why an integer could not be made.
#[derive(Clone, Copy, Debug, PartialEq, Eq)]
pub enum MalformedInteger {
    /// An integer has at least one digit.
    NoDigits,
    /// A residue modulus has to be at least 2 and at most the message
    /// modulus.
    ModulusOutOfRange,
    /// Two residue moduli share a factor.
    ModuliNotCoprime,
    /// There is not one residue for each modulus.
    ResidueCountMismatch,
}

/// What a vector of digit ciphertexts stands for.
pub open spec fn blocks_view(blocks: Seq<Ciphertext>) -> Seq<DigitView> {
    Seq::new(blocks.len(), |i: int| blocks[i]@)
}

/// The plaintexts of the digits.
pub open spec fn digit_values(blocks: Seq<DigitView>) -> Seq<nat> {
    Seq::new(blocks.len(), |i: int| blocks[i].value)
}

/// The degrees of the digits.
pub open spec fn digit_degrees(blocks: Seq<DigitView>) -> Seq<nat> {
    Seq::new(blocks.len(), |i: int| blocks[i].degree)
}

/// The depths of the digits.
pub open spec fn digit_depths(blocks: Seq<DigitView>) -> Seq<nat> {
    Seq::new(blocks.len(), |i: int| blocks[i].depth)
}

/// No digit is deeper than `depth`.
pub open spec fn depth_within(blocks: Seq<DigitView>, depth: nat) -> bool {
    forall|i: int| 0 <= i < blocks.len() ==> (#[trigger] blocks[i]).depth <= depth
}

/// The depth of the deepest digit.
pub open spec fn deepest(blocks: Seq<DigitView>) -> nat {
    largest(digit_depths(blocks), blocks.len())
}

/// No digit is deeper than the deepest.
pub proof fn lemma_deepest(blocks: Seq<DigitView>)
    ensures
        depth_within(blocks, deepest(blocks)),
{
    assert forall|i: int| 0 <= i < blocks.len() implies (#[trigger] blocks[i]).depth <= deepest(
        blocks,
    ) by {
        lemma_largest(digit_depths(blocks), blocks.len(), i);
    }
}

/// Where no digit is deeper than `depth`, the deepest is not either.
pub proof fn lemma_deepest_within(blocks: Seq<DigitView>, depth: nat)
    requires
        depth_within(blocks, depth),
    ensures
        deepest(blocks) <= depth,
{
    assert forall|i: int| 0 <= i < blocks.len() implies #[trigger] digit_depths(blocks)[i]
        <= depth by {
        assert(blocks[i].depth <= depth);
    }
    lemma_largest_bounded(digit_depths(blocks), blocks.len(), depth);
}

/// At least one digit, and every digit belongs to the parameters `p`.
pub open spec fn blocks_wf(blocks: Seq<DigitView>, p: Parameters) -> bool {
    &&& blocks.len() >= 1
    &&& forall|i: int| 0 <= i < blocks.len() ==> (#[trigger] blocks[i]).wf(p)
}

/// No digit has a degree above `max_degree`.
pub open spec fn within_budget(blocks: Seq<DigitView>, max_degree: nat) -> bool {
    forall|i: int| 0 <= i < blocks.len() ==> (#[trigger] blocks[i]).degree <= max_degree
}

/// No digit can hold a carry: every degree lies under the message modulus.
pub open spec fn is_clean(blocks: Seq<DigitView>, p: Parameters) -> bool {
    forall|i: int| 0 <= i < blocks.len() ==> (#[trigger] blocks[i]).degree < p.message_modulus.0
}

/// The number of values of a radix integer of `n` digits:
/// `message_modulus^n`.
pub open spec fn radix_modulus(p: Parameters, n: nat) -> nat {
    pow(p.message_modulus.0 as int, n) as nat
}

/// The integer that the digits encode: their worth in the base
/// `message_modulus`, modulo `message_modulus^n`.
pub open spec fn radix_plaintext(blocks: Seq<DigitView>, p: Parameters) -> nat {
    radix_value(digit_values(blocks), p.message_modulus.0 as nat) % radix_modulus(p, blocks.len())
}

/// An integer in radix representation: encrypted digits in the base
/// `message_modulus`, least significant digit first. The number of digits
/// is fixed when the integer is made.
#[derive(Debug)]
pub struct RadixCiphertext {
    pub(crate) blocks: Vec<Ciphertext>,
}

impl View for RadixCiphertext {
    type V = Seq<DigitView>;

    closed spec fn view(&self) -> Seq<DigitView> {
        blocks_view(self.blocks@)
    }
}

impl RadixCiphertext {
    pub open spec fn wf(&self, p: Parameters) -> bool {
        blocks_wf(self@, p)
    }

    /// The plaintexts of the digits.
    pub open spec fn digits(&self) -> Seq<nat> {
        digit_values(self@)
    }

    /// An integer from its digits, least significant first: `NoDigits` for
    /// an empty vector.
    pub fn from_blocks(blocks: Vec<Ciphertext>) -> (r: Result<RadixCiphertext, MalformedInteger>)
        ensures
            r.is_ok() == (blocks@.len() >= 1),
            r matches Ok(ct) ==> ct@ == blocks_view(blocks@),
            r matches Err(e) ==> e == MalformedInteger::NoDigits,
    {
        if blocks.len() == 0 {
            Err(MalformedInteger::NoDigits)
        } else {
            Ok(RadixCiphertext { blocks })
        }
    }

    /// The number of digits.
    pub fn len(&self) -> (n: usize)
        ensures
            n == self@.len(),
    {
        self.blocks.len()
    }

    /// The digits, least significant first.
    pub fn blocks(&self) -> (b: &Vec<Ciphertext>)
        ensures
            blocks_view(b@) == self@,
            b@.len() == self@.len(),
    {
        &self.blocks
    }

    /// A copy of the digits.
    pub fn to_blocks(&self) -> (b: Vec<Ciphertext>)
        ensures
            blocks_view(b@) == self@,
            b@.len() == self@.len(),
    {
        copy_blocks(&self.blocks)
    }

    /// A copy of the integer.
    pub fn duplicate(&self) -> (r: RadixCiphertext)
        ensures
            r@ == self@,
    {
        RadixCiphertext { blocks: copy_blocks(&self.blocks) }
    }

    pub(crate) fn wrap(blocks: Vec<Ciphertext>) -> (r: RadixCiphertext)
        ensures
            r@ == blocks_view(blocks@),
    {
        RadixCiphertext { blocks }
    }

    pub(crate) fn replace_blocks(&mut self, blocks: Vec<Ciphertext>)
        ensures
            final(self)@ == blocks_view(blocks@),
    {
        self.blocks = blocks;
    }
}

/// A copy of a vector of digits.
pub fn copy_blocks(blocks: &Vec<Ciphertext>) -> (r: Vec<Ciphertext>)
    ensures
        r@ == blocks@,
{
    let mut r: Vec<Ciphertext> = Vec::new();
    let mut i: usize = 0;
    while i < blocks.len()
        invariant
            i <= blocks.len(),
            r@ == blocks@.subrange(0, i as int),
        decreases blocks.len() - i,
    {
        r.push(blocks[i]);
        assert(r@ =~= blocks@.subrange(0, i + 1));
        i = i + 1;
    }
    assert(r@ =~= blocks@);
    r
}

} // verus!
