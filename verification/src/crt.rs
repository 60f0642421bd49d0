//! Integers in residue representation.
//!
//! An integer under the product of pairwise coprime moduli is held as one
//! encrypted residue for each modulus. Addition, subtraction and
//! multiplication work on every residue by itself: no carry moves from one
//! residue to another. The order of two such integers cannot be read off
//! their residues; for that an integer is converted to radix form first.
use crate::ciphertext::{blocks_view, within_budget, MalformedInteger};
use crate::client_key::ClientKey;
use crate::number_theory::{
    all_at_least, lemma_divides_combination, coprime, is_crt_solution, lemma_crt_step, lemma_crt_unique,
    lemma_product_coprime_to, lemma_product_multiple, lemma_product_prefix, lemma_product_zero,
    pairwise_coprime,
    product,
};
use crate::radix::{add_possible, is_digitwise_sum};
use crate::server_key::ServerKey;
use crate::shortint::{
    deeper, one_deeper, CheckError, Ciphertext, DigitView, Parameters, WorkMeter,
};
use crate::tables::{lemma_unpack, DigitFunction};
use vstd::arithmetic::div_mod::*;
use vstd::prelude::*;

verus! {

/// The moduli as numbers.
pub open spec fn moduli_view(moduli: Seq<u64>) -> Seq<nat> {
    Seq::new(moduli.len(), |i: int| moduli[i] as nat)
}

/// Every modulus lies between 2 and the message modulus.
pub open spec fn moduli_in_range(moduli: Seq<nat>, p: Parameters) -> bool {
    forall|i: int| 0 <= i < moduli.len() ==> 2 <= #[trigger] moduli[i] <= p.message_modulus.0
}

/// Moduli of an integer: at least one, each between 2 and the message
/// modulus, and every two of them coprime.
pub open spec fn moduli_wf(moduli: Seq<nat>, p: Parameters) -> bool {
    &&& moduli.len() >= 1
    &&& moduli_in_range(moduli, p)
    &&& pairwise_coprime(moduli)
}

/// The residues that digits hold, each modulo its modulus.
pub open spec fn residues_of(blocks: Seq<DigitView>, moduli: Seq<nat>) -> Seq<nat> {
    Seq::new(
        blocks.len(),
        |i: int|
            if moduli[i] > 0 {
                blocks[i].value % moduli[i]
            } else {
                0
            },
    )
}

/// What an integer in residue representation stands for: one digit for
/// each modulus.
pub struct CrtView {
    pub blocks: Seq<DigitView>,
    pub moduli: Seq<nat>,
}

impl CrtView {
    pub open spec fn wf(self, p: Parameters) -> bool {
        &&& self.blocks.len() == self.moduli.len()
        &&& moduli_wf(self.moduli, p)
        &&& forall|i: int| 0 <= i < self.blocks.len() ==> (#[trigger] self.blocks[i]).wf(p)
    }

    /// The residues that the digits hold.
    pub open spec fn residues(self) -> Seq<nat> {
        residues_of(self.blocks, self.moduli)
    }

    /// The number of values of the integer: the product of the moduli.
    pub open spec fn modulus(self) -> nat {
        product(self.moduli)
    }

    /// The digits hold the residues of `x`.
    pub open spec fn encodes(self, x: nat) -> bool {
        forall|i: int|
            0 <= i < self.blocks.len() ==> (#[trigger] self.blocks[i]).value % self.moduli[i] == x
                % self.moduli[i]
    }

    /// Every digit is a residue: its degree lies under its modulus.
    pub open spec fn is_reduced(self) -> bool {
        forall|i: int|
            0 <= i < self.blocks.len() ==> (#[trigger] self.blocks[i]).degree < self.moduli[i]
    }
}

/// An integer in residue representation. The moduli are fixed when the
/// integer is made.
#[derive(Debug)]
pub struct CrtCiphertext {
    blocks: Vec<Ciphertext>,
    moduli: Vec<u64>,
}

impl View for CrtCiphertext {
    type V = CrtView;

    closed spec fn view(&self) -> CrtView {
        CrtView { blocks: blocks_view(self.blocks@), moduli: moduli_view(self.moduli@) }
    }
}

/// An integer under the product of the moduli is the only one with its
/// residues: what encodes `x` decrypts to `x`.
pub proof fn lemma_crt_round_trip(ct: CrtView, p: Parameters, x: nat, decrypted: nat)
    requires
        ct.wf(p),
        x < ct.modulus(),
        ct.encodes(x),
        is_crt_solution(decrypted, ct.residues(), ct.moduli),
    ensures
        decrypted == x,
{
    assert(ct.blocks.len() == ct.moduli.len());
    assert(ct.residues().len() == ct.blocks.len());
    assert forall|i: int| 0 <= i < ct.moduli.len() implies decrypted % #[trigger] ct.moduli[i] == x
        % ct.moduli[i] by {
        assert(ct.residues()[i] == ct.blocks[i].value % ct.moduli[i]);
        assert(ct.blocks[i].wf(p));
    }
    assert forall|i: int| 0 <= i < ct.moduli.len() implies #[trigger] ct.moduli[i] >= 1 by {
        assert(2 <= ct.moduli[i]);
    }
    lemma_crt_unique(decrypted, x, ct.moduli);
}

/// What an integer in residue representation decrypts to: where the digits
/// hold the residues of `z`, the number under the product of the moduli
/// with those residues is `z` modulo that product.
pub proof fn lemma_crt_decrypts_modulo(ct: CrtView, p: Parameters, z: nat, decrypted: nat)
    requires
        ct.wf(p),
        ct.encodes(z),
        is_crt_solution(decrypted, ct.residues(), ct.moduli),
    ensures
        ct.modulus() >= 1,
        decrypted == z % ct.modulus(),
{
    let mv = ct.moduli;
    let big = product(mv);
    assert(ct.blocks.len() == mv.len());
    assert(ct.residues().len() == ct.blocks.len());
    assert forall|i: int| 0 <= i < mv.len() implies #[trigger] mv[i] >= 1 by {
        assert(2 <= mv[i]);
    }
    lemma_product_prefix(mv, 0, mv.len() as int);
    assert(mv.take(mv.len() as int) =~= mv);
    lemma_mod_bound(z as int, big as int);
    let reduced = z % big;
    assert forall|i: int| 0 <= i < mv.len() implies decrypted % #[trigger] mv[i] == reduced
        % mv[i] by {
        assert(ct.residues()[i] == ct.blocks[i].value % mv[i]);
        assert(ct.blocks[i].wf(p));
        assert(2 <= mv[i]);
        lemma_product_multiple(mv, mv.len() as int, i);
        let m = mv[i] as int;
        let q = (big as int) / m;
        lemma_fundamental_div_mod(big as int, m);
        assert(big == m * q);
        if q <= 0 {
            assert(m * q <= 0) by (nonlinear_arith)
                requires
                    m >= 1,
                    q <= 0,
            ;
        }
        lemma_mod_mod(z as int, m, q);
    }
    lemma_crt_unique(decrypted, reduced, mv);
}

/// Whether no number above 1 divides both `a` and `b`, by trial up to the
/// smaller of the two.
pub fn is_coprime(a: u64, b: u64) -> (r: bool)
    ensures
        r == coprime(a as nat, b as nat),
{
    if a == 0 || b == 0 {
        // what divides the other number divides both
        let other: u64 = if a == 0 {
            b
        } else {
            a
        };
        proof {
            if other == 1 {
                assert forall|e: nat| e >= 2 implies !(#[trigger] ((a as nat) % e) == 0 && (
                b as nat) % e == 0) by {
                    lemma_small_mod(1, e);
                }
            } else if other == 0 {
                assert((a as nat) % 2 == 0 && (b as nat) % 2 == 0);
            } else {
                lemma_mod_self_0(other as int);
                lemma_small_mod(0, other as nat);
                assert((a as nat) % (other as nat) == 0 && (b as nat) % (other as nat) == 0);
            }
        }
        return other == 1;
    }
    let small: u64 = if a <= b {
        a
    } else {
        b
    };
    let mut d: u64 = 2;
    while d < small
        invariant
            1 <= small,
            small == a || small == b,
            2 <= d,
            d <= small || small == 1,
            forall|e: nat| 2 <= e < d ==> !(#[trigger] ((a as nat) % e) == 0 && (b as nat) % e == 0),
        decreases small - d,
    {
        if a % d == 0 && b % d == 0 {
            assert((a as nat) % (d as nat) == 0 && (b as nat) % (d as nat) == 0);
            return false;
        }
        d = d + 1;
    }
    if small >= 2 && a % small == 0 && b % small == 0 {
        assert((a as nat) % (small as nat) == 0 && (b as nat) % (small as nat) == 0);
        return false;
    }
    proof {
        assert forall|e: nat| e >= 2 implies !(#[trigger] ((a as nat) % e) == 0 && (b as nat) % e
            == 0) by {
            if e > small {
                lemma_small_mod(small as nat, e);
            }
        }
    }
    true
}

/// The error that moduli which are not well-formed are refused with:
/// `NoDigits` for no modulus; otherwise `ModulusOutOfRange` where a modulus
/// lies under 2 or above the message modulus; otherwise `ModuliNotCoprime`.
pub open spec fn moduli_error(moduli: Seq<nat>, p: Parameters) -> MalformedInteger {
    if moduli.len() == 0 {
        MalformedInteger::NoDigits
    } else if !moduli_in_range(moduli, p) {
        MalformedInteger::ModulusOutOfRange
    } else {
        MalformedInteger::ModuliNotCoprime
    }
}

/// Checks the moduli of an integer. `NoDigits` is returned for no modulus;
/// otherwise `ModulusOutOfRange` where a modulus lies under 2 or above the
/// message modulus; otherwise `ModuliNotCoprime` where two moduli share a
/// factor.
pub fn check_moduli(moduli: &Vec<u64>, p: Parameters) -> (r: Result<(), MalformedInteger>)
    ensures
        r.is_ok() == moduli_wf(moduli_view(moduli@), p),
        r matches Err(e) ==> e == moduli_error(moduli_view(moduli@), p),
{
    let ghost mv = moduli_view(moduli@);
    let n = moduli.len();
    if n == 0 {
        return Err(MalformedInteger::NoDigits);
    }
    let mut i: usize = 0;
    while i < n
        invariant
            i <= n,
            n == moduli@.len(),
            mv == moduli_view(moduli@),
            forall|k: int| 0 <= k < i ==> 2 <= #[trigger] mv[k] <= p.message_modulus.0,
        decreases n - i,
    {
        if moduli[i] < 2 || moduli[i] > p.message_modulus.0 {
            assert(!(2 <= mv[i as int] <= p.message_modulus.0));
            return Err(MalformedInteger::ModulusOutOfRange);
        }
        i = i + 1;
    }
    let mut j: usize = 1;
    while j < n
        invariant
            1 <= j <= n,
            n == moduli@.len(),
            mv == moduli_view(moduli@),
            moduli_in_range(mv, p),
            forall|a: int, b: int| 0 <= a < b < j ==> coprime(#[trigger] mv[a], #[trigger] mv[b]),
        decreases n - j,
    {
        let mut k: usize = 0;
        while k < j
            invariant
                k <= j < n,
                n == moduli@.len(),
                mv == moduli_view(moduli@),
                moduli_in_range(mv, p),
                forall|a: int| 0 <= a < k ==> coprime(#[trigger] mv[a], mv[j as int]),
            decreases j - k,
        {
            proof {
                assert(2 <= mv[k as int]);
            }
            if !is_coprime(moduli[k], moduli[j]) {
                assert(!coprime(mv[k as int], mv[j as int]));
                return Err(MalformedInteger::ModuliNotCoprime);
            }
            k = k + 1;
        }
        j = j + 1;
    }
    Ok(())
}

impl CrtCiphertext {
    pub open spec fn wf(&self, p: Parameters) -> bool {
        self@.wf(p)
    }

    /// The number of residues.
    pub fn len(&self) -> (n: usize)
        ensures
            n == self@.blocks.len(),
    {
        self.blocks.len()
    }

    /// The encrypted residues, in the order of the moduli.
    pub fn blocks(&self) -> (b: &Vec<Ciphertext>)
        ensures
            blocks_view(b@) == self@.blocks,
            b@.len() == self@.blocks.len(),
    {
        &self.blocks
    }

    /// The moduli.
    pub fn moduli(&self) -> (m: &Vec<u64>)
        ensures
            moduli_view(m@) == self@.moduli,
            m@.len() == self@.moduli.len(),
    {
        &self.moduli
    }

    /// A copy of the integer.
    pub fn duplicate(&self) -> (r: CrtCiphertext)
        ensures
            r@ == self@,
    {
        CrtCiphertext {
            blocks: crate::ciphertext::copy_blocks(&self.blocks),
            moduli: copy_moduli(&self.moduli),
        }
    }

    /// An integer from its encrypted residues and their moduli. The moduli
    /// are checked as by `check_moduli`; well-formed moduli are refused
    /// with `ResidueCountMismatch` where there is not one residue for each
    /// of them.
    pub fn from_blocks(blocks: Vec<Ciphertext>, moduli: Vec<u64>, p: Parameters) -> (r: Result<
        CrtCiphertext,
        MalformedInteger,
    >)
        ensures
            r.is_ok() == (moduli_wf(moduli_view(moduli@), p) && blocks@.len() == moduli@.len()),
            r matches Ok(ct) ==> ct@.blocks == blocks_view(blocks@) && ct@.moduli == moduli_view(
                moduli@,
            ),
            r matches Err(e) ==> e == (if moduli_wf(moduli_view(moduli@), p) {
                MalformedInteger::ResidueCountMismatch
            } else {
                moduli_error(moduli_view(moduli@), p)
            }),
    {
        match check_moduli(&moduli, p) {
            Err(e) => Err(e),
            Ok(_) => {
                if blocks.len() != moduli.len() {
                    Err(MalformedInteger::ResidueCountMismatch)
                } else {
                    Ok(CrtCiphertext { blocks, moduli })
                }
            },
        }
    }

    pub(crate) fn wrap(blocks: Vec<Ciphertext>, moduli: Vec<u64>) -> (r: CrtCiphertext)
        ensures
            r@.blocks == blocks_view(blocks@),
            r@.moduli == moduli_view(moduli@),
    {
        CrtCiphertext { blocks, moduli }
    }
}

/// A copy of a vector of moduli.
pub fn copy_moduli(moduli: &Vec<u64>) -> (r: Vec<u64>)
    ensures
        r@ == moduli@,
{
    let mut r: Vec<u64> = Vec::new();
    let mut i: usize = 0;
    while i < moduli.len()
        invariant
            i <= moduli.len(),
            r@ == moduli@.subrange(0, i as int),
        decreases moduli.len() - i,
    {
        r.push(moduli[i]);
        assert(r@ =~= moduli@.subrange(0, i + 1));
        i = i + 1;
    }
    assert(r@ =~= moduli@);
    r
}

/// Whether the product of the moduli fits in a `u64`.
pub fn moduli_fit(moduli: &Vec<u64>) -> (fits: bool)
    ensures
        fits == (product(moduli_view(moduli@)) <= u64::MAX),
{
    let ghost mv = moduli_view(moduli@);
    let n = moduli.len();
    let mut z: usize = 0;
    while z < n
        invariant
            z <= n,
            n == moduli@.len(),
            mv == moduli_view(moduli@),
            forall|k: int| 0 <= k < z ==> #[trigger] mv[k] >= 1,
        decreases n - z,
    {
        if moduli[z] == 0 {
            proof {
                lemma_product_zero(mv, z as int);
            }
            return true;
        }
        z = z + 1;
    }
    let mut weight: u64 = 1;
    let mut i: usize = 0;
    proof {
        assert(mv.take(0) =~= Seq::<nat>::empty());
    }
    while i < n
        invariant
            i <= n,
            n == moduli@.len(),
            mv == moduli_view(moduli@),
            all_at_least(mv, 1),
            weight == product(mv.take(i as int)),
        decreases n - i,
    {
        proof {
            assert(mv.take(i + 1).drop_last() =~= mv.take(i as int));
            assert(mv.take(i + 1).last() == moduli@[i as int]);
            lemma_product_prefix(mv, i + 1, n as int);
            assert(mv.take(n as int) =~= mv);
        }
        match weight.checked_mul(moduli[i]) {
            Some(next) => {
                weight = next;
            },
            None => {
                return false;
            },
        }
        i = i + 1;
    }
    proof {
        assert(mv.take(n as int) =~= mv);
    }
    true
}

impl ClientKey {
    /// Encrypts the residues of `message`, one ciphertext for each
    /// modulus. The moduli are checked as by `check_moduli`.
    pub fn encrypt_crt(&self, message: u64, moduli: Vec<u64>) -> (r: Result<
        CrtCiphertext,
        MalformedInteger,
    >)
        requires
            self.wf(),
        ensures
            r.is_ok() == moduli_wf(moduli_view(moduli@), self@),
            r matches Err(e) ==> e == moduli_error(moduli_view(moduli@), self@),
            r matches Ok(ct) ==> {
                &&& ct.wf(self@)
                &&& ct@.moduli == moduli_view(moduli@)
                &&& ct@.encodes(message as nat)
                &&& ct@.is_reduced()
                &&& within_budget(ct@.blocks, self@.max_degree() as nat)
                &&& forall|i: int|
                    0 <= i < ct@.blocks.len() ==> {
                        &&& (#[trigger] ct@.blocks[i]).value == message as nat % ct@.moduli[i]
                        &&& ct@.blocks[i].degree == ct@.moduli[i] - 1
                    }
            },
    {
        let p = self.parameters();
        match check_moduli(&moduli, p) {
            Err(e) => {
                return Err(e);
            },
            Ok(_) => {},
        }
        let ghost mv = moduli_view(moduli@);
        let key = self.as_shortint();
        let n = moduli.len();
        let mut blocks: Vec<Ciphertext> = Vec::new();
        let mut i: usize = 0;
        proof {
            p.lemma_bounds();
        }
        while i < n
            invariant
                self.wf(),
                p == self@,
                key@ == self@,
                i <= n,
                n == moduli@.len(),
                mv == moduli_view(moduli@),
                moduli_wf(mv, p),
                blocks@.len() == i,
                forall|k: int|
                    0 <= k < i ==> {
                        &&& (#[trigger] blocks@[k])@.wf(p)
                        &&& blocks@[k]@.value == message as nat % mv[k]
                        &&& blocks@[k]@.degree == mv[k] - 1
                    },
            decreases n - i,
        {
            proof {
                assert(2 <= mv[i as int] <= p.message_modulus.0);
                assert(mv[i as int] == moduli@[i as int]);
                lemma_mod_twice(message as int, moduli@[i as int] as int);
            }
            let residue: u64 = message % moduli[i];
            let block = key.encrypt_residue(residue, moduli[i]);
            blocks.push(block);
            i = i + 1;
        }
        let ct = CrtCiphertext::wrap(blocks, moduli);
        proof {
            assert forall|k: int| 0 <= k < ct@.blocks.len() implies (#[trigger] ct@.blocks[k]).value
                % ct@.moduli[k] == message as nat % ct@.moduli[k] by {
                assert(blocks@[k]@.wf(p));
                lemma_mod_twice(message as int, mv[k] as int);
            }
            assert forall|k: int| 0 <= k < ct@.blocks.len() implies (#[trigger] ct@.blocks[k]).degree
                <= p.max_degree() by {
                assert(blocks@[k]@.wf(p));
                assert(mv[k] <= p.message_modulus.0);
            }
            assert forall|k: int| 0 <= k < ct@.blocks.len() implies (#[trigger] ct@.blocks[k]).wf(
                p,
            ) by {
                assert(blocks@[k]@.wf(p));
            }
            assert forall|k: int| 0 <= k < ct@.blocks.len() implies (#[trigger] ct@.blocks[k]).degree
                < ct@.moduli[k] by {
                assert(blocks@[k]@.wf(p));
            }
        }
        Ok(ct)
    }

    /// Decrypts an integer in residue representation: the one number under
    /// the product of the moduli that has the residues of the digits. The
    /// product has to fit in a `u64`.
    pub fn decrypt_crt(&self, ct: &CrtCiphertext) -> (x: u64)
        requires
            self.wf(),
            ct.wf(self@),
            ct@.modulus() <= u64::MAX,
        ensures
            is_crt_solution(x as nat, ct@.residues(), ct@.moduli),
    {
        let key = self.as_shortint();
        let blocks = ct.blocks();
        let moduli = ct.moduli();
        let n = moduli.len();
        let ghost mv = ct@.moduli;
        let ghost res = ct@.residues();
        let ghost p = self@;
        proof {
            assert(res.len() == ct@.blocks.len());
            assert(mv.take(0) =~= Seq::<nat>::empty());
            assert(2 <= mv[0]);
            assert forall|k: int| 0 <= k < mv.len() implies #[trigger] mv[k] >= 1 by {
                assert(2 <= mv[k]);
            }
        }
        let mut x: u64 = 0;
        let mut weight: u64 = 1;
        let mut i: usize = 0;
        while i < n
            invariant
                i <= n,
                n == moduli@.len(),
                n == blocks@.len(),
                mv == moduli_view(moduli@),
                mv == ct@.moduli,
                res == ct@.residues(),
                res.len() == n,
                blocks_view(blocks@) == ct@.blocks,
                ct.wf(p),
                all_at_least(mv, 1),
                product(mv) <= u64::MAX,
                weight == product(mv.take(i as int)),
                x < weight,
                forall|k: int| 0 <= k < i ==> (x as nat) % #[trigger] mv[k] == res[k],
            decreases n - i,
        {
            let m: u64 = moduli[i];
            proof {
                assert(2 <= mv[i as int] <= p.message_modulus.0);
                assert(mv[i as int] == moduli@[i as int]);
            }
            let value: u64 = key.decrypt_message_and_carry(&blocks[i]);
            let target: u64 = value % m;
            let ghost x0 = x;
            let ghost mut steps: nat = 0;
            let ghost limit: nat;
            proof {
                assert(ct@.blocks[i as int] == blocks@[i as int]@);
                assert(ct@.blocks.len() == n);
                assert(res[i as int] == ct@.blocks[i as int].value % ct@.moduli[i as int]);
                lemma_product_prefix(mv, i as int, i + 1);
                lemma_product_prefix(mv, i + 1, n as int);
                assert(mv.take(n as int) =~= mv);
                assert(mv.take(i + 1).drop_last() =~= mv.take(i as int));
                lemma_product_coprime_to(mv, i as int, i as int);
                limit = lemma_crt_step(x as nat, weight as nat, m as nat, target as nat);
                assert(limit * weight <= (m - 1) * weight) by (nonlinear_arith)
                    requires
                        limit <= m - 1,
                        weight >= 0,
                ;
                assert(0 * weight == 0) by (nonlinear_arith);
            }
            while x % m != target
                invariant
                    m == mv[i as int],
                    m >= 2,
                    mv == ct@.moduli,
                    all_at_least(mv, 1),
                    i < n,
                    n == mv.len(),
                    res.len() == n,
                    weight == product(mv.take(i as int)),
                    weight >= 1,
                    x == x0 + steps * weight,
                    steps <= limit < m,
                    (x0 + limit * weight) % (m as int) == target,
                    x0 < weight,
                    weight * m == product(mv.take(i + 1)),
                    product(mv.take(i + 1)) <= u64::MAX,
                    forall|k: int| 0 <= k < i ==> (x as nat) % #[trigger] mv[k] == res[k],
                decreases limit - steps,
            {
                proof {
                    assert(steps < limit);
                    assert((steps + 1) * weight == steps * weight + weight) by (nonlinear_arith);
                    assert((steps + 1) * weight <= (m - 1) * weight) by (nonlinear_arith)
                        requires
                            steps + 1 <= m - 1,
                            weight >= 0,
                    ;
                    assert((m - 1) * weight + weight == weight * m) by (nonlinear_arith);
                    assert forall|k: int| 0 <= k < i implies ((x + weight) as nat) % #[trigger] mv[k]
                        == res[k] by {
                        lemma_product_multiple(mv, i as int, k);
                        lemma_fundamental_div_mod(weight as int, mv[k] as int);
                        lemma_mod_multiples_vanish(
                            weight as int / mv[k] as int,
                            x as int,
                            mv[k] as int,
                        );
                    }
                    steps = steps + 1;
                }
                x = x + weight;
            }
            proof {
                assert(steps * weight <= (m - 1) * weight) by (nonlinear_arith)
                    requires
                        steps <= m - 1,
                        weight >= 0,
                ;
                assert((m - 1) * weight + weight == weight * m) by (nonlinear_arith);
            }
            weight = weight * m;
            i = i + 1;
        }
        proof {
            assert(mv.take(n as int) =~= mv);
        }
        x
    }
}

impl ServerKey {
    /// Whether every pair of residues can be added inside the degree
    /// budget.
    pub fn is_crt_add_possible(&self, a: &CrtCiphertext, b: &CrtCiphertext) -> (possible: bool)
        requires
            a@.blocks.len() == b@.blocks.len(),
        ensures
            possible == add_possible(a@.blocks, b@.blocks, self@.max_degree),
    {
        let av = a.blocks();
        let bv = b.blocks();
        let mut i: usize = 0;
        while i < av.len()
            invariant
                i <= av@.len(),
                av@.len() == bv@.len(),
                av@.len() == a@.blocks.len(),
                blocks_view(av@) == a@.blocks,
                blocks_view(bv@) == b@.blocks,
                forall|j: int|
                    0 <= j < i ==> (#[trigger] a@.blocks[j]).degree + (#[trigger] b@.blocks[j]).degree
                        <= self@.max_degree,
            decreases av@.len() - i,
        {
            if !self.as_shortint().is_add_possible(&av[i], &bv[i]) {
                assert(a@.blocks[i as int].degree + b@.blocks[i as int].degree > self@.max_degree);
                return false;
            }
            i = i + 1;
        }
        true
    }

    /// Adds two integers residue by residue, without a check. The caller
    /// answers for the degree budget.
    pub fn unchecked_crt_add(&self, a: &CrtCiphertext, b: &CrtCiphertext) -> (r: CrtCiphertext)
        requires
            self.wf(),
            a.wf(self@.parameters),
            b.wf(self@.parameters),
            a@.moduli == b@.moduli,
            add_possible(a@.blocks, b@.blocks, self@.max_degree),
        ensures
            r.wf(self@.parameters),
            r@.moduli == a@.moduli,
            is_digitwise_sum(r@.blocks, a@.blocks, b@.blocks),
            within_budget(r@.blocks, self@.max_degree),
    {
        let av = a.blocks();
        let bv = b.blocks();
        let ghost p = self@.parameters;
        let mut blocks: Vec<Ciphertext> = Vec::new();
        let mut i: usize = 0;
        proof {
            p.lemma_bounds();
        }
        while i < av.len()
            invariant
                self.wf(),
                p == self@.parameters,
                i <= av@.len(),
                av@.len() == bv@.len(),
                av@.len() == a@.blocks.len(),
                blocks_view(av@) == a@.blocks,
                blocks_view(bv@) == b@.blocks,
                a.wf(p),
                b.wf(p),
                add_possible(a@.blocks, b@.blocks, self@.max_degree),
                self@.max_degree < p.total(),
                blocks@.len() == i,
                forall|j: int|
                    0 <= j < i ==> {
                        &&& (#[trigger] blocks@[j])@.wf(p)
                        &&& blocks@[j]@.value == a@.blocks[j].value + b@.blocks[j].value
                        &&& blocks@[j]@.degree == a@.blocks[j].degree + b@.blocks[j].degree
                        &&& blocks@[j]@.depth == deeper(a@.blocks[j].depth, b@.blocks[j].depth)
                    },
            decreases av@.len() - i,
        {
            proof {
                assert(a@.blocks[i as int].wf(p) && b@.blocks[i as int].wf(p));
                assert(a@.blocks[i as int].degree + b@.blocks[i as int].degree <= self@.max_degree);
                lemma_small_mod(a@.blocks[i as int].value + b@.blocks[i as int].value, p.total());
            }
            let sum = self.as_shortint().unchecked_add(&av[i], &bv[i]);
            blocks.push(sum);
            i = i + 1;
        }
        let r = CrtCiphertext::wrap(blocks, copy_moduli(a.moduli()));
        proof {
            assert(r@.moduli =~= a@.moduli);
            assert forall|j: int| 0 <= j < r@.blocks.len() implies (#[trigger] r@.blocks[j]).degree
                <= self@.max_degree by {
                assert(a@.blocks[j].degree + b@.blocks[j].degree <= self@.max_degree);
            }
        }
        r
    }

    /// Adds two integers residue by residue where the degree budget allows
    /// it, and returns `CarryFull` where it does not.
    pub fn checked_crt_add(&self, a: &CrtCiphertext, b: &CrtCiphertext) -> (r: Result<
        CrtCiphertext,
        CheckError,
    >)
        requires
            self.wf(),
            a.wf(self@.parameters),
            b.wf(self@.parameters),
            a@.moduli == b@.moduli,
        ensures
            r.is_ok() == add_possible(a@.blocks, b@.blocks, self@.max_degree),
            r matches Err(e) ==> e == CheckError::CarryFull,
            r matches Ok(ct) ==> {
                &&& ct.wf(self@.parameters)
                &&& ct@.moduli == a@.moduli
                &&& is_digitwise_sum(ct@.blocks, a@.blocks, b@.blocks)
                &&& within_budget(ct@.blocks, self@.max_degree)
            },
    {
        if self.is_crt_add_possible(a, b) {
            Ok(self.unchecked_crt_add(a, b))
        } else {
            Err(CheckError::CarryFull)
        }
    }

    /// Reduces every digit to its residue, by one table lookup for each
    /// digit.
    pub fn crt_reduce(&self, ct: &mut CrtCiphertext, meter: &mut WorkMeter)
        requires
            self.wf(),
            old(ct).wf(self@.parameters),
        ensures
            final(ct).wf(self@.parameters),
            final(ct)@.moduli == old(ct)@.moduli,
            final(ct)@.is_reduced(),
            within_budget(final(ct)@.blocks, self@.max_degree),
            forall|i: int|
                0 <= i < old(ct)@.blocks.len() ==> {
                    &&& (#[trigger] final(ct)@.blocks[i]).value == old(ct)@.blocks[i].value % old(
                        ct,
                    )@.moduli[i]
                    &&& final(ct)@.blocks[i].degree == old(ct)@.moduli[i] - 1
                    &&& final(ct)@.blocks[i].depth == one_deeper(old(ct)@.blocks[i].depth)
                },
            *final(meter) == old(meter).advance(old(ct)@.blocks.len()),
    {
        let key = self.as_shortint();
        let ghost p = self@.parameters;
        let ghost before = ct@;
        let ghost meter0 = *meter;
        let n = ct.len();
        let mut blocks: Vec<Ciphertext> = Vec::new();
        let mut i: usize = 0;
        proof {
            p.lemma_bounds();
        }
        while i < n
            invariant
                self.wf(),
                p == self@.parameters,
                key@ == self@,
                ct@ == before,
                before.wf(p),
                n == before.blocks.len(),
                i <= n,
                blocks@.len() == i,
                forall|j: int|
                    0 <= j < i ==> {
                        &&& (#[trigger] blocks@[j])@.wf(p)
                        &&& blocks@[j]@.value == before.blocks[j].value % before.moduli[j]
                        &&& blocks@[j]@.degree == before.moduli[j] - 1
                        &&& blocks@[j]@.depth == one_deeper(before.blocks[j].depth)
                    },
                *meter == meter0.advance(i as nat),
            decreases n - i,
        {
            let m: u64 = ct.moduli()[i];
            proof {
                assert(2 <= before.moduli[i as int] <= p.message_modulus.0);
                assert(before.blocks[i as int].wf(p));
            }
            let table = self.table(DigitFunction::Residue(m));
            let block = key.apply_lookup_table(&ct.blocks()[i], &table, meter);
            blocks.push(block);
            i = i + 1;
        }
        let moduli = copy_moduli(ct.moduli());
        *ct = CrtCiphertext::wrap(blocks, moduli);
        proof {
            assert(ct@.moduli =~= before.moduli);
            assert forall|j: int| 0 <= j < n implies (#[trigger] ct@.blocks[j]).wf(p) by {
                assert(blocks@[j]@.wf(p));
            }
            assert forall|j: int| 0 <= j < n implies (#[trigger] ct@.blocks[j]).degree
                < ct@.moduli[j] by {
                assert(blocks@[j]@.wf(p));
            }
            assert forall|j: int| 0 <= j < n implies (#[trigger] ct@.blocks[j]).degree
                <= self@.max_degree by {
                assert(blocks@[j]@.wf(p));
                assert(2 <= before.moduli[j] <= p.message_modulus.0);
            }
        }
    }

    /// Whether every digit is a residue: its degree lies under its modulus.
    pub fn is_crt_reduced(&self, ct: &CrtCiphertext) -> (reduced: bool)
        requires
            ct@.blocks.len() == ct@.moduli.len(),
        ensures
            reduced == ct@.is_reduced(),
    {
        let blocks = ct.blocks();
        let moduli = ct.moduli();
        let mut i: usize = 0;
        while i < blocks.len()
            invariant
                i <= blocks@.len(),
                blocks@.len() == moduli@.len(),
                blocks_view(blocks@) == ct@.blocks,
                moduli_view(moduli@) == ct@.moduli,
                forall|j: int| 0 <= j < i ==> (#[trigger] ct@.blocks[j]).degree < ct@.moduli[j],
            decreases blocks@.len() - i,
        {
            if blocks[i].degree().0 >= moduli[i] {
                assert(ct@.blocks[i as int].degree >= ct@.moduli[i as int]);
                return false;
            }
            i = i + 1;
        }
        true
    }

    /// Adds two integers residue by residue. Where the degrees do not allow
    /// it, copies of the operands are reduced first.
    pub fn crt_add(&self, a: &CrtCiphertext, b: &CrtCiphertext, meter: &mut WorkMeter) -> (r:
        CrtCiphertext)
        requires
            self.wf(),
            a.wf(self@.parameters),
            b.wf(self@.parameters),
            a@.moduli == b@.moduli,
        ensures
            r.wf(self@.parameters),
            r@.moduli == a@.moduli,
            within_budget(r@.blocks, self@.max_degree),
            forall|i: int|
                0 <= i < r@.blocks.len() ==> (#[trigger] r@.blocks[i]).value % r@.moduli[i] == (
                a@.blocks[i].value + b@.blocks[i].value) % r@.moduli[i],
            forall|i: int|
                0 <= i < r@.blocks.len() ==> (#[trigger] r@.blocks[i]).degree == (if add_possible(
                    a@.blocks,
                    b@.blocks,
                    self@.max_degree,
                ) {
                    a@.blocks[i].degree + b@.blocks[i].degree
                } else {
                    (2 * (r@.moduli[i] - 1)) as nat
                }),
            forall|i: int|
                0 <= i < r@.blocks.len() ==> (#[trigger] r@.blocks[i]).depth == (if add_possible(
                    a@.blocks,
                    b@.blocks,
                    self@.max_degree,
                ) {
                    deeper(a@.blocks[i].depth, b@.blocks[i].depth)
                } else {
                    deeper(one_deeper(a@.blocks[i].depth), one_deeper(b@.blocks[i].depth))
                }),
            *final(meter) == old(meter).advance(
                if add_possible(a@.blocks, b@.blocks, self@.max_degree) {
                    0
                } else {
                    2 * a@.blocks.len()
                },
            ),
    {
        let ghost p = self@.parameters;
        proof {
            assert(meter.advance(0) == *meter);
        }
        if self.is_crt_add_possible(a, b) {
            let r = self.unchecked_crt_add(a, b);
            proof {
                assert forall|i: int| 0 <= i < r@.blocks.len() implies (#[trigger] r@.blocks[i]).value
                    % r@.moduli[i] == (a@.blocks[i].value + b@.blocks[i].value) % r@.moduli[i] by {
                    assert(r@.blocks[i].value == a@.blocks[i].value + b@.blocks[i].value);
                }
            }
            r
        } else {
            let mut ca = a.duplicate();
            let mut cb = b.duplicate();
            self.crt_reduce(&mut ca, meter);
            self.crt_reduce(&mut cb, meter);
            proof {
                p.lemma_bounds();
                assert forall|i: int| 0 <= i < ca@.blocks.len() implies (#[trigger] ca@.blocks[i]).degree
                    + (#[trigger] cb@.blocks[i]).degree <= self@.max_degree by {
                    assert(2 <= a@.moduli[i] <= p.message_modulus.0);
                }
            }
            let r = self.unchecked_crt_add(&ca, &cb);
            proof {
                assert forall|i: int| 0 <= i < r@.blocks.len() implies (#[trigger] r@.blocks[i]).value
                    % r@.moduli[i] == (a@.blocks[i].value + b@.blocks[i].value) % r@.moduli[i] by {
                    assert(2 <= a@.moduli[i]);
                    assert(r@.blocks[i].value == ca@.blocks[i].value + cb@.blocks[i].value);
                    lemma_add_mod_noop(
                        a@.blocks[i].value as int,
                        b@.blocks[i].value as int,
                        a@.moduli[i] as int,
                    );
                }
            }
            r
        }
    }

    /// Multiplies two reduced integers residue by residue: every residue of
    /// the result is the product of the two residues modulo their modulus,
    /// read off a table at the packed pair.
    pub fn unchecked_crt_mul(&self, a: &CrtCiphertext, b: &CrtCiphertext, meter: &mut WorkMeter) -> (r:
        CrtCiphertext)
        requires
            self.wf(),
            a.wf(self@.parameters),
            b.wf(self@.parameters),
            a@.moduli == b@.moduli,
            a@.is_reduced(),
            b@.is_reduced(),
        ensures
            r.wf(self@.parameters),
            r@.moduli == a@.moduli,
            r@.is_reduced(),
            within_budget(r@.blocks, self@.max_degree),
            forall|i: int|
                0 <= i < r@.blocks.len() ==> {
                    &&& (#[trigger] r@.blocks[i]).value == (a@.blocks[i].value
                        * b@.blocks[i].value) % r@.moduli[i]
                    &&& r@.blocks[i].degree == r@.moduli[i] - 1
                    &&& r@.blocks[i].depth == one_deeper(
                        deeper(a@.blocks[i].depth, b@.blocks[i].depth),
                    )
                },
            *final(meter) == old(meter).advance(a@.blocks.len()),
    {
        let key = self.as_shortint();
        let ghost p = self@.parameters;
        let ghost meter0 = *meter;
        let ghost msg = p.message_modulus.0 as nat;
        let av = a.blocks();
        let bv = b.blocks();
        let moduli = a.moduli();
        let n = av.len();
        let mut blocks: Vec<Ciphertext> = Vec::new();
        let mut i: usize = 0;
        proof {
            p.lemma_bounds();
        }
        while i < n
            invariant
                self.wf(),
                p == self@.parameters,
                key@ == self@,
                msg == p.message_modulus.0,
                n == av@.len(),
                n == bv@.len(),
                n == moduli@.len(),
                blocks_view(av@) == a@.blocks,
                blocks_view(bv@) == b@.blocks,
                moduli_view(moduli@) == a@.moduli,
                a.wf(p),
                b.wf(p),
                a@.moduli == b@.moduli,
                a@.is_reduced(),
                b@.is_reduced(),
                i <= n,
                blocks@.len() == i,
                forall|j: int|
                    0 <= j < i ==> {
                        &&& (#[trigger] blocks@[j])@.wf(p)
                        &&& blocks@[j]@.value == (a@.blocks[j].value * b@.blocks[j].value)
                            % a@.moduli[j]
                        &&& blocks@[j]@.degree == a@.moduli[j] - 1
                        &&& blocks@[j]@.depth == one_deeper(
                            deeper(a@.blocks[j].depth, b@.blocks[j].depth),
                        )
                    },
                *meter == meter0.advance(i as nat),
            decreases n - i,
        {
            let m: u64 = moduli[i];
            proof {
                assert(2 <= a@.moduli[i as int] <= msg);
                assert(a@.blocks[i as int].wf(p) && b@.blocks[i as int].wf(p));
                assert(a@.blocks[i as int].degree < a@.moduli[i as int]);
                assert(b@.blocks[i as int].degree < b@.moduli[i as int]);
                lemma_unpack(a@.blocks[i as int].value, b@.blocks[i as int].value, msg);
            }
            let table = self.table(DigitFunction::ResidueProduct(m));
            let packed = self.pack_pair(&av[i], &bv[i]);
            let block = key.apply_lookup_table(&packed, &table, meter);
            blocks.push(block);
            i = i + 1;
        }
        let r = CrtCiphertext::wrap(blocks, copy_moduli(moduli));
        proof {
            assert(r@.moduli =~= a@.moduli);
            assert forall|j: int| 0 <= j < n implies (#[trigger] r@.blocks[j]).wf(p) by {
                assert(blocks@[j]@.wf(p));
            }
            assert forall|j: int| 0 <= j < n implies (#[trigger] r@.blocks[j]).degree
                < r@.moduli[j] by {
                assert(blocks@[j]@.wf(p));
            }
            assert forall|j: int| 0 <= j < n implies (#[trigger] r@.blocks[j]).degree
                <= self@.max_degree by {
                assert(blocks@[j]@.wf(p));
                assert(2 <= a@.moduli[j] <= msg);
            }
        }
        r
    }

    /// Multiplies two integers residue by residue. An operand that is not
    /// reduced is reduced first, on a copy.
    pub fn crt_mul(&self, a: &CrtCiphertext, b: &CrtCiphertext, meter: &mut WorkMeter) -> (r:
        CrtCiphertext)
        requires
            self.wf(),
            a.wf(self@.parameters),
            b.wf(self@.parameters),
            a@.moduli == b@.moduli,
        ensures
            r.wf(self@.parameters),
            r@.moduli == a@.moduli,
            r@.is_reduced(),
            within_budget(r@.blocks, self@.max_degree),
            forall|i: int|
                0 <= i < r@.blocks.len() ==> (#[trigger] r@.blocks[i]).value == (
                a@.blocks[i].value * b@.blocks[i].value) % r@.moduli[i],
            forall|i: int|
                0 <= i < r@.blocks.len() ==> (#[trigger] r@.blocks[i]).depth == one_deeper(
                    deeper(
                        if a@.is_reduced() {
                            a@.blocks[i].depth
                        } else {
                            one_deeper(a@.blocks[i].depth)
                        },
                        if b@.is_reduced() {
                            b@.blocks[i].depth
                        } else {
                            one_deeper(b@.blocks[i].depth)
                        },
                    ),
                ),
            *final(meter) == old(meter).advance(
                (if a@.is_reduced() {
                    0
                } else {
                    a@.blocks.len()
                }) + (if b@.is_reduced() {
                    0
                } else {
                    a@.blocks.len()
                }) + a@.blocks.len(),
            ),
    {
        let ghost p = self@.parameters;
        let mut ca = a.duplicate();
        let mut cb = b.duplicate();
        proof {
            assert(meter.advance(0) == *meter);
        }
        if !self.is_crt_reduced(a) {
            self.crt_reduce(&mut ca, meter);
        }
        if !self.is_crt_reduced(b) {
            self.crt_reduce(&mut cb, meter);
        }
        let r = self.unchecked_crt_mul(&ca, &cb, meter);
        proof {
            assert forall|i: int| 0 <= i < r@.blocks.len() implies (#[trigger] r@.blocks[i]).value
                == (a@.blocks[i].value * b@.blocks[i].value) % r@.moduli[i] by {
                assert(2 <= a@.moduli[i]);
                let x = a@.blocks[i].value as int;
                let y = b@.blocks[i].value as int;
                let m = a@.moduli[i] as int;
                lemma_mul_mod_noop_general(x, y, m);
                lemma_mul_mod_noop_left(x, y, m);
                lemma_mul_mod_noop_right(x, y, m);
                assert(ca@.blocks[i].value == x || ca@.blocks[i].value == x % m);
                assert(cb@.blocks[i].value == y || cb@.blocks[i].value == y % m);
            }
        }
        r
    }

    /// Subtracts `b` from `a` residue by residue: every residue of `b` is
    /// replaced by the residue that adds up to 0 with it, and added to that
    /// of `a`. Where the degrees of `a` do not allow the addition, a copy of
    /// `a` is reduced first.
    pub fn crt_sub(&self, a: &CrtCiphertext, b: &CrtCiphertext, meter: &mut WorkMeter) -> (r:
        CrtCiphertext)
        requires
            self.wf(),
            a.wf(self@.parameters),
            b.wf(self@.parameters),
            a@.moduli == b@.moduli,
        ensures
            r.wf(self@.parameters),
            r@.moduli == a@.moduli,
            within_budget(r@.blocks, self@.max_degree),
            forall|i: int|
                0 <= i < r@.blocks.len() ==> ((#[trigger] r@.blocks[i]).value + b@.blocks[i].value)
                    % r@.moduli[i] == a@.blocks[i].value % r@.moduli[i],
            forall|i: int|
                0 <= i < r@.blocks.len() ==> (#[trigger] r@.blocks[i]).degree == (if sub_possible(
                    a@,
                    self@.max_degree,
                ) {
                    a@.blocks[i].degree
                } else {
                    (r@.moduli[i] - 1) as nat
                }) + r@.moduli[i] - 1,
            forall|i: int|
                0 <= i < r@.blocks.len() ==> (#[trigger] r@.blocks[i]).depth == deeper(
                    if sub_possible(a@, self@.max_degree) {
                        a@.blocks[i].depth
                    } else {
                        one_deeper(a@.blocks[i].depth)
                    },
                    one_deeper(b@.blocks[i].depth),
                ),
            *final(meter) == old(meter).advance(
                a@.blocks.len() + if sub_possible(a@, self@.max_degree) {
                    0
                } else {
                    a@.blocks.len()
                },
            ),
    {
        let key = self.as_shortint();
        let ghost p = self@.parameters;
        let ghost meter0 = *meter;
        let n = a.len();
        let bv = b.blocks();
        let moduli = a.moduli();
        let mut negated: Vec<Ciphertext> = Vec::new();
        let mut i: usize = 0;
        proof {
            p.lemma_bounds();
        }
        while i < n
            invariant
                self.wf(),
                p == self@.parameters,
                key@ == self@,
                n == bv@.len(),
                n == moduli@.len(),
                blocks_view(bv@) == b@.blocks,
                moduli_view(moduli@) == a@.moduli,
                a.wf(p),
                b.wf(p),
                a@.moduli == b@.moduli,
                i <= n,
                negated@.len() == i,
                forall|j: int|
                    0 <= j < i ==> {
                        &&& (#[trigger] negated@[j])@.wf(p)
                        &&& negated@[j]@.value == (a@.moduli[j] - b@.blocks[j].value % a@.moduli[j])
                            % (a@.moduli[j] as int)
                        &&& negated@[j]@.degree == a@.moduli[j] - 1
                        &&& negated@[j]@.depth == one_deeper(b@.blocks[j].depth)
                    },
                *meter == meter0.advance(i as nat),
            decreases n - i,
        {
            let m: u64 = moduli[i];
            proof {
                assert(2 <= a@.moduli[i as int] <= p.message_modulus.0);
                assert(b@.blocks[i as int].wf(p));
            }
            let table = self.table(DigitFunction::ResidueNegation(m));
            let block = key.apply_lookup_table(&bv[i], &table, meter);
            negated.push(block);
            i = i + 1;
        }
        let mut possible = true;
        let av = a.blocks();
        let mut k: usize = 0;
        while k < n
            invariant
                k <= n,
                n == av@.len(),
                n == moduli@.len(),
                blocks_view(av@) == a@.blocks,
                moduli_view(moduli@) == a@.moduli,
                a.wf(p),
                p == self@.parameters,
                possible == (forall|j: int|
                    0 <= j < k ==> (#[trigger] a@.blocks[j]).degree + a@.moduli[j] - 1
                        <= self@.max_degree),
            decreases n - k,
        {
            proof {
                assert(2 <= a@.moduli[k as int] <= p.message_modulus.0);
            }
            let d: u64 = av[k].degree().0;
            let max: u64 = self.max_degree().0;
            if !(d <= max && moduli[k] - 1 <= max - d) {
                possible = false;
                assert(a@.blocks[k as int].degree + a@.moduli[k as int] - 1 > self@.max_degree);
            }
            k = k + 1;
        }
        let mut ca = a.duplicate();
        proof {
            assert(meter.advance(0) == *meter);
        }
        if !possible {
            self.crt_reduce(&mut ca, meter);
        }
        let nb = CrtCiphertext::wrap(negated, copy_moduli(moduli));
        proof {
            assert(nb@.moduli =~= a@.moduli);
            assert forall|j: int| 0 <= j < n implies (#[trigger] nb@.blocks[j]).wf(p) by {
                assert(negated@[j]@.wf(p));
            }
            assert forall|j: int| 0 <= j < n implies (#[trigger] ca@.blocks[j]).degree + (
            #[trigger] nb@.blocks[j]).degree <= self@.max_degree by {
                assert(negated@[j]@.wf(p));
                assert(2 <= a@.moduli[j] <= p.message_modulus.0);
                if possible {
                    assert(a@.blocks[j].degree + a@.moduli[j] - 1 <= self@.max_degree);
                }
            }
        }
        let r = self.unchecked_crt_add(&ca, &nb);
        proof {
            assert forall|j: int| 0 <= j < n implies ((#[trigger] r@.blocks[j]).value
                + b@.blocks[j].value) % r@.moduli[j] == a@.blocks[j].value % r@.moduli[j] by {
                assert(negated@[j]@.wf(p));
                assert(2 <= a@.moduli[j]);
                assert(r@.blocks[j].value == ca@.blocks[j].value + nb@.blocks[j].value);
                let m = a@.moduli[j];
                lemma_residue_negation(ca@.blocks[j].value, b@.blocks[j].value, m);
                lemma_mod_twice(a@.blocks[j].value as int, m as int);
            }
        }
        r
    }
}

/// Every residue of `a` can take in another residue inside the degree
/// budget.
pub open spec fn sub_possible(a: CrtView, max_degree: nat) -> bool {
    forall|j: int|
        0 <= j < a.blocks.len() ==> (#[trigger] a.blocks[j]).degree + a.moduli[j] - 1 <= max_degree
}

/// Adding to `a` the residue that adds up to 0 with `b`, and then `b`,
/// gives `a` again, modulo `m`.
pub proof fn lemma_residue_negation(a: nat, b: nat, m: nat)
    requires
        m >= 1,
    ensures
        (a + ((m - b % m) % (m as int)) + b) % (m as int) == a % m,
{
    let mi = m as int;
    let neg = (m - b % m) % mi;
    lemma_mod_bound(b as int, mi);
    lemma_fundamental_div_mod(b as int, mi);
    // (neg + b) % m == ((m - b % m) + b) % m == (m * (1 + b / m)) % m == 0
    lemma_add_mod_noop(m - b % m, b as int, mi);
    lemma_mod_twice(b as int, mi);
    lemma_add_mod_noop(neg, b as int, mi);
    lemma_mod_twice(m - b % m, mi);
    let k = (b as int) / mi;
    let r = (b % m) as int;
    let q = 1 + k;
    assert(b == mi * k + r);
    assert(mi - r + b == mi * q) by (nonlinear_arith)
        requires
            b == mi * k + r,
            q == 1 + k,
    ;
    lemma_mod_multiples_vanish(q, 0, mi);
    lemma_small_mod(0, m);
    assert((neg + b) % mi == 0);
    lemma_add_mod_noop_right(a as int, neg + b, mi);
}

/// Residue-wise addition adds the integers: where `a` encodes `x`, `b`
/// encodes `y` and every residue of `sum` is that of the two digits
/// together, `sum` encodes `x + y`.
pub proof fn lemma_crt_add_encodes(a: CrtView, b: CrtView, sum: CrtView, p: Parameters, x: nat, y: nat)
    requires
        a.wf(p),
        b.wf(p),
        sum.wf(p),
        a.moduli == b.moduli,
        sum.moduli == a.moduli,
        a.encodes(x),
        b.encodes(y),
        forall|i: int|
            0 <= i < sum.blocks.len() ==> (#[trigger] sum.blocks[i]).value % sum.moduli[i] == (
            a.blocks[i].value + b.blocks[i].value) % sum.moduli[i],
    ensures
        sum.encodes(x + y),
{
    assert forall|i: int| 0 <= i < sum.blocks.len() implies (#[trigger] sum.blocks[i]).value
        % sum.moduli[i] == (x + y) % sum.moduli[i] by {
        assert(2 <= a.moduli[i]);
        assert(a.blocks[i].wf(p) && b.blocks[i].wf(p));
        let m = a.moduli[i] as int;
        lemma_add_mod_noop(a.blocks[i].value as int, b.blocks[i].value as int, m);
        lemma_add_mod_noop(x as int, y as int, m);
    }
}

/// Residue-wise multiplication multiplies the integers: where `a` encodes
/// `x`, `b` encodes `y` and every residue of `product` is that of the
/// product of the two digits, `product` encodes `x * y`.
pub proof fn lemma_crt_mul_encodes(
    a: CrtView,
    b: CrtView,
    product: CrtView,
    p: Parameters,
    x: nat,
    y: nat,
)
    requires
        a.wf(p),
        b.wf(p),
        product.wf(p),
        a.moduli == b.moduli,
        product.moduli == a.moduli,
        a.encodes(x),
        b.encodes(y),
        forall|i: int|
            0 <= i < product.blocks.len() ==> (#[trigger] product.blocks[i]).value == (
            a.blocks[i].value * b.blocks[i].value) % product.moduli[i],
    ensures
        product.encodes(x * y),
{
    assert forall|i: int| 0 <= i < product.blocks.len() implies (#[trigger] product.blocks[i]).value
        % product.moduli[i] == (x * y) % product.moduli[i] by {
        assert(2 <= a.moduli[i]);
        assert(a.blocks[i].wf(p) && b.blocks[i].wf(p));
        let m = a.moduli[i] as int;
        lemma_mul_mod_noop_general(a.blocks[i].value as int, b.blocks[i].value as int, m);
        lemma_mul_mod_noop_general(x as int, y as int, m);
        lemma_mod_twice((a.blocks[i].value * b.blocks[i].value) as int, m);
    }
}

/// Residue-wise subtraction subtracts the integers: where `a` encodes `x`,
/// `b` encodes `y`, `x` is at least `y`, and every residue of `difference`
/// gives that of `a` when that of `b` is added, `difference` encodes
/// `x - y`.
pub proof fn lemma_crt_sub_encodes(
    a: CrtView,
    b: CrtView,
    difference: CrtView,
    p: Parameters,
    x: nat,
    y: nat,
)
    requires
        a.wf(p),
        b.wf(p),
        difference.wf(p),
        a.moduli == b.moduli,
        difference.moduli == a.moduli,
        a.encodes(x),
        b.encodes(y),
        x >= y,
        forall|i: int|
            0 <= i < difference.blocks.len() ==> ((#[trigger] difference.blocks[i]).value
                + b.blocks[i].value) % difference.moduli[i] == a.blocks[i].value
                % difference.moduli[i],
    ensures
        difference.encodes((x - y) as nat),
{
    assert forall|i: int| 0 <= i < difference.blocks.len() implies (
    #[trigger] difference.blocks[i]).value % difference.moduli[i] == ((x - y) as nat)
        % difference.moduli[i] by {
        assert(2 <= a.moduli[i]);
        assert(a.blocks[i].wf(p) && b.blocks[i].wf(p));
        let m = a.moduli[i] as int;
        let d = difference.blocks[i].value as int;
        let bv = b.blocks[i].value as int;
        // d + bv == x (mod m), bv == y (mod m), hence d == x - y (mod m)
        lemma_mod_equivalence(d + bv, x as int, m);
        lemma_mod_equivalence(bv, y as int, m);
        lemma_divides_combination(m, bv - y, d + bv - x, -1);
        lemma_mod_equivalence(d, x - y, m);
    }
}

} // verus!
