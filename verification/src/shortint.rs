//! The digit engine: one encrypted digit, its keys and its two homomorphic
//! operations, addition and table lookup.
//!
//! A digit lives in a plaintext space of `message_modulus * carry_modulus`
//! values. The lower `message_modulus` values are the digit proper, the rest
//! is headroom for carries. This engine keeps the encoded plaintext in the
//! clear inside the ciphertext: it fixes the arithmetic of the digit layer,
//! and everything above it reads a digit only through the operations here.
//!
//! Besides the plaintext a digit carries two public numbers: its degree, a
//! bound on the plaintext, and its depth, the number of table lookups on
//! the longest chain of operations behind it.
use vstd::prelude::*;

verus! {

/// Largest plaintext space, message modulus times carry modulus, of a
/// parameter set.
pub const MAX_PLAINTEXT_SPACE: u64 = 65536;

/// Number of values of the digit proper.
#[derive(Clone, Copy, Debug, PartialEq, Eq)]
pub struct MessageModulus(pub u64);

/// Number of carries a digit has room for, the carry-free state included.
#[derive(Clone, Copy, Debug, PartialEq, Eq)]
pub struct CarryModulus(pub u64);

/// Upper bound on the plaintext that a digit holds.
#[derive(Clone, Copy, Debug, PartialEq, Eq)]
pub struct Degree(pub u64);

/// Largest degree that a server key lets a digit reach.
#[derive(Clone, Copy, Debug, PartialEq, Eq)]
pub struct MaxDegree(pub u64);

/// Returned by a checked operation whose result would leave the degree
/// budget: the carry space is full.
#[derive(Clone, Copy, Debug, PartialEq, Eq)]
pub enum CheckError {
    CarryFull,
}

/// The moduli of a digit.
#[derive(Clone, Copy, Debug, PartialEq, Eq)]
pub struct Parameters {
    pub message_modulus: MessageModulus,
    pub carry_modulus: CarryModulus,
}

impl Parameters {
    /// Size of the whole plaintext space of a digit.
    pub open spec fn total(&self) -> nat {
        (self.message_modulus.0 * self.carry_modulus.0) as nat
    }

    /// Moduli that keys can be made for: the digit has at least two values,
    /// the carry space at least its carry-free state, and the degree budget
    /// `(message_modulus - 1) * carry_modulus - 1` can be computed in 64
    /// bits.
    pub open spec fn valid(&self) -> bool {
        &&& self.message_modulus.0 >= 2
        &&& self.carry_modulus.0 >= 1
        &&& (self.message_modulus.0 - 1) * self.carry_modulus.0 <= u64::MAX
    }

    /// Moduli that the operations on digits and integers work with: the
    /// digit has at least two values, at least as much carry room as
    /// values, so that two digits can be packed into one, and a plaintext
    /// space of at least three bits and at most `MAX_PLAINTEXT_SPACE`.
    pub open spec fn wf(&self) -> bool {
        &&& 2 <= self.message_modulus.0 <= self.carry_modulus.0
        &&& 8 <= self.message_modulus.0 * self.carry_modulus.0 <= MAX_PLAINTEXT_SPACE
    }

    /// The degree budget of the integer layer:
    /// `(message_modulus - 1) * carry_modulus - 1`. A digit of at most this
    /// degree can take in the carry of another such digit and stay inside
    /// the plaintext space.
    pub open spec fn max_degree(&self) -> int {
        (self.message_modulus.0 - 1) * self.carry_modulus.0 - 1
    }

    /// Linear consequences of `wf`, for proofs that would otherwise need the
    /// product of the two moduli.
    pub proof fn lemma_bounds(&self)
        requires
            self.wf(),
        ensures
            self.valid(),
            self.total() == self.message_modulus.0 * self.carry_modulus.0,
            8 <= self.total() <= MAX_PLAINTEXT_SPACE,
            self.message_modulus.0 * self.message_modulus.0 <= self.total(),
            2 * self.carry_modulus.0 <= self.total(),
            self.carry_modulus.0 >= 3,
            self.max_degree() == self.total() - self.carry_modulus.0 - 1,
            2 * (self.message_modulus.0 - 1) <= self.max_degree(),
            self.message_modulus.0 <= 256,
            self.carry_modulus.0 <= 32768,
    {
        let m = self.message_modulus.0 as int;
        let c = self.carry_modulus.0 as int;
        assert(m * m <= m * c) by (nonlinear_arith)
            requires
                2 <= m <= c,
        ;
        assert((m - 1) * c <= m * c) by (nonlinear_arith)
            requires
                2 <= m <= c,
        ;
        assert(2 * c <= m * c) by (nonlinear_arith)
            requires
                2 <= m <= c,
        ;
        assert(c >= 3) by (nonlinear_arith)
            requires
                2 <= m <= c,
                8 <= m * c,
        ;
        assert((m - 1) * c - 1 == m * c - c - 1) by (nonlinear_arith);
        assert(2 * (m - 1) <= (m - 1) * c - 1) by (nonlinear_arith)
            requires
                2 <= m <= c,
                c >= 3,
        ;
        assert(m <= 256) by (nonlinear_arith)
            requires
                2 <= m <= c,
                m * c <= 65536,
        ;
    }

    /// Checks a pair of moduli: `Some` exactly for a valid pair.
    pub fn new(message_modulus: u64, carry_modulus: u64) -> (r: Option<Parameters>)
        ensures
            r.is_some() == (Parameters {
                message_modulus: MessageModulus(message_modulus),
                carry_modulus: CarryModulus(carry_modulus),
            }).valid(),
            r matches Some(p) ==> p.message_modulus.0 == message_modulus && p.carry_modulus.0
                == carry_modulus,
    {
        if message_modulus < 2 || carry_modulus < 1 {
            return None;
        }
        match (message_modulus - 1).checked_mul(carry_modulus) {
            Some(_) => Some(
                Parameters {
                    message_modulus: MessageModulus(message_modulus),
                    carry_modulus: CarryModulus(carry_modulus),
                },
            ),
            None => None,
        }
    }

    /// Whether the operations on digits and integers work with these
    /// moduli.
    pub fn is_well_formed(&self) -> (r: bool)
        ensures
            r == self.wf(),
    {
        let message_modulus = self.message_modulus.0;
        let carry_modulus = self.carry_modulus.0;
        if message_modulus < 2 || carry_modulus < message_modulus {
            return false;
        }
        if carry_modulus > MAX_PLAINTEXT_SPACE {
            proof {
                assert(message_modulus * carry_modulus > MAX_PLAINTEXT_SPACE) by (nonlinear_arith)
                    requires
                        message_modulus >= 2,
                        carry_modulus > MAX_PLAINTEXT_SPACE,
                ;
            }
            return false;
        }
        assert(message_modulus * carry_modulus <= 65536 * 65536) by (nonlinear_arith)
            requires
                message_modulus <= carry_modulus <= 65536,
        ;
        let total: u64 = message_modulus * carry_modulus;
        8 <= total && total <= MAX_PLAINTEXT_SPACE
    }

    /// Two bits of message and two bits of carry: moduli 4 and 4.
    pub fn message_2_carry_2() -> (p: Parameters)
        ensures
            p.wf(),
            p.valid(),
            p.message_modulus.0 == 4,
            p.carry_modulus.0 == 4,
    {
        Parameters { message_modulus: MessageModulus(4), carry_modulus: CarryModulus(4) }
    }

    /// Four bits of message and four bits of carry: moduli 16 and 16.
    pub fn message_4_carry_4() -> (p: Parameters)
        ensures
            p.wf(),
            p.valid(),
            p.message_modulus.0 == 16,
            p.carry_modulus.0 == 16,
    {
        Parameters { message_modulus: MessageModulus(16), carry_modulus: CarryModulus(16) }
    }
}


/// Counts the table lookups that operations perform. The count stops at
/// `u64::MAX`.
#[derive(Clone, Copy, Debug, PartialEq, Eq)]
pub struct WorkMeter {
    pub bootstraps: u64,
}

impl WorkMeter {
    /// The meter after `k` more lookups.
    pub open spec fn advance(self, k: nat) -> WorkMeter {
        WorkMeter {
            bootstraps: if self.bootstraps + k > u64::MAX {
                u64::MAX
            } else {
                (self.bootstraps + k) as u64
            },
        }
    }

    /// A meter that has counted nothing.
    pub fn new() -> (m: WorkMeter)
        ensures
            m.bootstraps == 0,
    {
        WorkMeter { bootstraps: 0 }
    }

    fn tick(&mut self)
        ensures
            *final(self) == old(self).advance(1),
    {
        if self.bootstraps < u64::MAX {
            self.bootstraps = self.bootstraps + 1;
        }
    }
}

/// The deeper of two depths.
pub open spec fn deeper(a: nat, b: nat) -> nat {
    if a >= b {
        a
    } else {
        b
    }
}

/// The depth after one more table lookup. The count stops at `u64::MAX`.
pub open spec fn one_deeper(a: nat) -> nat {
    if a < u64::MAX {
        a + 1
    } else {
        a
    }
}

/// What a digit ciphertext stands for: the plaintext it encodes, the tracked
/// bound on that plaintext, the moduli it was made with, and its depth: the
/// number of table lookups on the longest chain of operations that led to
/// it from fresh digits.
pub struct DigitView {
    pub value: nat,
    pub degree: nat,
    pub depth: nat,
    pub parameters: Parameters,
}

/// One encrypted digit with its degree and its depth.
#[derive(Clone, Copy, Debug)]
pub struct Ciphertext {
    ct: u64,
    degree: Degree,
    depth: u64,
    message_modulus: MessageModulus,
    carry_modulus: CarryModulus,
}

impl View for Ciphertext {
    type V = DigitView;

    closed spec fn view(&self) -> DigitView {
        DigitView {
            value: self.ct as nat,
            degree: self.degree.0 as nat,
            depth: self.depth as nat,
            parameters: Parameters {
                message_modulus: self.message_modulus,
                carry_modulus: self.carry_modulus,
            },
        }
    }
}

impl DigitView {
    /// The digit belongs to the parameters `p`: its plaintext lies in their
    /// plaintext space and under its degree.
    pub open spec fn wf(&self, p: Parameters) -> bool {
        &&& self.parameters == p
        &&& self.value < p.total()
        &&& self.value <= self.degree
    }
}

impl Ciphertext {
    /// The digit belongs to the parameters `p`.
    pub open spec fn wf(&self, p: Parameters) -> bool {
        self@.wf(p)
    }

    /// The tracked degree.
    pub fn degree(&self) -> (d: Degree)
        ensures
            d.0 == self@.degree,
    {
        self.degree
    }

    /// The depth: the number of table lookups on the longest chain of
    /// operations behind the digit. The count stops at `u64::MAX`.
    pub fn depth(&self) -> (d: u64)
        ensures
            d == self@.depth,
    {
        self.depth
    }

    /// The message modulus the digit was made with.
    pub fn message_modulus(&self) -> (m: MessageModulus)
        ensures
            m == self@.parameters.message_modulus,
    {
        self.message_modulus
    }

    /// The carry modulus the digit was made with.
    pub fn carry_modulus(&self) -> (c: CarryModulus)
        ensures
            c == self@.parameters.carry_modulus,
    {
        self.carry_modulus
    }
}

/// The private context of the digit engine: it encrypts and decrypts digits.
#[derive(Clone, Copy, Debug)]
pub struct ClientKey {
    parameters: Parameters,
}

impl View for ClientKey {
    type V = Parameters;

    closed spec fn view(&self) -> Parameters {
        self.parameters
    }
}

impl ClientKey {
    /// The key encrypts digits that the operations work with.
    pub open spec fn wf(&self) -> bool {
        self@.wf()
    }

    /// A client key for `parameters`: `Some` exactly when they are valid.
    pub fn new(parameters: Parameters) -> (r: Option<ClientKey>)
        ensures
            r.is_some() == parameters.valid(),
            r matches Some(k) ==> k@ == parameters,
    {
        match Parameters::new(parameters.message_modulus.0, parameters.carry_modulus.0) {
            Some(p) => Some(ClientKey { parameters: p }),
            None => None,
        }
    }

    /// The moduli of this key.
    pub fn parameters(&self) -> (p: Parameters)
        ensures
            p == self@,
    {
        self.parameters
    }

    /// Encrypts the digit `message % message_modulus`. A fresh digit has the
    /// degree `message_modulus - 1`.
    pub fn encrypt(&self, message: u64) -> (ct: Ciphertext)
        requires
            self.wf(),
        ensures
            ct.wf(self@),
            ct@.value == message % self@.message_modulus.0,
            ct@.degree == self@.message_modulus.0 - 1,
            ct@.depth == 0,
    {
        proof {
            self.parameters.lemma_bounds();
        }
        Ciphertext {
            ct: message % self.parameters.message_modulus.0,
            degree: Degree(self.parameters.message_modulus.0 - 1),
            depth: 0,
            message_modulus: self.parameters.message_modulus,
            carry_modulus: self.parameters.carry_modulus,
        }
    }

    /// Encrypts a residue modulo `modulus`. The degree of the digit is
    /// `modulus - 1`.
    pub fn encrypt_residue(&self, message: u64, modulus: u64) -> (ct: Ciphertext)
        requires
            self.wf(),
            1 <= modulus <= self@.message_modulus.0,
        ensures
            ct.wf(self@),
            ct@.value == message % modulus,
            ct@.degree == modulus - 1,
            ct@.depth == 0,
    {
        proof {
            self.parameters.lemma_bounds();
            vstd::arithmetic::div_mod::lemma_mod_bound(message as int, modulus as int);
        }
        Ciphertext {
            ct: message % modulus,
            degree: Degree(modulus - 1),
            depth: 0,
            message_modulus: self.parameters.message_modulus,
            carry_modulus: self.parameters.carry_modulus,
        }
    }

    /// Decrypts the digit proper, without the carries above it.
    pub fn decrypt(&self, ct: &Ciphertext) -> (m: u64)
        requires
            self.wf(),
        ensures
            m == ct@.value % (self@.message_modulus.0 as nat),
    {
        ct.ct % self.parameters.message_modulus.0
    }

    /// Decrypts the whole plaintext of a digit, carries included.
    pub fn decrypt_message_and_carry(&self, ct: &Ciphertext) -> (m: u64)
        ensures
            m == ct@.value,
    {
        ct.ct
    }
}

/// What a lookup table stands for: one output for each plaintext of the
/// plaintext space, and a bound on the outputs.
pub struct LookupTableView {
    pub values: Seq<u64>,
    pub degree: nat,
}

/// A function on the plaintext space of a digit, written out as a table.
#[derive(Debug)]
pub struct LookupTable {
    values: Vec<u64>,
    degree: Degree,
}

impl View for LookupTable {
    type V = LookupTableView;

    closed spec fn view(&self) -> LookupTableView {
        LookupTableView { values: self.values@, degree: self.degree.0 as nat }
    }
}

/// A table for the parameters `p` has one entry for each plaintext, and no
/// entry above `degree`, which lies inside the plaintext space.
pub open spec fn table_fits(values: Seq<u64>, degree: nat, p: Parameters) -> bool {
    &&& values.len() == p.total()
    &&& degree < p.total()
    &&& forall|x: int| 0 <= x < values.len() ==> #[trigger] values[x] <= degree
}

impl LookupTable {
    pub open spec fn wf(&self, p: Parameters) -> bool {
        table_fits(self@.values, self@.degree, p)
    }

    /// The bound on the outputs.
    pub fn degree(&self) -> (d: Degree)
        ensures
            d.0 == self@.degree,
    {
        self.degree
    }
}

/// What the evaluation key of the digit engine stands for.
pub struct ServerKeyView {
    pub parameters: Parameters,
    pub max_degree: nat,
}

/// The evaluation key of the digit engine. It adds digits and applies lookup
/// tables to them, and carries the largest degree that checked operations
/// let a digit reach.
#[derive(Clone, Copy, Debug)]
pub struct ServerKey {
    message_modulus: MessageModulus,
    carry_modulus: CarryModulus,
    max_degree: MaxDegree,
}

impl View for ServerKey {
    type V = ServerKeyView;

    closed spec fn view(&self) -> ServerKeyView {
        ServerKeyView {
            parameters: Parameters {
                message_modulus: self.message_modulus,
                carry_modulus: self.carry_modulus,
            },
            max_degree: self.max_degree.0 as nat,
        }
    }
}

impl ServerKey {
    pub open spec fn wf(&self) -> bool {
        self@.parameters.wf()
    }

    /// An evaluation key whose budget is the whole plaintext space, which
    /// has to fit in 64 bits.
    pub fn new(cks: &ClientKey) -> (sks: ServerKey)
        requires
            1 <= cks@.message_modulus.0 * cks@.carry_modulus.0 <= u64::MAX,
        ensures
            sks@.parameters == cks@,
            sks@.max_degree == cks@.total() - 1,
    {
        let p = cks.parameters();
        ServerKey {
            message_modulus: p.message_modulus,
            carry_modulus: p.carry_modulus,
            max_degree: MaxDegree(p.message_modulus.0 * p.carry_modulus.0 - 1),
        }
    }

    /// An evaluation key with the budget `max_degree`.
    pub fn new_with_max_degree(cks: &ClientKey, max_degree: MaxDegree) -> (sks: ServerKey)
        ensures
            sks@.parameters == cks@,
            sks@.max_degree == max_degree.0,
    {
        let p = cks.parameters();
        ServerKey {
            message_modulus: p.message_modulus,
            carry_modulus: p.carry_modulus,
            max_degree,
        }
    }

    /// Replaces the budget and leaves the rest of the key as it is.
    pub fn set_max_degree(&mut self, max_degree: MaxDegree)
        ensures
            final(self)@.parameters == old(self)@.parameters,
            final(self)@.max_degree == max_degree.0,
    {
        self.max_degree = max_degree;
    }

    /// The moduli of this key.
    pub fn parameters(&self) -> (p: Parameters)
        ensures
            p == self@.parameters,
    {
        Parameters { message_modulus: self.message_modulus, carry_modulus: self.carry_modulus }
    }

    /// The message modulus of this key.
    pub fn message_modulus(&self) -> (m: MessageModulus)
        ensures
            m == self@.parameters.message_modulus,
    {
        self.message_modulus
    }

    /// The carry modulus of this key.
    pub fn carry_modulus(&self) -> (c: CarryModulus)
        ensures
            c == self@.parameters.carry_modulus,
    {
        self.carry_modulus
    }

    /// The degree budget of this key.
    pub fn max_degree(&self) -> (d: MaxDegree)
        ensures
            d.0 == self@.max_degree,
    {
        self.max_degree
    }

    /// Homomorphic addition. The degrees add up; the plaintexts add up
    /// inside the plaintext space, and wrap around at its end. The sum is as
    /// deep as the deeper of the two digits.
    pub fn unchecked_add(&self, a: &Ciphertext, b: &Ciphertext) -> (r: Ciphertext)
        requires
            self.wf(),
            a.wf(self@.parameters),
            b.wf(self@.parameters),
            a@.degree + b@.degree <= u64::MAX,
        ensures
            r.wf(self@.parameters),
            r@.degree == a@.degree + b@.degree,
            r@.value == (a@.value + b@.value) % self@.parameters.total(),
            r@.depth == deeper(a@.depth, b@.depth),
    {
        let total: u64 = self.message_modulus.0 * self.carry_modulus.0;
        let sum: u64 = a.ct + b.ct;
        proof {
            if sum < total {
                vstd::arithmetic::div_mod::lemma_small_mod(sum as nat, total as nat);
            } else {
                vstd::arithmetic::div_mod::lemma_mod_decreases(sum as nat, total as nat);
            }
        }
        Ciphertext {
            ct: sum % total,
            degree: Degree(a.degree.0 + b.degree.0),
            depth: if a.depth >= b.depth {
                a.depth
            } else {
                b.depth
            },
            message_modulus: self.message_modulus,
            carry_modulus: self.carry_modulus,
        }
    }

    /// Whether the sum of the two digits stays inside the degree budget.
    pub fn is_add_possible(&self, a: &Ciphertext, b: &Ciphertext) -> (possible: bool)
        ensures
            possible == (a@.degree + b@.degree <= self@.max_degree),
    {
        a.degree.0 <= self.max_degree.0 && b.degree.0 <= self.max_degree.0 - a.degree.0
    }

    /// Addition inside the degree budget: the sum where the degrees allow
    /// it, `CarryFull` where they do not.
    pub fn checked_add(&self, a: &Ciphertext, b: &Ciphertext) -> (r: Result<
        Ciphertext,
        CheckError,
    >)
        requires
            self.wf(),
            a.wf(self@.parameters),
            b.wf(self@.parameters),
        ensures
            r.is_ok() == (a@.degree + b@.degree <= self@.max_degree),
            r matches Ok(c) ==> {
                &&& c.wf(self@.parameters)
                &&& c@.degree == a@.degree + b@.degree
                &&& c@.degree <= self@.max_degree
                &&& c@.value == (a@.value + b@.value) % self@.parameters.total()
                &&& c@.depth == deeper(a@.depth, b@.depth)
            },
            r matches Err(e) ==> e == CheckError::CarryFull,
    {
        if self.is_add_possible(a, b) {
            Ok(self.unchecked_add(a, b))
        } else {
            Err(CheckError::CarryFull)
        }
    }

    /// A table from its entries and a bound on them, without a check.
    pub fn lookup_table_from(&self, values: Vec<u64>, degree: Degree) -> (t: LookupTable)
        requires
            table_fits(values@, degree.0 as nat, self@.parameters),
        ensures
            t@.values == values@,
            t@.degree == degree.0,
            t.wf(self@.parameters),
    {
        LookupTable { values, degree }
    }

    /// A table from its entries and a bound on them: `Some` exactly when
    /// there is one entry for each plaintext and none exceeds the bound,
    /// which has to lie inside the plaintext space.
    pub fn generate_lookup_table(&self, values: Vec<u64>, degree: Degree) -> (r: Option<
        LookupTable,
    >)
        requires
            self.wf(),
        ensures
            r.is_some() == table_fits(values@, degree.0 as nat, self@.parameters),
            r matches Some(t) ==> t@.values == values@ && t@.degree == degree.0,
    {
        let total: u64 = self.message_modulus.0 * self.carry_modulus.0;
        if values.len() != total as usize || degree.0 >= total {
            return None;
        }
        let mut i: usize = 0;
        while i < values.len()
            invariant
                i <= values.len(),
                forall|x: int| 0 <= x < i ==> #[trigger] values@[x] <= degree.0,
            decreases values.len() - i,
        {
            if values[i] > degree.0 {
                return None;
            }
            i = i + 1;
        }
        Some(LookupTable { values, degree })
    }

    /// Table lookup, the bootstrap of the engine: the result encodes the
    /// table's entry at the plaintext of `a`, and its degree is the table's
    /// bound. It is one lookup deeper than `a`, and one lookup is counted on
    /// the meter.
    pub fn apply_lookup_table(
        &self,
        a: &Ciphertext,
        table: &LookupTable,
        meter: &mut WorkMeter,
    ) -> (r: Ciphertext)
        requires
            self.wf(),
            a.wf(self@.parameters),
            table.wf(self@.parameters),
        ensures
            r.wf(self@.parameters),
            r@.value == table@.values[a@.value as int],
            r@.degree == table@.degree,
            r@.depth == one_deeper(a@.depth),
            *final(meter) == old(meter).advance(1),
    {
        meter.tick();
        Ciphertext {
            ct: table.values[a.ct as usize],
            degree: table.degree,
            depth: if a.depth < u64::MAX {
                a.depth + 1
            } else {
                a.depth
            },
            message_modulus: self.message_modulus,
            carry_modulus: self.carry_modulus,
        }
    }
}

} // verus!
