//! The server key: the published capability that every homomorphic
//! operation on integers takes.
//!
//! It bundles the evaluation key of the digit engine with the degree budget
//! of the integer layer. The budget leaves a digit just enough room to take
//! in one more carry.
use crate::client_key::{ClientContext, ClientKey};
use crate::shortint::{MaxDegree, Parameters, ServerKeyView};
use vstd::prelude::*;
use vstd::std_specs::convert::FromSpecImpl;

pub use crate::shortint::CheckError;

verus! {

/// The server key. The client makes it and publishes it; nothing changes it
/// afterwards.
#[derive(Clone, Copy, Debug)]
pub struct ServerKey {
    pub(crate) key: crate::shortint::ServerKey,
}

impl View for ServerKey {
    type V = ServerKeyView;

    closed spec fn view(&self) -> ServerKeyView {
        self.key@
    }
}

impl From<ServerKey> for crate::shortint::ServerKey {
    fn from(key: ServerKey) -> (r: crate::shortint::ServerKey) {
        key.key
    }
}

impl FromSpecImpl<ServerKey> for crate::shortint::ServerKey {
    open spec fn obeys_from_spec() -> bool {
        true
    }

    open spec fn from_spec(key: ServerKey) -> crate::shortint::ServerKey {
        key.digit_key()
    }
}

impl ServerKey {
    /// The evaluation key of the digit engine inside this key.
    pub closed spec fn digit_key(self) -> crate::shortint::ServerKey {
        self.key
    }

    /// The key holds well-formed parameters and their degree budget.
    pub open spec fn wf(&self) -> bool {
        &&& self@.parameters.wf()
        &&& self@.max_degree == self@.parameters.max_degree()
    }

    /// What `new` returns for the client key `cks`.
    pub open spec fn generated_from(&self, cks: ClientKey) -> bool {
        &&& self@.parameters == cks@
        &&& self@.max_degree == cks@.max_degree()
    }

    /// What `from_shortint` returns for the client key `cks` and the digit
    /// key `key`: the digit key with nothing changed but its budget.
    pub open spec fn adopted_from(&self, cks: ClientKey, key: crate::shortint::ServerKey) -> bool {
        &&& self@.parameters == key@.parameters
        &&& self@.max_degree == cks@.max_degree()
    }

    /// The evaluation key of the digit engine inside a key stands for what
    /// the key stands for.
    pub proof fn lemma_digit_key(self)
        ensures
            self.digit_key()@ == self@,
    {
    }

    /// Generates a server key. Its degree budget is
    /// `(message_modulus - 1) * carry_modulus - 1`, for every message
    /// modulus of at least 2 and every carry modulus of at least 1. The key
    /// serves the operations on integers where the parameters are
    /// well-formed.
    pub fn new<C>(cks: C) -> (sks: ServerKey) where C: ClientContext
        requires
            cks.context_key()@.message_modulus.0 >= 2,
            cks.context_key()@.carry_modulus.0 >= 1,
            (cks.context_key()@.message_modulus.0 - 1) * cks.context_key()@.carry_modulus.0
                <= u64::MAX,
        ensures
            sks.generated_from(cks.context_key()),
            cks.context_key().wf() ==> sks.wf(),
    {
        // It should remain just enough space to add a carry
        let client_key = cks.client_key();
        let p = client_key.parameters();
        proof {
            Self::lemma_budget_fits(p);
        }
        let max: u64 = (p.message_modulus.0 - 1) * p.carry_modulus.0 - 1;

        let sks = crate::shortint::ServerKey::new_with_max_degree(
            client_key.as_shortint(),
            MaxDegree(max),
        );

        ServerKey { key: sks }
    }

    /// Creates a server key from an already generated digit key. The budget
    /// of the digit key is replaced by the one that `new` computes from
    /// `cks`; the rest of the digit key is kept.
    pub fn from_shortint(cks: &ClientKey, mut key: crate::shortint::ServerKey) -> (sks: ServerKey)
        requires
            cks@.message_modulus.0 >= 2,
            cks@.carry_modulus.0 >= 1,
            (cks@.message_modulus.0 - 1) * cks@.carry_modulus.0 <= u64::MAX,
        ensures
            sks.adopted_from(*cks, key),
            key@.parameters == cks@ ==> sks.generated_from(*cks),
            key@.parameters == cks@ && cks.wf() ==> sks.wf(),
    {
        // It should remain just enough space to add a carry
        let p = cks.parameters();
        proof {
            Self::lemma_budget_fits(p);
        }
        let max: u64 = (p.message_modulus.0 - 1) * p.carry_modulus.0 - 1;

        key.set_max_degree(MaxDegree(max));
        ServerKey { key }
    }

    /// Gives the digit key back: it is the key that went in, with the
    /// budget of the integer layer.
    pub fn into_shortint(self) -> (key: crate::shortint::ServerKey)
        ensures
            key == self.digit_key(),
            key@ == self@,
    {
        self.key
    }

    /// The moduli of the digits that this key works on.
    pub fn parameters(&self) -> (p: Parameters)
        ensures
            p == self@.parameters,
    {
        self.key.parameters()
    }

    /// The degree budget.
    pub fn max_degree(&self) -> (d: MaxDegree)
        ensures
            d.0 == self@.max_degree,
    {
        self.key.max_degree()
    }

    /// The digit-level key inside.
    pub fn as_shortint(&self) -> (k: &crate::shortint::ServerKey)
        ensures
            *k == self.digit_key(),
            k@ == self@,
    {
        &self.key
    }

    proof fn lemma_budget_fits(p: Parameters)
        requires
            p.message_modulus.0 >= 2,
            p.carry_modulus.0 >= 1,
        ensures
            1 <= (p.message_modulus.0 - 1) * p.carry_modulus.0,
    {
        let m = p.message_modulus.0 as int;
        let c = p.carry_modulus.0 as int;
        assert(1 <= (m - 1) * c) by (nonlinear_arith)
            requires
                2 <= m,
                1 <= c,
        ;
    }
}

/// Both ways of making a server key give the same degree budget, and for a
/// digit key with the client key's parameters the same key altogether.
pub proof fn lemma_constructors_agree(
    cks: ClientKey,
    key: crate::shortint::ServerKey,
    generated: ServerKey,
    adopted: ServerKey,
)
    requires
        generated.generated_from(cks),
        adopted.adopted_from(cks, key),
    ensures
        generated@.max_degree == adopted@.max_degree,
        key@.parameters == cks@ ==> generated@ == adopted@,
{
}

} // verus!
