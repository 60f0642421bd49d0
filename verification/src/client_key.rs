//! The client key of the integer layer. It wraps the private context of the
//! digit engine; integers are encrypted and decrypted with it digit by digit.
use crate::shortint::Parameters;
use vstd::prelude::*;

verus! {

/// The private context: whoever holds it can encrypt and decrypt integers.
#[derive(Clone, Copy, Debug)]
pub struct ClientKey {
    pub(crate) key: crate::shortint::ClientKey,
}

impl View for ClientKey {
    type V = Parameters;

    closed spec fn view(&self) -> Parameters {
        self.key@
    }
}

impl ClientKey {
    /// The key encrypts integers that the operations work with.
    pub open spec fn wf(&self) -> bool {
        self@.wf()
    }

    /// A client key for `parameters`: `Some` exactly when they are valid.
    /// Integers can be encrypted where the parameters are well-formed, too.
    pub fn new(parameters: Parameters) -> (r: Option<ClientKey>)
        ensures
            r.is_some() == parameters.valid(),
            r matches Some(k) ==> k@ == parameters,
    {
        match crate::shortint::ClientKey::new(parameters) {
            Some(key) => Some(ClientKey { key }),
            None => None,
        }
    }

    /// The moduli of the digits that this key encrypts.
    pub fn parameters(&self) -> (p: Parameters)
        ensures
            p == self@,
    {
        self.key.parameters()
    }

    /// The digit-level key inside.
    pub fn as_shortint(&self) -> (k: &crate::shortint::ClientKey)
        ensures
            k@ == self@,
    {
        &self.key
    }
}

/// Anything that can hand out a client key: the key itself, or a reference
/// to one.
pub trait ClientContext {
    /// The client key that `client_key` hands out.
    spec fn context_key(&self) -> ClientKey;

    fn client_key(&self) -> (k: &ClientKey)
        ensures
            *k == self.context_key(),
    ;
}

impl ClientContext for ClientKey {
    open spec fn context_key(&self) -> ClientKey {
        *self
    }

    fn client_key(&self) -> (k: &ClientKey) {
        self
    }
}

impl<'a> ClientContext for &'a ClientKey {
    open spec fn context_key(&self) -> ClientKey {
        **self
    }

    fn client_key(&self) -> (k: &ClientKey) {
        *self
    }
}

} // verus!
