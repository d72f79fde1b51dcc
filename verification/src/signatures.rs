//! Callable signatures owned by one checker run.

use vstd::prelude::*;

use crate::types::{DisplayPiece, TypeId};

verus! {

/// A compact identity for a callable signature owned by one checker run.
#[derive(Clone, Copy, Debug, PartialEq, Eq, Hash, Structural)]
pub struct SignatureId(u32);

impl SignatureId {
    /// The store slot that this identity names.
    pub closed spec fn idx(self) -> u32 {
        self.0
    }

    /// The zero-based store index represented by this identity.
    pub fn index(self) -> (r: u32)
        ensures
            r == self.idx(),
    {
        self.0
    }
}

/// A signature identity is determined by its index.
pub broadcast proof fn lemma_signature_id_index(a: SignatureId, b: SignatureId)
    ensures
        (#[trigger] a.idx() == #[trigger] b.idx()) == (a == b),
{
}

/// One explicitly annotated parameter, with how diagnostics name its type.
#[derive(Debug)]
pub struct SignatureParameter {
    pub type_id: TypeId,
    pub diagnostic_name: Vec<DisplayPiece>,
}

/// The explicitly annotated shape of a supported callable declaration or expression.
#[derive(Debug)]
pub struct Signature {
    pub parameters: Vec<SignatureParameter>,
    pub return_type: TypeId,
    pub return_diagnostic_name: Vec<DisplayPiece>,
}

/// Signatures keep diagnostic metadata separate from the canonical type
/// identities used by structural callable shapes.
#[derive(Debug)]
pub struct SignatureStore {
    signatures: Vec<Signature>,
}

impl View for SignatureStore {
    type V = Seq<Signature>;

    closed spec fn view(&self) -> Seq<Signature> {
        self.signatures@
    }
}

impl SignatureStore {
    /// An empty store.
    pub fn new() -> (r: SignatureStore)
        ensures
            r@ == Seq::<Signature>::empty(),
    {
        SignatureStore { signatures: Vec::new() }
    }

    /// Store a signature and return its identity, the next free slot.
    pub fn add(&mut self, signature: Signature) -> (r: SignatureId)
        requires
            old(self)@.len() <= 0xFFFF_FFFF,
        ensures
            final(self)@ == old(self)@.push(signature),
            r.idx() == old(self)@.len(),
    {
        let index = self.signatures.len() as u32;
        self.signatures.push(signature);
        SignatureId(index)
    }

    /// The number of signatures stored.
    pub fn len(&self) -> (r: usize)
        ensures
            r == self@.len(),
    {
        self.signatures.len()
    }

    /// The signature stored under `id`, if any.
    pub fn get(&self, id: SignatureId) -> (r: Option<&Signature>)
        ensures
            match r {
                Some(s) => id.idx() < self@.len() && *s == self@[id.idx() as int],
                None => id.idx() >= self@.len(),
            },
    {
        let index = id.0 as usize;
        if index < self.signatures.len() {
            Some(&self.signatures[index])
        } else {
            None
        }
    }
}

impl Default for SignatureStore {
    fn default() -> (r: SignatureStore)
        ensures
            r@ == Seq::<Signature>::empty(),
    {
        SignatureStore::new()
    }
}

} // verus!
