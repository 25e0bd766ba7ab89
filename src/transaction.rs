use vstd::prelude::*;

verus! {

/// What the mempool sees of a transaction: sender, nonce, payload and signature.
pub type TxView = (Seq<u8>, u64, Seq<u8>, Seq<u8>);

/// A signed unit of work, already validated by whoever hands it over.
#[derive(Debug)]
pub struct Transaction {
    pub sender: [u8; 32],
    pub nonce: u64,
    pub payload: Vec<u8>,
    pub signature: [u8; 64],
}

impl View for Transaction {
    type V = TxView;

    open spec fn view(&self) -> TxView {
        (self.sender@, self.nonce, self.payload@, self.signature@)
    }
}

impl Transaction {
    /// A field-by-field copy of this transaction.
    pub fn duplicate(&self) -> (r: Transaction)
        ensures
            r@ == self@,
    {
        let n = self.payload.len();
        let mut payload: Vec<u8> = Vec::with_capacity(n);
        let mut i: usize = 0;
        while i < n
            invariant
                n == self.payload@.len(),
                i <= n,
                payload@ == self.payload@.subrange(0, i as int),
            decreases n - i,
        {
            payload.push(self.payload[i]);
            i = i + 1;
        }
        assert(payload@ == self.payload@);
        Transaction {
            sender: self.sender,
            nonce: self.nonce,
            payload,
            signature: self.signature,
        }
    }
}

/// Two byte strings are equal.
pub(crate) fn bytes_equal(a: &[u8], b: &[u8]) -> (r: bool)
    ensures
        r == (a@ == b@),
{
    if a.len() != b.len() {
        return false;
    }
    let mut i: usize = 0;
    while i < a.len()
        invariant
            a@.len() == b@.len(),
            i <= a@.len(),
            forall|j: int| 0 <= j < i ==> a@[j] == b@[j],
        decreases a@.len() - i,
    {
        if a[i] != b[i] {
            return false;
        }
        i = i + 1;
    }
    assert(a@ =~= b@);
    true
}

impl PartialEq for Transaction {
    /// Equal in every field, the signature included.
    fn eq(&self, other: &Transaction) -> (r: bool) {
        self.nonce == other.nonce && bytes_equal(&self.sender, &other.sender) && bytes_equal(
            self.payload.as_slice(),
            other.payload.as_slice(),
        ) && bytes_equal(&self.signature, &other.signature)
    }
}

impl vstd::std_specs::cmp::PartialEqSpecImpl for Transaction {
    open spec fn obeys_eq_spec() -> bool {
        true
    }

    open spec fn eq_spec(&self, other: &Transaction) -> bool {
        self@ == other@
    }
}

impl Eq for Transaction {

}

impl Clone for Transaction {
    fn clone(&self) -> (r: Transaction)
        ensures
            r@ == self@,
    {
        self.duplicate()
    }
}

} // verus!
