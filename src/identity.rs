use sha2::Digest;
use vstd::prelude::*;

use crate::transaction::{Transaction, TxView};

verus! {

/// The SHA-256 digest of a byte string.
pub uninterp spec fn sha256_of(data: Seq<u8>) -> Seq<u8>;

/// Relies on sha2::Sha256::digest: it hashes the given bytes into 32 bytes,
/// and the digest depends on those bytes alone.
#[verifier::external_body]
fn sha256(data: &[u8]) -> (r: [u8; 32])
    ensures
        r@ == sha256_of(data@),
{
    sha2::Sha256::digest(data).into()
}

/// The eight bytes of `n`, least significant first.
pub open spec fn le_bytes(n: u64) -> Seq<u8> {
    Seq::new(8, |i: int| (n >> ((8 * i) as u64)) as u8)
}

/// The bytes that identify a transaction: sender, then the nonce in
/// little-endian order, then the payload. The signature takes no part, so a
/// re-signed copy of a transaction has the same identity.
pub open spec fn identity_bytes(t: TxView) -> Seq<u8> {
    t.0 + le_bytes(t.1) + t.2
}

/// The identity digest of a transaction.
pub open spec fn tx_id(t: TxView) -> Seq<u8> {
    sha256_of(identity_bytes(t))
}

/// Computes the identity digest of a transaction.
pub fn hash_tx(tx: &Transaction) -> (r: [u8; 32])
    ensures
        r@ == tx_id(tx@),
{
    let mut bytes: Vec<u8> = Vec::new();
    let mut i: usize = 0;
    while i < 32
        invariant
            i <= 32,
            bytes@ == tx.sender@.subrange(0, i as int),
        decreases 32 - i,
    {
        bytes.push(tx.sender[i]);
        i = i + 1;
    }
    assert(bytes@ == tx.sender@);
    let mut k: u64 = 0;
    while k < 8
        invariant
            k <= 8,
            bytes@ == tx.sender@ + le_bytes(tx.nonce).subrange(0, k as int),
        decreases 8 - k,
    {
        bytes.push((tx.nonce >> (8 * k)) as u8);
        assert(le_bytes(tx.nonce).subrange(0, k as int + 1) =~= le_bytes(tx.nonce).subrange(
            0,
            k as int,
        ).push((tx.nonce >> (8 * k)) as u8));
        k = k + 1;
    }
    assert(le_bytes(tx.nonce).subrange(0, 8) =~= le_bytes(tx.nonce));
    let n = tx.payload.len();
    let mut j: usize = 0;
    while j < n
        invariant
            n == tx.payload@.len(),
            j <= n,
            bytes@ == tx.sender@ + le_bytes(tx.nonce) + tx.payload@.subrange(0, j as int),
        decreases n - j,
    {
        bytes.push(tx.payload[j]);
        assert(tx.payload@.subrange(0, j as int + 1) =~= tx.payload@.subrange(0, j as int).push(
            tx.payload@[j as int],
        ));
        j = j + 1;
    }
    assert(tx.payload@.subrange(0, n as int) =~= tx.payload@);
    assert(bytes@ == identity_bytes(tx@));
    sha256(bytes.as_slice())
}

} // verus!
