//! A bounded staging area for pending transactions: duplicate submissions are
//! absorbed, the number of entries is capped, the highest-priority entries are
//! handed out first, and committed transactions are retired.

mod identity;
mod laws;
mod mempool;
mod model;
mod transaction;

pub use identity::{hash_tx, identity_bytes, le_bytes, sha256_of, tx_id};
pub use laws::{
    lemma_add_keeps_wf, lemma_duplicate_submission, lemma_full_refuses, lemma_remove_keeps_wf,
    lemma_removal, lemma_room_admits, lemma_top_by_priority,
};
pub use mempool::{Mempool, MempoolTx};
pub use model::{
    add_outcome, batch_holds, by_priority, first_below, holds_id, ids_unique, model_wf, survives,
    top, without, Entry, Error,
};
pub use transaction::{Transaction, TxView};
