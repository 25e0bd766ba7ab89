use vstd::prelude::*;

use crate::identity::{hash_tx, tx_id};
use crate::model::{
    add_outcome, batch_holds, holds_id, lemma_filter_step, lemma_filter_wf, lemma_first_below, lemma_insert_wf,
    model_wf, survives, top, without, Entry, Error,
};
use crate::transaction::{bytes_equal, Transaction, TxView};

verus! {

/// A transaction held by the mempool, with its admission time and priority.
#[derive(Debug)]
pub struct MempoolTx {
    /// The transaction itself.
    pub transaction: Transaction,
    /// Seconds since the Unix epoch at admission; not used for ordering.
    pub timestamp: u64,
    /// Priority score; higher is more urgent.
    pub priority: u64,
}

impl Clone for MempoolTx {
    fn clone(&self) -> (r: MempoolTx)
        ensures
            r.transaction@ == self.transaction@,
            r.timestamp == self.timestamp,
            r.priority == self.priority,
    {
        MempoolTx {
            transaction: self.transaction.clone(),
            timestamp: self.timestamp,
            priority: self.priority,
        }
    }
}

impl PartialEq for MempoolTx {
    /// Two entries are equal when they hold equal transactions.
    fn eq(&self, other: &MempoolTx) -> (r: bool) {
        self.transaction == other.transaction
    }
}

impl vstd::std_specs::cmp::PartialEqSpecImpl for MempoolTx {
    open spec fn obeys_eq_spec() -> bool {
        true
    }

    open spec fn eq_spec(&self, other: &MempoolTx) -> bool {
        self.transaction@ == other.transaction@
    }
}

impl Eq for MempoolTx {

}

impl PartialOrd for MempoolTx {
    /// Orders by priority alone, the higher priority first.
    fn partial_cmp(&self, other: &MempoolTx) -> (r: Option<std::cmp::Ordering>) {
        if self.priority > other.priority {
            Some(std::cmp::Ordering::Less)
        } else if self.priority < other.priority {
            Some(std::cmp::Ordering::Greater)
        } else {
            Some(std::cmp::Ordering::Equal)
        }
    }
}

impl vstd::std_specs::cmp::PartialOrdSpecImpl for MempoolTx {
    open spec fn obeys_partial_cmp_spec() -> bool {
        true
    }

    open spec fn partial_cmp_spec(&self, other: &MempoolTx) -> Option<std::cmp::Ordering> {
        if self.priority > other.priority {
            Some(std::cmp::Ordering::Less)
        } else if self.priority < other.priority {
            Some(std::cmp::Ordering::Greater)
        } else {
            Some(std::cmp::Ordering::Equal)
        }
    }
}

/// Relies on std::time::SystemTime::elapsed, on the Unix epoch: the whole
/// seconds since then (0 for a clock set before it). Nothing is promised of
/// the value.
#[verifier::external_body]
fn unix_time_secs() -> (r: u64) {
    match std::time::UNIX_EPOCH.elapsed() {
        Ok(d) => d.as_secs(),
        Err(_) => 0,
    }
}

/// Some digest of `ds` equals `d`.
fn contains_digest(ds: &Vec<[u8; 32]>, d: &[u8; 32]) -> (r: bool)
    ensures
        r == exists|j: int| 0 <= j < ds@.len() && (#[trigger] ds@[j])@ == d@,
{
    let mut i: usize = 0;
    while i < ds.len()
        invariant
            i <= ds@.len(),
            forall|j: int| 0 <= j < i ==> (#[trigger] ds@[j])@ != d@,
        decreases ds@.len() - i,
    {
        if bytes_equal(&ds[i], d) {
            return true;
        }
        i = i + 1;
    }
    false
}

/// A bounded set of pending transactions, kept from the highest priority to
/// the lowest, with at most one entry per transaction identity.
///
/// The entries and their identity digests are held side by side and updated
/// together: retiring a transaction removes it from both at once.
pub struct Mempool {
    entries: Vec<MempoolTx>,
    ids: Vec<[u8; 32]>,
    max_size: usize,
}

impl View for Mempool {
    type V = Seq<Entry>;

    closed spec fn view(&self) -> Seq<Entry> {
        self.entries@.map_values(|e: MempoolTx| (e.transaction@, e.priority))
    }
}

impl Mempool {
    /// The largest number of entries the mempool holds.
    pub closed spec fn capacity(&self) -> nat {
        self.max_size as nat
    }

    /// Each stored digest is the identity of the entry beside it.
    pub closed spec fn ids_match(&self) -> bool {
        &&& self.ids@.len() == self.entries@.len()
        &&& forall|i: int|
            0 <= i < self.ids@.len() ==> (#[trigger] self.ids@[i])@ == tx_id(
                self.entries@[i].transaction@,
            )
    }

    /// The mempool is well formed.
    pub open spec fn wf(&self) -> bool {
        &&& self.ids_match()
        &&& model_wf(self@, self.capacity())
    }

    /// An empty mempool that holds at most `max_size` entries.
    pub fn new(max_size: usize) -> (r: Self)
        ensures
            r.wf(),
            r@ == Seq::<Entry>::empty(),
            r.capacity() == max_size,
    {
        let r = Mempool { entries: Vec::new(), ids: Vec::new(), max_size };
        assert(r@ =~= Seq::<Entry>::empty());
        r
    }

    /// The largest number of entries the mempool holds.
    pub fn max_size(&self) -> (r: usize)
        ensures
            r == self.capacity(),
    {
        self.max_size
    }

    /// The number of entries held.
    pub fn len(&self) -> (r: usize)
        requires
            self.wf(),
        ensures
            r == self@.len(),
    {
        self.entries.len()
    }

    /// Submits `tx` with `priority`. A transaction whose identity is already
    /// held is accepted and changes nothing; otherwise a full mempool refuses
    /// it, and one with room places it after every entry of equal or higher
    /// priority.
    pub fn add_tx(&mut self, tx: Transaction, priority: u64) -> (r: Result<(), Error>)
        requires
            old(self).wf(),
        ensures
            final(self).wf(),
            final(self).capacity() == old(self).capacity(),
            (final(self)@, r) == add_outcome(old(self)@, old(self).capacity(), tx@, priority),
    {
        let id = hash_tx(&tx);
        let ghost s = self@;
        let mut i: usize = 0;
        while i < self.ids.len()
            invariant
                self.wf(),
                self@ == s,
                id@ == tx_id(tx@),
                i <= self.ids@.len(),
                forall|j: int| 0 <= j < i ==> (#[trigger] self.ids@[j])@ != id@,
            decreases self.ids@.len() - i,
        {
            if bytes_equal(&self.ids[i], &id) {
                assert(tx_id(s[i as int].0) == tx_id(tx@));
                return Ok(());
            }
            i = i + 1;
        }
        assert(!holds_id(s, tx_id(tx@))) by {
            assert forall|j: int| 0 <= j < s.len() implies tx_id(#[trigger] s[j].0) != tx_id(
                tx@,
            ) by {
                assert(self.ids@[j]@ != id@);
            }
        }
        if self.entries.len() >= self.max_size {
            return Err(Error::CapacityExceeded);
        }
        let mut k: usize = 0;
        while k < self.entries.len() && self.entries[k].priority >= priority
            invariant
                self@ == s,
                self.entries@.len() == s.len(),
                k <= s.len(),
                forall|j: int| 0 <= j < k ==> #[trigger] s[j].1 >= priority,
            decreases s.len() - k,
        {
            k = k + 1;
        }
        proof {
            lemma_first_below(s, priority, k as int);
        }
        let ghost tv: TxView = tx@;
        let timestamp = unix_time_secs();
        let entry = MempoolTx { transaction: tx, timestamp, priority };
        let ghost old_entries = self.entries@;
        let ghost old_ids = self.ids@;
        self.entries.insert(k, entry);
        self.ids.insert(k, id);
        let ghost ns = s.insert(k as int, (tv, priority));
        assert(self@ =~= ns);
        assert forall|i: int| 0 <= i < self.ids@.len() implies (#[trigger] self.ids@[i])@ == tx_id(
            self.entries@[i].transaction@,
        ) by {
            if i < k {
                assert(self.ids@[i] == old_ids[i]);
                assert(self.entries@[i] == old_entries[i]);
            } else if i > k {
                assert(self.ids@[i] == old_ids[i - 1]);
                assert(self.entries@[i] == old_entries[i - 1]);
            }
        }
        proof {
            lemma_insert_wf(s, self.capacity(), tv, priority);
        }
        Ok(())
    }

    /// Copies of the transactions of the first `n` entries (all of them when
    /// fewer are held), from the highest priority down. The mempool is left
    /// as it is, so two calls with no change between them give the same
    /// sequence.
    pub fn get_top(&self, n: usize) -> (r: Vec<Transaction>)
        requires
            self.wf(),
        ensures
            r@.map_values(|t: Transaction| t@) == top(self@, n as nat),
    {
        let m: usize = if n < self.entries.len() {
            n
        } else {
            self.entries.len()
        };
        let mut r: Vec<Transaction> = Vec::with_capacity(m);
        let mut i: usize = 0;
        while i < m
            invariant
                m <= self.entries@.len(),
                m == (if n < self@.len() { n as int } else { self@.len() as int }),
                i <= m,
                r@.len() == i,
                r@.map_values(|t: Transaction| t@) =~= self@.subrange(0, i as int).map_values(
                    |e: Entry| e.0,
                ),
            decreases m - i,
        {
            let ghost before = r@;
            r.push(self.entries[i].transaction.clone());
            assert(self@[i as int].0 == self.entries@[i as int].transaction@);
            assert(self@.subrange(0, i + 1) =~= self@.subrange(0, i as int).push(self@[i as int]));
            assert(r@ =~= before.push(r@[i as int]));
            assert(r@[i as int]@ == self@[i as int].0);
            assert(r@.map_values(|t: Transaction| t@) =~= before.map_values(|t: Transaction| t@).push(
                self@[i as int].0,
            ));
            assert(r@.map_values(|t: Transaction| t@) =~= self@.subrange(0, i + 1).map_values(
                |e: Entry| e.0,
            ));
            i = i + 1;
        }
        r
    }

    /// Retires every entry whose identity is that of a transaction of `txs`.
    /// Transactions that are not held are skipped; the order of the other
    /// entries is kept.
    pub fn remove_included(&mut self, txs: &[Transaction])
        requires
            old(self).wf(),
        ensures
            final(self).wf(),
            final(self).capacity() == old(self).capacity(),
            final(self)@ == without(old(self)@, txs@.map_values(|t: Transaction| t@)),
    {
        let ghost batch = txs@.map_values(|t: Transaction| t@);
        let mut gone: Vec<[u8; 32]> = Vec::with_capacity(txs.len());
        let mut b: usize = 0;
        while b < txs.len()
            invariant
                b <= txs@.len(),
                gone@.len() == b,
                forall|j: int| 0 <= j < b ==> (#[trigger] gone@[j])@ == tx_id(txs@[j]@),
            decreases txs@.len() - b,
        {
            gone.push(hash_tx(&txs[b]));
            b = b + 1;
        }
        let ghost s = self@;
        let ghost pred = survives(batch);
        let mut entries: Vec<MempoolTx> = Vec::new();
        let mut ids: Vec<[u8; 32]> = Vec::new();
        let mut i: usize = 0;
        while i < self.entries.len()
            invariant
                self.wf(),
                self@ == s,
                pred == survives(batch),
                i <= s.len(),
                gone@.len() == batch.len(),
                forall|j: int| 0 <= j < batch.len() ==> (#[trigger] gone@[j])@ == tx_id(batch[j]),
                entries@.map_values(|e: MempoolTx| (e.transaction@, e.priority)) == s.subrange(
                    0,
                    i as int,
                ).filter(pred),
                ids@.len() == entries@.len(),
                entries@.len() == s.subrange(0, i as int).filter(pred).len(),
                forall|j: int|
                    0 <= j < ids@.len() ==> (#[trigger] ids@[j])@ == tx_id(
                        entries@[j].transaction@,
                    ),
            decreases s.len() - i,
        {
            proof {
                lemma_filter_step(s, pred, i as int);
            }
            let hit = contains_digest(&gone, &self.ids[i]);
            assert(self.ids@[i as int]@ == tx_id(s[i as int].0));
            assert(pred == survives(batch));
            assert(survives(batch)(s[i as int]) == !batch_holds(batch, tx_id(s[i as int].0)));
            assert(pred(s[i as int]) == !batch_holds(batch, tx_id(s[i as int].0)));
            if hit {
                assert(batch_holds(batch, tx_id(s[i as int].0)));
            } else {
                assert(!batch_holds(batch, tx_id(s[i as int].0))) by {
                    assert forall|j: int| 0 <= j < batch.len() implies tx_id(#[trigger] batch[j])
                        != tx_id(s[i as int].0) by {
                        assert(gone@[j]@ == tx_id(batch[j]));
                    }
                }
                let ghost before = entries@;
                entries.push(self.entries[i].clone());
                ids.push(self.ids[i]);
                assert(entries@.map_values(|e: MempoolTx| (e.transaction@, e.priority))
                    =~= before.map_values(|e: MempoolTx| (e.transaction@, e.priority)).push(
                    s[i as int],
                ));
            }
            i = i + 1;
        }
        assert(s.subrange(0, s.len() as int) =~= s);
        proof {
            lemma_filter_wf(s, self.capacity(), pred);
        }
        self.entries = entries;
        self.ids = ids;
    }
}

} // verus!
