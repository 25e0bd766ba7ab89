use vstd::prelude::*;

use crate::identity::tx_id;
use crate::transaction::TxView;

verus! {

/// One pending transaction as the mempool's contracts see it: the
/// transaction and the priority it was submitted with.
pub type Entry = (TxView, u64);

/// The single failure of the mempool.
#[derive(Debug, Clone, Copy, PartialEq, Eq, Structural)]
pub enum Error {
    /// The mempool already holds as many entries as its capacity allows.
    CapacityExceeded,
}

/// Some entry of `s` has identity `id`.
pub open spec fn holds_id(s: Seq<Entry>, id: Seq<u8>) -> bool {
    exists|i: int| 0 <= i < s.len() && tx_id(#[trigger] s[i].0) == id
}

/// Entries run from the highest priority to the lowest.
pub open spec fn by_priority(s: Seq<Entry>) -> bool {
    forall|i: int, j: int| 0 <= i < j < s.len() ==> #[trigger] s[i].1 >= #[trigger] s[j].1
}

/// No two entries share an identity.
pub open spec fn ids_unique(s: Seq<Entry>) -> bool {
    forall|i: int, j: int|
        0 <= i < s.len() && 0 <= j < s.len() && i != j ==> tx_id(#[trigger] s[i].0) != tx_id(
            #[trigger] s[j].0,
        )
}

/// What holds of the contents of every mempool of capacity `cap`.
pub open spec fn model_wf(s: Seq<Entry>, cap: nat) -> bool {
    &&& s.len() <= cap
    &&& by_priority(s)
    &&& ids_unique(s)
}

/// The index of the first entry whose priority is below `p` (the length of
/// `s` when there is none): where an entry of priority `p` is placed, after
/// every entry of equal or higher priority.
pub open spec fn first_below(s: Seq<Entry>, p: u64) -> int
    decreases s.len(),
{
    if s.len() == 0 || s[0].1 < p {
        0
    } else {
        1 + first_below(s.drop_first(), p)
    }
}

/// The contents after submitting `t` with priority `p`, and the outcome of
/// the submission.
pub open spec fn add_outcome(s: Seq<Entry>, cap: nat, t: TxView, p: u64) -> (Seq<Entry>, Result<(), Error>) {
    if holds_id(s, tx_id(t)) {
        (s, Ok(()))
    } else if s.len() >= cap {
        (s, Err(Error::CapacityExceeded))
    } else {
        (s.insert(first_below(s, p), (t, p)), Ok(()))
    }
}

/// The transactions of the first `n` entries (all of them when there are
/// fewer), in order.
pub open spec fn top(s: Seq<Entry>, n: nat) -> Seq<TxView> {
    let m = if n < s.len() { n as int } else { s.len() as int };
    s.subrange(0, m).map_values(|e: Entry| e.0)
}

/// Some transaction of `batch` has identity `id`.
pub open spec fn batch_holds(batch: Seq<TxView>, id: Seq<u8>) -> bool {
    exists|j: int| 0 <= j < batch.len() && tx_id(#[trigger] batch[j]) == id
}

/// Whether an entry survives the retirement of `batch`.
pub open spec fn survives(batch: Seq<TxView>) -> spec_fn(Entry) -> bool {
    |e: Entry| !batch_holds(batch, tx_id(e.0))
}

/// The contents after retiring every entry whose identity is that of a
/// transaction of `batch`; the order of the others is kept.
pub open spec fn without(s: Seq<Entry>, batch: Seq<TxView>) -> Seq<Entry> {
    s.filter(survives(batch))
}

/// `first_below` is the index that a scan from the front stops at.
pub proof fn lemma_first_below(s: Seq<Entry>, p: u64, k: int)
    requires
        0 <= k <= s.len(),
        forall|j: int| 0 <= j < k ==> #[trigger] s[j].1 >= p,
        k == s.len() || s[k].1 < p,
    ensures
        first_below(s, p) == k,
    decreases k,
{
    if k > 0 {
        let t = s.drop_first();
        assert forall|j: int| 0 <= j < k - 1 implies #[trigger] t[j].1 >= p by {
            assert(t[j] == s[j + 1]);
        }
        if k < s.len() {
            assert(t[k - 1] == s[k]);
        }
        lemma_first_below(t, p, k - 1);
    }
}

/// Every entry before `first_below` has priority at least `p`, and the entry
/// at it, if any, has a lower one.
pub proof fn lemma_first_below_bounds(s: Seq<Entry>, p: u64)
    ensures
        0 <= first_below(s, p) <= s.len(),
        forall|j: int| 0 <= j < first_below(s, p) ==> #[trigger] s[j].1 >= p,
        first_below(s, p) < s.len() ==> s[first_below(s, p)].1 < p,
    decreases s.len(),
{
    if s.len() > 0 && s[0].1 >= p {
        let t = s.drop_first();
        lemma_first_below_bounds(t, p);
        assert forall|j: int| 0 <= j < first_below(s, p) implies #[trigger] s[j].1 >= p by {
            if j > 0 {
                assert(s[j] == t[j - 1]);
            }
        }
        if first_below(s, p) < s.len() {
            assert(s[first_below(s, p)] == t[first_below(t, p)]);
        }
    }
}

/// Placing a new identity at `first_below` keeps the contents well formed.
pub proof fn lemma_insert_wf(s: Seq<Entry>, cap: nat, t: TxView, p: u64)
    requires
        model_wf(s, cap),
        s.len() < cap,
        !holds_id(s, tx_id(t)),
    ensures
        model_wf(s.insert(first_below(s, p), (t, p)), cap),
{
    lemma_first_below_bounds(s, p);
    let k = first_below(s, p);
    let ns = s.insert(k, (t, p));
    assert forall|a: int, b: int| 0 <= a < b < ns.len() implies #[trigger] ns[a].1
        >= #[trigger] ns[b].1 by {
        if b <= k {
        } else if a < k {
            assert(s[a].1 >= p);
            assert(s[k].1 < p);
        } else if a == k {
            assert(s[k].1 >= s[b - 1].1);
        }
    }
    assert forall|a: int, b: int|
        0 <= a < ns.len() && 0 <= b < ns.len() && a != b implies tx_id(#[trigger] ns[a].0)
        != tx_id(#[trigger] ns[b].0) by {
        if a == k {
            assert(ns[b] == s[if b < k { b } else { b - 1 }]);
        } else if b == k {
            assert(ns[a] == s[if a < k { a } else { a - 1 }]);
        } else {
            assert(ns[a] == s[if a < k { a } else { a - 1 }]);
            assert(ns[b] == s[if b < k { b } else { b - 1 }]);
        }
    }
}

/// Every entry that a filter keeps comes from the filtered sequence.
pub proof fn lemma_filter_from(s: Seq<Entry>, pred: spec_fn(Entry) -> bool, i: int)
    requires
        0 <= i < s.filter(pred).len(),
    ensures
        exists|j: int| 0 <= j < s.len() && s[j] == s.filter(pred)[i],
    decreases s.len(),
{
    reveal(Seq::filter);
    let f = s.filter(pred);
    let g = s.drop_last().filter(pred);
    if i < g.len() {
        lemma_filter_from(s.drop_last(), pred, i);
        let j = choose|j: int| 0 <= j < s.drop_last().len() && s.drop_last()[j] == g[i];
        assert(s[j] == f[i]);
    } else {
        assert(f[i] == s[s.len() - 1]);
    }
}

/// Retiring entries keeps the contents well formed.
pub proof fn lemma_filter_wf(s: Seq<Entry>, cap: nat, pred: spec_fn(Entry) -> bool)
    requires
        model_wf(s, cap),
    ensures
        model_wf(s.filter(pred), cap),
    decreases s.len(),
{
    reveal(Seq::filter);
    s.lemma_filter_len(pred);
    if s.len() > 0 {
        let d = s.drop_last();
        let g = d.filter(pred);
        assert(model_wf(d, cap));
        lemma_filter_wf(d, cap, pred);
        if pred(s.last()) {
            let f = g.push(s.last());
            assert forall|i: int| 0 <= i < g.len() implies f[i].1 >= s.last().1 && tx_id(f[i].0)
                != tx_id(s.last().0) by {
                lemma_filter_from(d, pred, i);
                let j = choose|j: int| 0 <= j < d.len() && d[j] == g[i];
                assert(s[j] == d[j]);
            }
            assert(by_priority(f));
            assert(ids_unique(f));
        }
    }
}

/// A filter that keeps every entry changes nothing.
pub proof fn lemma_filter_all(s: Seq<Entry>, pred: spec_fn(Entry) -> bool)
    requires
        forall|i: int| 0 <= i < s.len() ==> pred(#[trigger] s[i]),
    ensures
        s.filter(pred) == s,
    decreases s.len(),
{
    reveal(Seq::filter);
    if s.len() > 0 {
        lemma_filter_all(s.drop_last(), pred);
        assert(s.drop_last().push(s.last()) =~= s);
    }
}

/// Filtering one more element of a prefix.
pub proof fn lemma_filter_step(s: Seq<Entry>, pred: spec_fn(Entry) -> bool, i: int)
    requires
        0 <= i < s.len(),
    ensures
        s.subrange(0, i + 1).filter(pred) == if pred(s[i]) {
            s.subrange(0, i).filter(pred).push(s[i])
        } else {
            s.subrange(0, i).filter(pred)
        },
{
    reveal(Seq::filter);
    assert(s.subrange(0, i + 1).drop_last() =~= s.subrange(0, i));
}

} // verus!
