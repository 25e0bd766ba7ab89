//! What holds of every sequence of mempool operations, stated over the
//! contents that the operations' contracts describe.

use vstd::prelude::*;

use crate::identity::tx_id;
use crate::model::{
    add_outcome, batch_holds, first_below, holds_id, lemma_filter_all, lemma_filter_wf,
    lemma_first_below_bounds, lemma_insert_wf, model_wf, survives, top, without, Entry, Error,
};
use crate::transaction::TxView;

verus! {

broadcast use vstd::seq_lib::group_filter_ensures;

/// Every submission keeps the contents well formed; in particular the number
/// of entries never exceeds the capacity.
pub proof fn lemma_add_keeps_wf(s: Seq<Entry>, cap: nat, t: TxView, p: u64)
    requires
        model_wf(s, cap),
    ensures
        model_wf(add_outcome(s, cap, t, p).0, cap),
{
    if !holds_id(s, tx_id(t)) && s.len() < cap {
        lemma_insert_wf(s, cap, t, p);
    }
}

/// Every retirement keeps the contents well formed.
pub proof fn lemma_remove_keeps_wf(s: Seq<Entry>, cap: nat, batch: Seq<TxView>)
    requires
        model_wf(s, cap),
    ensures
        model_wf(without(s, batch), cap),
{
    lemma_filter_wf(s, cap, survives(batch));
}

/// Submitting the same transaction twice, with any priority the second time:
/// once the first submission succeeded, the second succeeds and changes
/// nothing, exactly one entry carries the transaction's identity, and no
/// retrieval hands out two entries of one identity.
pub proof fn lemma_duplicate_submission(
    s: Seq<Entry>,
    cap: nat,
    t: TxView,
    p1: u64,
    p2: u64,
    n: nat,
)
    requires
        model_wf(s, cap),
    ensures
        add_outcome(s, cap, t, p1).1 is Ok ==> {
            let s1 = add_outcome(s, cap, t, p1).0;
            &&& add_outcome(s1, cap, t, p2) == (s1, Ok::<(), Error>(()))
            &&& exists|i: int|
                0 <= i < s1.len() && tx_id(#[trigger] s1[i].0) == tx_id(t) && forall|j: int|
                    0 <= j < s1.len() && tx_id(#[trigger] s1[j].0) == tx_id(t) ==> j == i
            &&& forall|a: int, b: int|
                0 <= a < top(s1, n).len() && 0 <= b < top(s1, n).len() && a != b ==> tx_id(
                    #[trigger] top(s1, n)[a],
                ) != tx_id(#[trigger] top(s1, n)[b])
        },
{
    let (s1, r1) = add_outcome(s, cap, t, p1);
    if r1 is Ok {
        lemma_add_keeps_wf(s, cap, t, p1);
        if !holds_id(s, tx_id(t)) {
            lemma_first_below_bounds(s, p1);
            let k = first_below(s, p1);
            assert(tx_id(s1[k].0) == tx_id(t));
        }
        assert(holds_id(s1, tx_id(t)));
        let i = choose|i: int| 0 <= i < s1.len() && tx_id(#[trigger] s1[i].0) == tx_id(t);
        assert(forall|j: int|
            0 <= j < s1.len() && tx_id(#[trigger] s1[j].0) == tx_id(t) ==> j == i);
        let m = top(s1, n);
        assert forall|a: int, b: int|
            0 <= a < m.len() && 0 <= b < m.len() && a != b implies tx_id(#[trigger] m[a]) != tx_id(
            #[trigger] m[b],
        ) by {
            assert(m[a] == s1[a].0);
            assert(m[b] == s1[b].0);
        }
    }
}

/// A mempool that holds as many entries as its capacity refuses every
/// transaction whose identity it does not hold, and its contents stay as
/// they were.
pub proof fn lemma_full_refuses(s: Seq<Entry>, cap: nat, t: TxView, p: u64)
    requires
        model_wf(s, cap),
        s.len() == cap,
        !holds_id(s, tx_id(t)),
    ensures
        add_outcome(s, cap, t, p) == (s, Err::<(), Error>(Error::CapacityExceeded)),
{
}

/// Below capacity, a transaction of a new identity is admitted: the count
/// rises by one, the new entry is held, and every earlier entry stays.
pub proof fn lemma_room_admits(s: Seq<Entry>, cap: nat, t: TxView, p: u64)
    requires
        model_wf(s, cap),
        s.len() < cap,
        !holds_id(s, tx_id(t)),
    ensures
        add_outcome(s, cap, t, p).1 is Ok,
        add_outcome(s, cap, t, p).0.len() == s.len() + 1,
        add_outcome(s, cap, t, p).0.contains((t, p)),
        forall|i: int| 0 <= i < s.len() ==> add_outcome(s, cap, t, p).0.contains(#[trigger] s[i]),
{
    lemma_first_below_bounds(s, p);
    let k = first_below(s, p);
    let s1 = add_outcome(s, cap, t, p).0;
    assert(s1[k] == (t, p));
    assert forall|i: int| 0 <= i < s.len() implies s1.contains(#[trigger] s[i]) by {
        if i < k {
            assert(s1[i] == s[i]);
        } else {
            assert(s1[i + 1] == s[i]);
        }
    }
}

/// With distinct priorities, a retrieval of `n` hands out the first
/// `min(n, count)` entries in strictly descending priority, each of higher
/// priority than every entry left out.
pub proof fn lemma_top_by_priority(s: Seq<Entry>, cap: nat, n: nat)
    requires
        model_wf(s, cap),
        forall|i: int, j: int|
            0 <= i < s.len() && 0 <= j < s.len() && i != j ==> #[trigger] s[i].1 != #[trigger] s[j].1,
    ensures
        top(s, n).len() == if n < s.len() { n } else { s.len() },
        forall|i: int| 0 <= i < top(s, n).len() ==> #[trigger] top(s, n)[i] == s[i].0,
        forall|i: int, j: int|
            0 <= i < top(s, n).len() && i < j < s.len() ==> #[trigger] s[i].1 > #[trigger] s[j].1,
{
    assert forall|i: int, j: int|
        0 <= i < top(s, n).len() && i < j < s.len() implies #[trigger] s[i].1 > #[trigger] s[j].1 by {
        assert(s[i].1 >= s[j].1);
    }
}

/// After a batch is retired, no entry of its identities is left or handed
/// out, and retiring the same batch again changes nothing.
pub proof fn lemma_removal(s: Seq<Entry>, cap: nat, batch: Seq<TxView>, n: nat)
    requires
        model_wf(s, cap),
    ensures
        forall|i: int|
            0 <= i < without(s, batch).len() ==> !batch_holds(
                batch,
                tx_id(#[trigger] without(s, batch)[i].0),
            ),
        forall|i: int|
            0 <= i < top(without(s, batch), n).len() ==> !batch_holds(
                batch,
                tx_id(#[trigger] top(without(s, batch), n)[i]),
            ),
        without(without(s, batch), batch) == without(s, batch),
{
    let s1 = without(s, batch);
    let pred = survives(batch);
    assert forall|i: int| 0 <= i < s1.len() implies !batch_holds(batch, tx_id(#[trigger] s1[i].0)) by {
        assert(pred(s1[i]));
    }
    assert forall|i: int| 0 <= i < s1.len() implies pred(#[trigger] s1[i]) by {
        assert(!batch_holds(batch, tx_id(s1[i].0)));
    }
    lemma_filter_all(s1, pred);
    let m = top(s1, n);
    assert forall|i: int| 0 <= i < m.len() implies !batch_holds(batch, tx_id(#[trigger] m[i])) by {
        assert(m[i] == s1[i].0);
        assert(!batch_holds(batch, tx_id(s1[i].0)));
    }
}

} // verus!
