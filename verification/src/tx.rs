//! Transactions.

use vstd::prelude::*;

verus! {

/// A change to the data of a store, which can be executed again and again: once when it is
/// committed, and once whenever the data is rebuilt from the journal.
pub trait Tx<D, R = ()>: Sized {
    /// May the transaction turn the data `before` into `after` and answer `result`? Unless an
    /// implementation says more, anything may happen.
    open spec fn turns(self, before: D, after: D, result: R) -> bool {
        true
    }

    /// Changes the data.
    fn execute(self, data: &mut D) -> (result: R)
        ensures
            self.turns(*old(data), *final(data), result),
    ;
}

/// May executing `txs` in order lead from the data `before` to `after`? The data between the
/// transactions is `states`.
pub open spec fn passes<D, T: Tx<D>>(txs: Seq<T>, states: Seq<D>, before: D, after: D) -> bool {
    &&& states.len() == txs.len() + 1
    &&& states[0] == before
    &&& states[txs.len() as int] == after
    &&& forall|i: int| 0 <= i < txs.len() ==> (#[trigger] txs[i]).turns(states[i], states[i + 1], ())
}

/// May executing `txs` in order turn the data `before` into `after`?
pub open spec fn runs<D, T: Tx<D>>(txs: Seq<T>, before: D, after: D) -> bool {
    exists|states: Seq<D>| passes(txs, states, before, after)
}

/// Executes the transactions in order.
pub fn execute_all<D, T: Tx<D>>(txs: Vec<T>, data: &mut D)
    ensures
        runs(txs@, *old(data), *final(data)),
{
    let ghost all = txs@;
    let ghost mut states: Seq<D> = seq![*data];
    for tx in iter: txs
        invariant
            iter.seq() == all,
            passes(all.take(iter.index() as int), states, *old(data), *data),
    {
        let ghost before = states;
        let ghost done = iter.index() as int;
        tx.execute(data);
        proof {
            states = states.push(*data);
            assert forall|i: int| 0 <= i < done + 1 implies (#[trigger] all.take(done + 1)[i]).turns(
                states[i],
                states[i + 1],
                (),
            ) by {
                if i < done {
                    assert(all.take(done)[i].turns(before[i], before[i + 1], ()));
                }
            }
        }
    }
    assert(all.take(all.len() as int) =~= all);
}

} // verus!
