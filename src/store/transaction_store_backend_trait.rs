use vstd::prelude::*;
use crate::address::Address;
use crate::hashmap::{entries_map, keys_of};
use crate::transaction_output::TransactionOutput;

verus! {

/// What the store keeps of an unspent output: its value and, when its script
/// has one of the two templates, its address.
pub type OutputRecord = (u64, Option<Address>);

/// The sum of the values of a list of outputs.
pub open spec fn value_sum(s: Seq<(TransactionOutput, u64)>) -> int
    decreases s.len(),
{
    if s.len() == 0 {
        0
    } else {
        value_sum(s.drop_last()) + s.last().1
    }
}

/// `total` capped at the largest `u64`.
pub open spec fn capped(total: int) -> u64 {
    if total > u64::MAX {
        u64::MAX
    } else {
        total as u64
    }
}

/// `s` lists each output of `m` once, with its value.
pub open spec fn lists(s: Seq<(TransactionOutput, u64)>, m: Map<TransactionOutput, u64>) -> bool {
    keys_of(s).no_duplicates() && entries_map(s) == m
}

/// Sums a list of outputs, capped at the largest `u64`.
pub fn sum_values(outputs: &Vec<(TransactionOutput, u64)>) -> (r: u64)
    ensures
        r == capped(value_sum(outputs@)),
{
    let mut sum: u64 = 0;
    let mut i: usize = 0;
    let mut saturated = false;
    while i < outputs.len()
        invariant
            i <= outputs@.len(),
            saturated ==> value_sum(outputs@.subrange(0, i as int)) > u64::MAX && sum == u64::MAX,
            !saturated ==> value_sum(outputs@.subrange(0, i as int)) == sum as int,
            value_sum(outputs@.subrange(0, i as int)) >= 0,
        decreases outputs@.len() - i,
    {
        assert(outputs@.subrange(0, i + 1).drop_last() =~= outputs@.subrange(0, i as int));
        let value = outputs[i].1;
        if !saturated {
            if sum > u64::MAX - value {
                saturated = true;
                sum = u64::MAX;
            } else {
                sum = sum + value;
            }
        }
        i = i + 1;
    }
    assert(outputs@.subrange(0, outputs@.len() as int) =~= outputs@);
    sum
}

/// Read access to the outputs that each address owns.
pub trait ReadonlyTransactionStoreBackendTrait {
    spec fn readable(&self) -> bool;

    /// The unspent outputs that pay to `address`, with their values.
    spec fn outputs_of(&self, address: Address) -> Map<TransactionOutput, u64>;

    /// Lists the unspent outputs of `address`, each once, in no particular order.
    fn transaction_outputs(&self, address: &Address) -> (r: Vec<(TransactionOutput, u64)>)
        requires
            self.readable(),
        ensures
            lists(r@, self.outputs_of(*address)),
    ;

    /// The sum of the values of the unspent outputs of `address`.
    fn balance(&self, address: &Address) -> (r: u64)
        requires
            self.readable(),
        ensures
            exists|s: Seq<(TransactionOutput, u64)>|
                lists(s, self.outputs_of(*address)) && r == capped(value_sum(s)),
    {
        let outputs = self.transaction_outputs(address);
        sum_values(&outputs)
    }
}

/// The capability that turns blocks into changes of an output index.
pub trait TransactionStoreBackendTrait {
    spec fn wf(&self) -> bool;

    /// The outputs that this backend sees as unspent.
    spec fn unspent(&self) -> Map<TransactionOutput, OutputRecord>;

    /// The outputs that this backend was asked to spend and did not know, in order.
    spec fn unknown_spends(&self) -> Seq<TransactionOutput>;

    /// Whether this backend records spends of outputs that it does not know.
    spec fn records_unknown_spends(&self) -> bool;

    /// The outputs of the base that this backend lays over; empty for a
    /// backend that owns all its state. No operation changes it.
    spec fn underlying(&self) -> Map<TransactionOutput, OutputRecord>;

    fn has_transaction_output(&self, txo: &TransactionOutput) -> (r: bool)
        requires
            self.wf(),
        ensures
            r == self.unspent().contains_key(*txo),
    ;

    /// Spends `txo`, and returns whether it was unspent.
    fn spend_transaction_output(&mut self, txo: &TransactionOutput) -> (r: bool)
        requires
            old(self).wf(),
        ensures
            final(self).wf(),
            r == old(self).unspent().contains_key(*txo),
            final(self).unspent() == old(self).unspent().remove(*txo),
            final(self).records_unknown_spends() == old(self).records_unknown_spends(),
            final(self).underlying() == old(self).underlying(),
            final(self).unknown_spends() == if r || !old(self).records_unknown_spends() {
                old(self).unknown_spends()
            } else {
                old(self).unknown_spends().push(*txo)
            },
    ;

    /// Adds `txo` as unspent, paying `value` to `address`.
    fn add_transaction_output(&mut self, txo: TransactionOutput, address: Option<Address>, value: u64)
        requires
            old(self).wf(),
        ensures
            final(self).wf(),
            final(self).unspent() == old(self).unspent().insert(txo, (value, address)),
            final(self).records_unknown_spends() == old(self).records_unknown_spends(),
            final(self).underlying() == old(self).underlying(),
            final(self).unknown_spends() == old(self).unknown_spends(),
    ;
}

} // verus!
