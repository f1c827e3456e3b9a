use vstd::prelude::*;
use crate::address::{script_recipient, Address};
use crate::hashmap::{entries_map, keys_of};
use crate::store::transaction_store_backend::{lemma_prefix_map, IntermediaryTransactionStoreBackend};
use crate::store::transaction_store_backend_trait::{
    capped, lists, value_sum, OutputRecord, ReadonlyTransactionStoreBackendTrait, TransactionStoreBackendTrait,
};
use crate::transaction::{transaction_wf, Output, Transaction};
use crate::transaction_output::{is_coinbase_input, TransactionOutput};

verus! {

/// An OP_RETURN script: provably unspendable, so never indexed.
pub open spec fn is_op_return(script: Seq<u8>) -> bool {
    script.len() > 0 && script[0] == 0x6a
}

/// The unspent outputs after spending `inputs` in order; the coinbase input
/// spends nothing.
pub open spec fn spend_all(
    m: Map<TransactionOutput, OutputRecord>,
    inputs: Seq<TransactionOutput>,
) -> Map<TransactionOutput, OutputRecord>
    decreases inputs.len(),
{
    if inputs.len() == 0 {
        m
    } else {
        let before = spend_all(m, inputs.drop_last());
        if is_coinbase_input(inputs.last()) {
            before
        } else {
            before.remove(inputs.last())
        }
    }
}

/// The inputs, but the coinbase one, that were not unspent when their turn
/// came: what a staging store records for a later merge.
pub open spec fn unknown_inputs(m: Map<TransactionOutput, OutputRecord>, inputs: Seq<TransactionOutput>) -> Seq<
    TransactionOutput,
>
    decreases inputs.len(),
{
    if inputs.len() == 0 {
        Seq::empty()
    } else {
        let before = unknown_inputs(m, inputs.drop_last());
        if is_coinbase_input(inputs.last()) || spend_all(m, inputs.drop_last()).contains_key(inputs.last()) {
            before
        } else {
            before.push(inputs.last())
        }
    }
}

/// The unknown inputs of each transaction in turn.
pub open spec fn unknown_in_transactions(m: Map<TransactionOutput, OutputRecord>, txs: Seq<Transaction>) -> Seq<
    TransactionOutput,
>
    decreases txs.len(),
{
    if txs.len() == 0 {
        Seq::empty()
    } else {
        unknown_in_transactions(m, txs.drop_last()) + unknown_inputs(apply_transactions(m, txs.drop_last()), txs.last().inputs@)
    }
}

/// Each input but the coinbase one was unspent when its turn came.
pub open spec fn inputs_known(m: Map<TransactionOutput, OutputRecord>, inputs: Seq<TransactionOutput>) -> bool
    decreases inputs.len(),
{
    if inputs.len() == 0 {
        true
    } else {
        &&& inputs_known(m, inputs.drop_last())
        &&& (is_coinbase_input(inputs.last()) || spend_all(m, inputs.drop_last()).contains_key(inputs.last()))
    }
}

/// The unspent outputs after adding the outputs of transaction `hash`; each
/// is keyed by its index, and OP_RETURN outputs are left out.
pub open spec fn add_all(
    m: Map<TransactionOutput, OutputRecord>,
    hash: [u8; 32],
    outputs: Seq<Output>,
) -> Map<TransactionOutput, OutputRecord>
    decreases outputs.len(),
{
    if outputs.len() == 0 {
        m
    } else {
        let before = add_all(m, hash, outputs.drop_last());
        let o = outputs.last();
        if is_op_return(o.script@) {
            before
        } else {
            before.insert(
                TransactionOutput { hash, index: (outputs.len() - 1) as u32 },
                (o.value, script_recipient(o.script@)),
            )
        }
    }
}

/// The unspent outputs after a transaction: its inputs are spent, then its
/// outputs are added.
pub open spec fn apply_transaction(m: Map<TransactionOutput, OutputRecord>, tx: Transaction) -> Map<
    TransactionOutput,
    OutputRecord,
> {
    add_all(spend_all(m, tx.inputs@), tx.hash, tx.outputs@)
}

/// The unspent outputs after the transactions, in order.
pub open spec fn apply_transactions(m: Map<TransactionOutput, OutputRecord>, txs: Seq<Transaction>) -> Map<
    TransactionOutput,
    OutputRecord,
>
    decreases txs.len(),
{
    if txs.len() == 0 {
        m
    } else {
        apply_transaction(apply_transactions(m, txs.drop_last()), txs.last())
    }
}

/// Each transaction's inputs were unspent when it came.
pub open spec fn transactions_known(m: Map<TransactionOutput, OutputRecord>, txs: Seq<Transaction>) -> bool
    decreases txs.len(),
{
    if txs.len() == 0 {
        true
    } else {
        transactions_known(m, txs.drop_last()) && inputs_known(
            apply_transactions(m, txs.drop_last()),
            txs.last().inputs@,
        )
    }
}

pub open spec fn transactions_wf(txs: Seq<Transaction>) -> bool {
    forall|i: int| 0 <= i < txs.len() ==> transaction_wf(#[trigger] txs[i])
}

/// The OP_RETURN output of a transaction never enters the unspent outputs
/// that it leaves, unless it was there before.
pub proof fn lemma_op_return_not_added(
    m: Map<TransactionOutput, OutputRecord>,
    hash: [u8; 32],
    outputs: Seq<Output>,
    i: int,
)
    requires
        0 <= i < outputs.len(),
        outputs.len() <= u32::MAX,
        is_op_return(outputs[i].script@),
        !m.contains_key(TransactionOutput { hash, index: i as u32 }),
    ensures
        !add_all(m, hash, outputs).contains_key(TransactionOutput { hash, index: i as u32 }),
    decreases outputs.len(),
{
    if i < outputs.len() - 1 {
        lemma_op_return_not_added(m, hash, outputs.drop_last(), i);
    } else {
        assert(outputs.last() == outputs[i]);
        lemma_added_only_own(m, hash, outputs.drop_last(), TransactionOutput { hash, index: i as u32 });
    }
}

/// Adding the outputs of a transaction only adds outpoints of that
/// transaction with an index below the number of outputs.
pub proof fn lemma_added_only_own(
    m: Map<TransactionOutput, OutputRecord>,
    hash: [u8; 32],
    outputs: Seq<Output>,
    txo: TransactionOutput,
)
    requires
        outputs.len() <= u32::MAX + 1,
        !m.contains_key(txo),
        txo.hash != hash || txo.index >= outputs.len(),
    ensures
        !add_all(m, hash, outputs).contains_key(txo),
    decreases outputs.len(),
{
    if outputs.len() > 0 {
        lemma_added_only_own(m, hash, outputs.drop_last(), txo);
    }
}

/// Spending inputs only removes outputs.
pub proof fn lemma_spend_all_removes_only(m: Map<TransactionOutput, OutputRecord>, inputs: Seq<TransactionOutput>, t: TransactionOutput)
    requires
        !m.contains_key(t),
    ensures
        !spend_all(m, inputs).contains_key(t),
    decreases inputs.len(),
{
    if inputs.len() > 0 {
        lemma_spend_all_removes_only(m, inputs.drop_last(), t);
    }
}

/// An OP_RETURN output never enters the store: after a transaction, the
/// outpoint of its OP_RETURN output is unspent only if it was before.
pub proof fn lemma_op_return_suppressed(m: Map<TransactionOutput, OutputRecord>, tx: Transaction, i: int)
    requires
        transaction_wf(tx),
        0 <= i < tx.outputs@.len(),
        is_op_return(tx.outputs@[i].script@),
        !m.contains_key(TransactionOutput { hash: tx.hash, index: i as u32 }),
    ensures
        !apply_transaction(m, tx).contains_key(TransactionOutput { hash: tx.hash, index: i as u32 }),
{
    let t = TransactionOutput { hash: tx.hash, index: i as u32 };
    lemma_spend_all_removes_only(m, tx.inputs@, t);
    lemma_op_return_not_added(spend_all(m, tx.inputs@), tx.hash, tx.outputs@, i);
}

/// The coinbase input is never looked up: spending a transaction's inputs
/// leaves the coinbase outpoint as it was.
pub proof fn lemma_coinbase_input_ignored(
    m: Map<TransactionOutput, OutputRecord>,
    inputs: Seq<TransactionOutput>,
    coinbase: TransactionOutput,
)
    requires
        is_coinbase_input(coinbase),
    ensures
        spend_all(m, inputs).contains_key(coinbase) == m.contains_key(coinbase),
        spend_all(m, inputs).contains_key(coinbase) ==> spend_all(m, inputs)[coinbase] == m[coinbase],
    decreases inputs.len(),
{
    if inputs.len() > 0 {
        lemma_coinbase_input_ignored(m, inputs.drop_last(), coinbase);
        if !is_coinbase_input(inputs.last()) {
            assert(inputs.last() != coinbase);
        }
    }
}

/// Spending keeps only outputs that were there.
pub proof fn lemma_spend_all_keys(u: Map<TransactionOutput, OutputRecord>, inputs: Seq<TransactionOutput>, t: TransactionOutput)
    requires
        spend_all(u, inputs).contains_key(t),
    ensures
        u.contains_key(t),
        u[t] == spend_all(u, inputs)[t],
    decreases inputs.len(),
{
    if inputs.len() > 0 {
        lemma_spend_all_keys(u, inputs.drop_last(), t);
    }
}

/// Adding a transaction's outputs only adds outpoints of that transaction.
pub proof fn lemma_add_all_keys(u: Map<TransactionOutput, OutputRecord>, hash: [u8; 32], outputs: Seq<Output>, t: TransactionOutput)
    requires
        add_all(u, hash, outputs).contains_key(t),
    ensures
        u.contains_key(t) || t.hash == hash,
    decreases outputs.len(),
{
    if outputs.len() > 0 && !(add_all(u, hash, outputs.drop_last()).contains_key(t)) {
    } else if outputs.len() > 0 {
        lemma_add_all_keys(u, hash, outputs.drop_last(), t);
    }
}

/// What merging a staging store into unspent outputs `m` gives: its record
/// of unknown spends is replayed, then its unspent outputs are laid over.
pub open spec fn staged(
    m: Map<TransactionOutput, OutputRecord>,
    spends: Seq<TransactionOutput>,
    unspent: Map<TransactionOutput, OutputRecord>,
) -> Map<TransactionOutput, OutputRecord> {
    spend_all(m, spends).union_prefer_right(unspent)
}

proof fn lemma_staged_inputs(
    m: Map<TransactionOutput, OutputRecord>,
    s: Seq<TransactionOutput>,
    u: Map<TransactionOutput, OutputRecord>,
    inputs: Seq<TransactionOutput>,
)
    requires
        forall|t: TransactionOutput| #[trigger] u.contains_key(t) ==> !m.contains_key(t),
    ensures
        staged(m, s + unknown_inputs(u, inputs), spend_all(u, inputs)) == spend_all(staged(m, s, u), inputs),
    decreases inputs.len(),
{
    if inputs.len() == 0 {
        assert(s + unknown_inputs(u, inputs) =~= s);
    } else {
        let rest = inputs.drop_last();
        let x = inputs.last();
        lemma_staged_inputs(m, s, u, rest);
        let s1 = s + unknown_inputs(u, rest);
        let u1 = spend_all(u, rest);
        if is_coinbase_input(x) {
        } else if u1.contains_key(x) {
            lemma_spend_all_keys(u, rest, x);
            if spend_all(m, s1).contains_key(x) {
                lemma_spend_all_keys(m, s1, x);
            }
            assert(staged(m, s1, u1.remove(x)) =~= staged(m, s1, u1).remove(x));
        } else {
            let s2 = s + unknown_inputs(u, inputs);
            assert(s2 =~= s1.push(x));
            assert(s2.drop_last() =~= s1);
            assert(staged(m, s2, u1.remove(x)) =~= staged(m, s1, u1).remove(x));
        }
    }
}

proof fn lemma_staged_outputs(
    b: Map<TransactionOutput, OutputRecord>,
    u: Map<TransactionOutput, OutputRecord>,
    hash: [u8; 32],
    outputs: Seq<Output>,
)
    ensures
        b.union_prefer_right(add_all(u, hash, outputs)) == add_all(b.union_prefer_right(u), hash, outputs),
    decreases outputs.len(),
{
    if outputs.len() > 0 {
        lemma_staged_outputs(b, u, hash, outputs.drop_last());
        let o = outputs.last();
        if !is_op_return(o.script@) {
            let k = TransactionOutput { hash, index: (outputs.len() - 1) as u32 };
            let v = (o.value, script_recipient(o.script@));
            assert(b.union_prefer_right(add_all(u, hash, outputs.drop_last()).insert(k, v))
                =~= b.union_prefer_right(add_all(u, hash, outputs.drop_last())).insert(k, v));
        }
    }
}

/// No outpoint of `m` belongs to a transaction of the run.
pub open spec fn fresh_run(m: Map<TransactionOutput, OutputRecord>, txs: Seq<Transaction>) -> bool {
    forall|t: TransactionOutput, j: int| #[trigger] m.contains_key(t) && 0 <= j < txs.len() ==> #[trigger] txs[j].hash != t.hash
}

proof fn lemma_run_keys(txs: Seq<Transaction>, t: TransactionOutput)
    requires
        apply_transactions(Map::empty(), txs).contains_key(t),
    ensures
        exists|j: int| 0 <= j < txs.len() && #[trigger] txs[j].hash == t.hash,
    decreases txs.len(),
{
    if txs.len() > 0 {
        let prefix = txs.drop_last();
        let tx = txs.last();
        let before = apply_transactions(Map::empty(), prefix);
        lemma_add_all_keys(spend_all(before, tx.inputs@), tx.hash, tx.outputs@, t);
        if spend_all(before, tx.inputs@).contains_key(t) {
            lemma_spend_all_keys(before, tx.inputs@, t);
            lemma_run_keys(prefix, t);
            let j = choose|j: int| 0 <= j < prefix.len() && #[trigger] prefix[j].hash == t.hash;
            assert(txs[j] == prefix[j]);
        } else {
            assert(txs[txs.len() - 1] == tx);
        }
    } else {
        assert(!Map::<TransactionOutput, OutputRecord>::empty().contains_key(t));
    }
}

/// A run of transactions staged apart and then merged gives what applying
/// them in order gives, when no transaction of the run reuses the hash of an
/// outpoint that is already unspent: the staging store keeps the outputs the
/// run created and did not spend, and records the spends it could not
/// resolve, in order.
pub proof fn lemma_staged_run(m: Map<TransactionOutput, OutputRecord>, txs: Seq<Transaction>)
    requires
        fresh_run(m, txs),
    ensures
        staged(m, unknown_in_transactions(Map::empty(), txs), apply_transactions(Map::empty(), txs)) == apply_transactions(m, txs),
    decreases txs.len(),
{
    if txs.len() == 0 {
        assert(staged(m, Seq::empty(), Map::empty()) =~= m);
    } else {
        let prefix = txs.drop_last();
        let tx = txs.last();
        assert forall|t: TransactionOutput, j: int| #[trigger] m.contains_key(t) && 0 <= j < prefix.len() implies #[trigger] prefix[j].hash
            != t.hash by {
            assert(prefix[j] == txs[j]);
        }
        lemma_staged_run(m, prefix);
        let s = unknown_in_transactions(Map::empty(), prefix);
        let u = apply_transactions(Map::empty(), prefix);
        assert forall|t: TransactionOutput| #[trigger] u.contains_key(t) implies !m.contains_key(t) by {
            lemma_run_keys(prefix, t);
            let j = choose|j: int| 0 <= j < prefix.len() && #[trigger] prefix[j].hash == t.hash;
            assert(prefix[j] == txs[j]);
        }
        lemma_staged_inputs(m, s, u, tx.inputs@);
        let s2 = s + unknown_inputs(u, tx.inputs@);
        lemma_staged_outputs(spend_all(m, s2), spend_all(u, tx.inputs@), tx.hash, tx.outputs@);
    }
}

/// The coinbase input is never spent nor recorded: inputs that are all the
/// coinbase one leave the unspent outputs as they are, and a staging store's
/// record of unknown spends never holds the coinbase outpoint.
pub proof fn lemma_coinbase_never_spent(m: Map<TransactionOutput, OutputRecord>, inputs: Seq<TransactionOutput>)
    ensures
        (forall|i: int| 0 <= i < inputs.len() ==> is_coinbase_input(#[trigger] inputs[i])) ==> spend_all(m, inputs) == m
            && unknown_inputs(m, inputs).len() == 0,
        forall|k: int| 0 <= k < unknown_inputs(m, inputs).len() ==> !is_coinbase_input(#[trigger] unknown_inputs(m, inputs)[k]),
    decreases inputs.len(),
{
    if inputs.len() > 0 {
        lemma_coinbase_never_spent(m, inputs.drop_last());
        if forall|i: int| 0 <= i < inputs.len() ==> is_coinbase_input(#[trigger] inputs[i]) {
            assert forall|i: int| 0 <= i < inputs.drop_last().len() implies is_coinbase_input(#[trigger] inputs.drop_last()[i]) by {
                assert(inputs.drop_last()[i] == inputs[i]);
            }
            assert(is_coinbase_input(inputs[inputs.len() - 1]));
        }
        let u = unknown_inputs(m, inputs.drop_last());
        assert forall|k: int| 0 <= k < unknown_inputs(m, inputs).len() implies !is_coinbase_input(
            #[trigger] unknown_inputs(m, inputs)[k],
        ) by {
            if k < u.len() {
                assert(unknown_inputs(m, inputs)[k] == u[k]);
            }
        }
    }
}

/// An OP_RETURN output never enters the store over a whole block: when no
/// other transaction of the block has the same hash, the outpoint of an
/// OP_RETURN output is unspent after the block only if it was before.
pub proof fn lemma_op_return_suppressed_in_block(m: Map<TransactionOutput, OutputRecord>, txs: Seq<Transaction>, j: int, i: int)
    requires
        transactions_wf(txs),
        0 <= j < txs.len(),
        0 <= i < txs[j].outputs@.len(),
        is_op_return(txs[j].outputs@[i].script@),
        forall|k: int| 0 <= k < txs.len() && k != j ==> #[trigger] txs[k].hash != txs[j].hash,
        !m.contains_key(TransactionOutput { hash: txs[j].hash, index: i as u32 }),
    ensures
        !apply_transactions(m, txs).contains_key(TransactionOutput { hash: txs[j].hash, index: i as u32 }),
    decreases txs.len(),
{
    let t = TransactionOutput { hash: txs[j].hash, index: i as u32 };
    let prefix = txs.drop_last();
    let last = txs.last();
    assert(transaction_wf(txs[txs.len() - 1]));
    if j == txs.len() - 1 {
        lemma_applied_before_absent(m, prefix, t);
        lemma_op_return_suppressed(apply_transactions(m, prefix), last, i);
    } else {
        assert forall|k: int| 0 <= k < prefix.len() && k != j implies #[trigger] prefix[k].hash != prefix[j].hash by {
            assert(prefix[k] == txs[k]);
        }
        assert forall|k: int| 0 <= k < prefix.len() implies transaction_wf(#[trigger] prefix[k]) by {
            assert(prefix[k] == txs[k]);
        }
        assert(prefix[j] == txs[j]);
        lemma_op_return_suppressed_in_block(m, prefix, j, i);
        let before = apply_transactions(m, prefix);
        lemma_spend_all_removes_only(before, last.inputs@, t);
        assert(last.hash != t.hash) by {
            assert(txs[txs.len() - 1] == last);
        }
        lemma_added_only_own(spend_all(before, last.inputs@), last.hash, last.outputs@, t);
    }
}

/// Before the transaction of hash `t.hash` comes, nothing of that hash is
/// added; used for the block form above.
proof fn lemma_applied_before_absent(m: Map<TransactionOutput, OutputRecord>, txs: Seq<Transaction>, t: TransactionOutput)
    requires
        transactions_wf(txs),
        !m.contains_key(t),
        forall|k: int| 0 <= k < txs.len() ==> #[trigger] txs[k].hash != t.hash,
    ensures
        !apply_transactions(m, txs).contains_key(t),
    decreases txs.len(),
{
    if txs.len() > 0 {
        let prefix = txs.drop_last();
        assert forall|k: int| 0 <= k < prefix.len() implies #[trigger] prefix[k].hash != t.hash by {
            assert(prefix[k] == txs[k]);
        }
        assert forall|k: int| 0 <= k < prefix.len() implies transaction_wf(#[trigger] prefix[k]) by {
            assert(prefix[k] == txs[k]);
        }
        lemma_applied_before_absent(m, prefix, t);
        let last = txs.last();
        assert(txs[txs.len() - 1] == last);
        assert(transaction_wf(txs[txs.len() - 1]));
        let before = apply_transactions(m, prefix);
        lemma_spend_all_removes_only(before, last.inputs@, t);
        lemma_added_only_own(spend_all(before, last.inputs@), last.hash, last.outputs@, t);
    }
}

/// An operation on an output index: an add of an output with its record, or
/// a spend.
pub enum IndexOperation {
    Add(TransactionOutput, OutputRecord),
    Spend(TransactionOutput),
}

/// The unspent outputs after the operations, in order.
pub open spec fn apply_operations(m: Map<TransactionOutput, OutputRecord>, ops: Seq<IndexOperation>) -> Map<
    TransactionOutput,
    OutputRecord,
>
    decreases ops.len(),
{
    if ops.len() == 0 {
        m
    } else {
        let before = apply_operations(m, ops.drop_last());
        match ops.last() {
            IndexOperation::Add(t, record) => before.insert(t, record),
            IndexOperation::Spend(t) => before.remove(t),
        }
    }
}

/// On a strict backend, a spend that follows an add of the same output with
/// no spend of it in between always finds it: whatever else was added or
/// spent, the output is unspent when its spend comes.
pub proof fn lemma_spend_after_add(
    m: Map<TransactionOutput, OutputRecord>,
    txo: TransactionOutput,
    record: OutputRecord,
    between: Seq<IndexOperation>,
)
    requires
        forall|k: int| 0 <= k < between.len() ==> #[trigger] between[k] != IndexOperation::Spend(txo),
    ensures
        apply_operations(m, seq![IndexOperation::Add(txo, record)] + between).contains_key(txo),
    decreases between.len(),
{
    let ops = seq![IndexOperation::Add(txo, record)] + between;
    if between.len() > 0 {
        assert(ops.drop_last() =~= seq![IndexOperation::Add(txo, record)] + between.drop_last());
        assert forall|k: int| 0 <= k < between.drop_last().len() implies #[trigger] between.drop_last()[k]
            != IndexOperation::Spend(txo) by {
            assert(between.drop_last()[k] == between[k]);
        }
        lemma_spend_after_add(m, txo, record, between.drop_last());
        assert(ops.last() == between.last());
        assert(between[between.len() - 1] != IndexOperation::Spend(txo));
    } else {
        assert(ops.drop_last() =~= Seq::<IndexOperation>::empty());
    }
}

/// A transaction store: a backend, and whether spending an unknown output is
/// a fault.
#[derive(Debug)]
pub struct TransactionStore<T> {
    strict: bool,
    backend: T,
}

impl<T: TransactionStoreBackendTrait> TransactionStore<T> {
    pub closed spec fn spec_backend(&self) -> T {
        self.backend
    }

    pub closed spec fn spec_strict(&self) -> bool {
        self.strict
    }

    pub open spec fn wf(&self) -> bool {
        self.spec_backend().wf()
    }

    pub open spec fn unspent(&self) -> Map<TransactionOutput, OutputRecord> {
        self.spec_backend().unspent()
    }

    pub fn new_with_backend(strict: bool, backend: T) -> (r: Self)
        ensures
            r.spec_backend() == backend,
            r.spec_strict() == strict,
    {
        TransactionStore { strict, backend }
    }

    pub fn is_strict(&self) -> (r: bool)
        ensures
            r == self.spec_strict(),
    {
        self.strict
    }

    pub fn backend(&self) -> (r: &T)
        ensures
            *r == self.spec_backend(),
    {
        &self.backend
    }

    pub fn take_backend(self) -> (r: T)
        ensures
            r == self.spec_backend(),
    {
        self.backend
    }

    /// Spends each input but the coinbase one; returns whether each was
    /// unspent, or that the store is not strict.
    fn spend_transaction_outputs(&mut self, txos: &Vec<TransactionOutput>) -> (r: bool)
        requires
            old(self).wf(),
        ensures
            final(self).wf(),
            final(self).spec_strict() == old(self).spec_strict(),
            final(self).unspent() == spend_all(old(self).unspent(), txos@),
            r == (inputs_known(old(self).unspent(), txos@) || !old(self).spec_strict()),
            final(self).spec_backend().records_unknown_spends() == old(self).spec_backend().records_unknown_spends(),
            final(self).spec_backend().unknown_spends() == if old(self).spec_backend().records_unknown_spends() {
                old(self).spec_backend().unknown_spends() + unknown_inputs(old(self).unspent(), txos@)
            } else {
                old(self).spec_backend().unknown_spends()
            },
            final(self).spec_backend().underlying() == old(self).spec_backend().underlying(),
    {
        let ghost start = self.unspent();
        let mut known = true;
        let mut i: usize = 0;
        while i < txos.len()
            invariant
                self.wf(),
                i <= txos@.len(),
                self.spec_strict() == old(self).spec_strict(),
                start == old(self).unspent(),
                self.unspent() == spend_all(start, txos@.subrange(0, i as int)),
                known == inputs_known(start, txos@.subrange(0, i as int)),
                self.spec_backend().records_unknown_spends() == old(self).spec_backend().records_unknown_spends(),
                self.spec_backend().unknown_spends() == if old(self).spec_backend().records_unknown_spends() {
                    old(self).spec_backend().unknown_spends() + unknown_inputs(start, txos@.subrange(0, i as int))
                } else {
                    old(self).spec_backend().unknown_spends()
                },
                self.spec_backend().underlying() == old(self).spec_backend().underlying(),
            decreases txos@.len() - i,
        {
            let txo = &txos[i];
            assert(txos@.subrange(0, i + 1).drop_last() =~= txos@.subrange(0, i as int));
            let ghost log = self.spec_backend().unknown_spends();
            if !txo.is_coinbase() {
                let spent = self.backend.spend_transaction_output(txo);
                known = known && spent;
            }
            proof {
                if old(self).spec_backend().records_unknown_spends() {
                    let u = unknown_inputs(start, txos@.subrange(0, i as int));
                    assert(log == old(self).spec_backend().unknown_spends() + u);
                    if self.spec_backend().unknown_spends() != log {
                        assert(self.spec_backend().unknown_spends() == log.push(*txo));
                        assert(old(self).spec_backend().unknown_spends() + u.push(*txo) =~= log.push(*txo));
                    }
                }
            }
            i = i + 1;
        }
        assert(txos@.subrange(0, txos@.len() as int) =~= txos@);
        known || !self.strict
    }

    /// Whether every input of `transaction` but the coinbase one is unspent;
    /// the coinbase input is never looked up.
    pub fn can_add_transaction(&self, transaction: &Transaction) -> (r: bool)
        requires
            self.wf(),
        ensures
            r == forall|i: int| 0 <= i < transaction.inputs@.len() ==> is_coinbase_input(#[trigger] transaction.inputs@[i])
                || self.unspent().contains_key(transaction.inputs@[i]),
    {
        let mut i: usize = 0;
        while i < transaction.inputs.len()
            invariant
                self.wf(),
                i <= transaction.inputs@.len(),
                forall|j: int| 0 <= j < i ==> is_coinbase_input(#[trigger] transaction.inputs@[j])
                    || self.unspent().contains_key(transaction.inputs@[j]),
            decreases transaction.inputs@.len() - i,
        {
            let input = &transaction.inputs[i];
            if !input.is_coinbase() && !self.backend.has_transaction_output(input) {
                return false;
            }
            i = i + 1;
        }
        true
    }

    /// Applies a transaction: spends its inputs, then adds each of its outputs
    /// but the OP_RETURN ones. Returns whether every input was unspent, or
    /// that the store is not strict.
    pub fn add_transaction(&mut self, transaction: &Transaction) -> (r: bool)
        requires
            old(self).wf(),
            transaction_wf(*transaction),
        ensures
            final(self).wf(),
            final(self).spec_strict() == old(self).spec_strict(),
            final(self).unspent() == apply_transaction(old(self).unspent(), *transaction),
            r == (inputs_known(old(self).unspent(), transaction.inputs@) || !old(self).spec_strict()),
            final(self).spec_backend().records_unknown_spends() == old(self).spec_backend().records_unknown_spends(),
            final(self).spec_backend().unknown_spends() == if old(self).spec_backend().records_unknown_spends() {
                old(self).spec_backend().unknown_spends() + unknown_inputs(old(self).unspent(), transaction.inputs@)
            } else {
                old(self).spec_backend().unknown_spends()
            },
            final(self).spec_backend().underlying() == old(self).spec_backend().underlying(),
    {
        let known = self.spend_transaction_outputs(&transaction.inputs);
        let ghost spent = self.unspent();
        let ghost log = self.spec_backend().unknown_spends();
        let mut index: usize = 0;
        while index < transaction.outputs.len()
            invariant
                self.wf(),
                index <= transaction.outputs@.len(),
                transaction.outputs@.len() <= u32::MAX,
                self.spec_strict() == old(self).spec_strict(),
                self.unspent() == add_all(spent, transaction.hash, transaction.outputs@.subrange(0, index as int)),
                self.spec_backend().records_unknown_spends() == old(self).spec_backend().records_unknown_spends(),
                self.spec_backend().unknown_spends() == log,
                self.spec_backend().underlying() == old(self).spec_backend().underlying(),
            decreases transaction.outputs@.len() - index,
        {
            let output = &transaction.outputs[index];
            assert(transaction.outputs@.subrange(0, index + 1).drop_last()
                =~= transaction.outputs@.subrange(0, index as int));
            if !(output.script.len() > 0 && output.script[0] == 0x6a) {
                let address = match Address::from_script(output.script.as_slice()) {
                    Ok(a) => Some(a),
                    Err(_) => None,
                };
                self.backend.add_transaction_output(
                    TransactionOutput::new(transaction.hash, index as u32),
                    address,
                    output.value,
                );
            }
            index = index + 1;
        }
        assert(transaction.outputs@.subrange(0, transaction.outputs@.len() as int) =~= transaction.outputs@);
        known
    }

    /// Applies the transactions of a block in order. Returns whether every
    /// input was unspent when its transaction came, or that the store is not
    /// strict.
    pub fn add_transactions(&mut self, transactions: &Vec<Transaction>) -> (r: bool)
        requires
            old(self).wf(),
            transactions_wf(transactions@),
        ensures
            final(self).wf(),
            final(self).spec_strict() == old(self).spec_strict(),
            final(self).unspent() == apply_transactions(old(self).unspent(), transactions@),
            r == (transactions_known(old(self).unspent(), transactions@) || !old(self).spec_strict()),
            final(self).spec_backend().records_unknown_spends() == old(self).spec_backend().records_unknown_spends(),
            final(self).spec_backend().unknown_spends() == if old(self).spec_backend().records_unknown_spends() {
                old(self).spec_backend().unknown_spends() + unknown_in_transactions(old(self).unspent(), transactions@)
            } else {
                old(self).spec_backend().unknown_spends()
            },
            final(self).spec_backend().underlying() == old(self).spec_backend().underlying(),
    {
        let ghost start = self.unspent();
        let mut known = true;
        let mut i: usize = 0;
        while i < transactions.len()
            invariant
                self.wf(),
                i <= transactions@.len(),
                transactions_wf(transactions@),
                start == old(self).unspent(),
                self.spec_strict() == old(self).spec_strict(),
                self.unspent() == apply_transactions(start, transactions@.subrange(0, i as int)),
                known == (transactions_known(start, transactions@.subrange(0, i as int)) || !self.spec_strict()),
                self.spec_backend().records_unknown_spends() == old(self).spec_backend().records_unknown_spends(),
                self.spec_backend().unknown_spends() == if old(self).spec_backend().records_unknown_spends() {
                    old(self).spec_backend().unknown_spends() + unknown_in_transactions(start, transactions@.subrange(0, i as int))
                } else {
                    old(self).spec_backend().unknown_spends()
                },
                self.spec_backend().underlying() == old(self).spec_backend().underlying(),
            decreases transactions@.len() - i,
        {
            assert(transactions@.subrange(0, i + 1).drop_last() =~= transactions@.subrange(0, i as int));
            assert(transaction_wf(transactions@[i as int]));
            let ghost log = self.spec_backend().unknown_spends();
            let ok = self.add_transaction(&transactions[i]);
            known = known && ok;
            proof {
                if old(self).spec_backend().records_unknown_spends() {
                    let prefix = transactions@.subrange(0, i as int);
                    assert(old(self).spec_backend().unknown_spends() + unknown_in_transactions(start, prefix)
                        + unknown_inputs(apply_transactions(start, prefix), transactions@[i as int].inputs@)
                        =~= old(self).spec_backend().unknown_spends() + (unknown_in_transactions(start, prefix)
                        + unknown_inputs(apply_transactions(start, prefix), transactions@[i as int].inputs@)));
                }
            }
            i = i + 1;
        }
        assert(transactions@.subrange(0, transactions@.len() as int) =~= transactions@);
        known
    }
}

impl TransactionStore<IntermediaryTransactionStoreBackend> {
    /// Replays this staging store on `store`: first the spends of outputs it
    /// did not create, in order, then each output it created and did not spend.
    /// Returns whether each of those spends found its output, or that `store`
    /// is not strict.
    pub fn merge<T: TransactionStoreBackendTrait>(&self, store: &mut TransactionStore<T>) -> (r: bool)
        requires
            self.wf(),
            old(store).wf(),
        ensures
            final(store).wf(),
            final(store).spec_strict() == old(store).spec_strict(),
            final(store).unspent() == spend_all(old(store).unspent(), self.spec_backend().spec_spent()).union_prefer_right(
                self.unspent(),
            ),
            r == (inputs_known(old(store).unspent(), self.spec_backend().spec_spent()) || !old(store).spec_strict()),
            final(store).spec_backend().records_unknown_spends() == old(store).spec_backend().records_unknown_spends(),
            final(store).spec_backend().underlying() == old(store).spec_backend().underlying(),
    {
        let known = store.spend_transaction_outputs(self.backend.spent_txos());
        let ghost spent = store.unspent();
        let entries = self.backend.unspent_txos();
        let mut i: usize = 0;
        while i < entries.len()
            invariant
                store.wf(),
                i <= entries@.len(),
                keys_of(entries@).no_duplicates(),
                entries_map(entries@) == self.unspent(),
                store.spec_strict() == old(store).spec_strict(),
                store.unspent() == spent.union_prefer_right(entries_map(entries@.subrange(0, i as int))),
                store.spec_backend().records_unknown_spends() == old(store).spec_backend().records_unknown_spends(),
                store.spec_backend().underlying() == old(store).spec_backend().underlying(),
            decreases entries@.len() - i,
        {
            let (txo, (value, address)) = entries[i];
            proof {
                lemma_prefix_map(entries@, i as int);
            }
            store.backend.add_transaction_output(txo, address, value);
            assert(store.unspent() =~= spent.union_prefer_right(entries_map(entries@.subrange(0, i + 1))));
            i = i + 1;
        }
        assert(entries@.subrange(0, entries@.len() as int) =~= entries@);
        known
    }
}

/// Read access to the outputs of each address through a read-only backend.
pub struct ReadonlyTransactionStore<T> {
    backend: T,
}

impl<T: ReadonlyTransactionStoreBackendTrait> ReadonlyTransactionStore<T> {
    pub closed spec fn spec_backend(&self) -> T {
        self.backend
    }

    pub fn new(backend: T) -> (r: Self)
        ensures
            r.spec_backend() == backend,
    {
        ReadonlyTransactionStore { backend }
    }

    /// The sum of the values of the unspent outputs of `address`, capped at
    /// the largest `u64`.
    pub fn balance(&self, address: &Address) -> (r: u64)
        requires
            self.spec_backend().readable(),
        ensures
            exists|s: Seq<(TransactionOutput, u64)>| lists(s, self.spec_backend().outputs_of(*address)) && r == capped(value_sum(s)),
    {
        self.backend.balance(address)
    }

    /// The unspent outputs of `address`, each once, with their values.
    pub fn transaction_outputs(&self, address: &Address) -> (r: Vec<(TransactionOutput, u64)>)
        requires
            self.spec_backend().readable(),
        ensures
            lists(r@, self.spec_backend().outputs_of(*address)),
    {
        self.backend.transaction_outputs(address)
    }
}

} // verus!
