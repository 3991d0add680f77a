use vstd::prelude::*;
use crate::command::{qualified_key, CrdtCommand, Mutation, SetOp};
use crate::ident::{format_identifier, identifier};
use crate::order::{sort_texts, sorted_texts};
use crate::ledger::{Block, BlockContext, OutputRef, Transaction, TxOutput};
use crate::policy::{ReduceError, RuntimePolicy};

verus! {

/// What one consumed reference or produced output contributes: the commands
/// it emits (none or one), or the error that ends the reduction.
pub type Step = Result<Seq<Mutation>, ReduceError>;

/// The commands that a sequence of steps emits, in order, up to the first
/// failing step, and that step's error if there is one.
pub open spec fn run(steps: Seq<Step>) -> (Seq<Mutation>, Option<ReduceError>)
    decreases steps.len(),
{
    if steps.len() == 0 {
        (Seq::empty(), None)
    } else {
        let prior = run(steps.drop_last());
        if prior.1 is Some {
            prior
        } else {
            match steps.last() {
                Ok(emitted) => (prior.0 + emitted, None),
                Err(e) => (prior.0, Some(e)),
            }
        }
    }
}

/// The commands of `cmds` as values.
pub open spec fn views(cmds: Seq<CrdtCommand>) -> Seq<Mutation> {
    cmds.map_values(|c: CrdtCommand| c@)
}

/// `after` is `before` with the commands of `steps` appended, and `res`
/// reports how the steps ended.
pub open spec fn applied(
    before: Seq<CrdtCommand>,
    after: Seq<CrdtCommand>,
    res: Result<(), ReduceError>,
    steps: Seq<Step>,
) -> bool {
    &&& views(after) == views(before) + run(steps).0
    &&& res == (match run(steps).1 {
        None => Ok(()),
        Some(e) => Err(e),
    })
}

/// Whether `address` is one of `list`.
pub open spec fn listed(list: Seq<String>, address: Seq<char>) -> bool {
    exists|i: int| 0 <= i < list.len() && (#[trigger] list[i])@ == address
}

/// Whether an allow-list lets commands for `address` through.
pub open spec fn admits(filter: Option<Vec<String>>, address: Seq<char>) -> bool {
    match filter {
        None => true,
        Some(f) => listed(f@, address),
    }
}

/// Static configuration of a reducer.
pub struct Config {
    /// Namespace put before every set key.
    pub key_prefix: Option<String>,
    /// Addresses that commands are emitted for; all addresses where `None`.
    /// A reducer keeps it in ascending order.
    pub filter: Option<Vec<String>>,
}

/// Reduces blocks to set commands keyed by address.
pub struct Reducer {
    pub config: Config,
    pub policy: RuntimePolicy,
}

impl Reducer {
    /// The step of the consumed reference `r`.
    pub open spec fn inbound_step(&self, ctx: BlockContext, r: OutputRef) -> Step {
        match ctx.resolve(r) {
            None => if self.policy.tolerates_missing() {
                Ok(Seq::empty())
            } else {
                Err(ReduceError::MissingUtxo(r))
            },
            Some(o) => match o.address {
                None => Err(ReduceError::MalformedAddress),
                Some(a) => if admits(self.config.filter, a@) {
                    Ok(
                        seq![
                            (
                                SetOp::Remove,
                                qualified_key(self.config.key_prefix, a@),
                                identifier(r.hash@, r.index as nat),
                            ),
                        ],
                    )
                } else {
                    Ok(Seq::empty())
                },
            },
        }
    }

    /// The step of output `o`, at position `index`, produced by `tx`.
    pub open spec fn outbound_step(&self, tx: Transaction, o: TxOutput, index: nat) -> Step {
        match o.address {
            None => Err(ReduceError::MalformedAddress),
            Some(a) => if admits(self.config.filter, a@) {
                Ok(
                    seq![
                        (
                            SetOp::Add,
                            qualified_key(self.config.key_prefix, a@),
                            identifier(tx.hash@, index),
                        ),
                    ],
                )
            } else {
                Ok(Seq::empty())
            },
        }
    }

    pub open spec fn inbound_steps(&self, ctx: BlockContext, refs: Seq<OutputRef>) -> Seq<Step> {
        Seq::new(refs.len(), |i: int| self.inbound_step(ctx, refs[i]))
    }

    pub open spec fn outbound_steps(&self, tx: Transaction) -> Seq<Step> {
        Seq::new(tx.outputs@.len(), |i: int| self.outbound_step(tx, tx.outputs@[i], i as nat))
    }

    /// Steps of a valid transaction: its inputs, then its outputs.
    pub open spec fn valid_tx_steps(&self, tx: Transaction, ctx: BlockContext) -> Seq<Step> {
        self.inbound_steps(ctx, tx.inputs@) + self.outbound_steps(tx)
    }

    /// Steps of an invalid transaction: its collateral inputs, then its
    /// collateral return, placed after the regular outputs.
    pub open spec fn invalid_tx_steps(&self, tx: Transaction, ctx: BlockContext) -> Seq<Step> {
        self.inbound_steps(ctx, tx.collateral@) + self.collateral_return_steps(tx)
    }

    pub open spec fn collateral_return_steps(&self, tx: Transaction) -> Seq<Step> {
        match tx.collateral_return {
            Some(o) => seq![self.outbound_step(tx, o, tx.outputs@.len())],
            None => Seq::empty(),
        }
    }

    pub open spec fn tx_steps(&self, tx: Transaction, ctx: BlockContext) -> Seq<Step> {
        if tx.valid {
            self.valid_tx_steps(tx, ctx)
        } else {
            self.invalid_tx_steps(tx, ctx)
        }
    }

    /// Steps of a sequence of transactions, in order.
    pub open spec fn block_steps(&self, txs: Seq<Transaction>, ctx: BlockContext) -> Seq<Step>
        decreases txs.len(),
    {
        if txs.len() == 0 {
            Seq::empty()
        } else {
            self.block_steps(txs.drop_last(), ctx) + self.tx_steps(txs.last(), ctx)
        }
    }
}

/// Running two sequences of steps one after the other.
pub proof fn lemma_run_append(s: Seq<Step>, t: Seq<Step>)
    ensures
        run(s + t) == (if run(s).1 is Some {
            run(s)
        } else {
            (run(s).0 + run(t).0, run(t).1)
        }),
    decreases t.len(),
{
    if t.len() == 0 {
        assert(s + t =~= s);
        assert(run(s).0 + run(t).0 =~= run(s).0);
    } else {
        assert((s + t).drop_last() =~= s + t.drop_last());
        assert((s + t).last() == t.last());
        lemma_run_append(s, t.drop_last());
        if run(s).1 is None && run(t.drop_last()).1 is None {
            match t.last() {
                Ok(emitted) => {
                    assert(run(s).0 + run(t.drop_last()).0 + emitted =~= run(s).0 + (run(
                        t.drop_last(),
                    ).0 + emitted));
                },
                Err(_) => {},
            }
        }
    }
}

proof fn lemma_applied_then(
    start: Seq<CrdtCommand>,
    mid: Seq<CrdtCommand>,
    end: Seq<CrdtCommand>,
    res: Result<(), ReduceError>,
    s: Seq<Step>,
    t: Seq<Step>,
)
    requires
        applied(start, mid, Ok(()), s),
        applied(mid, end, res, t),
    ensures
        applied(start, end, res, s + t),
{
    lemma_run_append(s, t);
    assert(views(start) + run(s).0 + run(t).0 =~= views(start) + (run(s).0 + run(t).0));
}

proof fn lemma_applied_stop(
    start: Seq<CrdtCommand>,
    end: Seq<CrdtCommand>,
    res: Result<(), ReduceError>,
    s: Seq<Step>,
    t: Seq<Step>,
)
    requires
        applied(start, end, res, s),
        res is Err,
    ensures
        applied(start, end, res, s + t),
{
    lemma_run_append(s, t);
}

proof fn lemma_applied_none(v: Seq<CrdtCommand>)
    ensures
        applied(v, v, Ok(()), Seq::empty()),
{
    assert(views(v) + Seq::<Mutation>::empty() =~= views(v));
}

proof fn lemma_applied_single(
    before: Seq<CrdtCommand>,
    after: Seq<CrdtCommand>,
    res: Result<(), ReduceError>,
    x: Step,
)
    requires
        match x {
            Ok(emitted) => res == Ok::<(), ReduceError>(()) && views(after) == views(before) + emitted,
            Err(e) => res == Err::<(), ReduceError>(e) && after == before,
        },
    ensures
        applied(before, after, res, seq![x]),
{
    reveal_with_fuel(run, 2);
    assert(seq![x].drop_last() =~= Seq::<Step>::empty());
    assert(views(before) + Seq::<Mutation>::empty() =~= views(before));
}

proof fn lemma_views_push(v: Seq<CrdtCommand>, c: CrdtCommand)
    ensures
        views(v.push(c)) == views(v) + seq![c@],
{
    assert(views(v.push(c)) =~= views(v) + seq![c@]);
}

impl Reducer {
    fn admits_address(&self, address: &String) -> (r: bool)
        ensures
            r == admits(self.config.filter, address@),
    {
        match &self.config.filter {
            None => true,
            Some(f) => {
                let mut i: usize = 0;
                while i < f.len()
                    invariant
                        i <= f@.len(),
                        self.config.filter == Some(*f),
                        forall|j: int| 0 <= j < i ==> f@[j]@ != address@,
                    decreases f@.len() - i,
                {
                    if f[i] == *address {
                        assert(f@[i as int]@ == address@);
                        assert(listed(f@, address@));
                        return true;
                    }
                    i = i + 1;
                }
                false
            },
        }
    }

    fn process_inbound_txo(
        &self,
        ctx: &BlockContext,
        input: &OutputRef,
        output: &mut Vec<CrdtCommand>,
    ) -> (res: Result<(), ReduceError>)
        ensures
            applied(old(output)@, final(output)@, res, seq![self.inbound_step(*ctx, *input)]),
    {
        let ghost step = self.inbound_step(*ctx, *input);
        let found = ctx.find_utxo(input);
        let utxo = match self.policy.apply_to_lookup(input, found) {
            Ok(u) => u,
            Err(e) => {
                proof {
                    lemma_applied_single(output@, output@, Err(e), step);
                }
                return Err(e);
            },
        };
        let utxo = match utxo {
            Some(x) => x,
            None => {
                proof {
                    lemma_applied_single(output@, output@, Ok(()), step);
                }
                return Ok(());
            },
        };
        let address = match utxo.address {
            Some(a) => a,
            None => {
                proof {
                    lemma_applied_single(output@, output@, Err(ReduceError::MalformedAddress), step);
                }
                return Err(ReduceError::MalformedAddress);
            },
        };
        if !self.admits_address(&address) {
            proof {
                lemma_applied_single(output@, output@, Ok(()), step);
            }
            return Ok(());
        }
        let crdt = CrdtCommand::set_remove(
            &self.config.key_prefix,
            &address,
            format_identifier(&input.hash, input.index),
        );
        let ghost before = output@;
        output.push(crdt);
        proof {
            lemma_views_push(before, crdt);
            lemma_applied_single(before, output@, Ok(()), step);
        }
        Ok(())
    }

    fn process_outbound_txo(
        &self,
        tx: &Transaction,
        tx_output: &TxOutput,
        output_idx: usize,
        output: &mut Vec<CrdtCommand>,
    ) -> (res: Result<(), ReduceError>)
        ensures
            applied(
                old(output)@,
                final(output)@,
                res,
                seq![self.outbound_step(*tx, *tx_output, output_idx as nat)],
            ),
    {
        let ghost step = self.outbound_step(*tx, *tx_output, output_idx as nat);
        let address = match &tx_output.address {
            Some(a) => a,
            None => {
                proof {
                    lemma_applied_single(output@, output@, Err(ReduceError::MalformedAddress), step);
                }
                return Err(ReduceError::MalformedAddress);
            },
        };
        if !self.admits_address(address) {
            proof {
                lemma_applied_single(output@, output@, Ok(()), step);
            }
            return Ok(());
        }
        let crdt = CrdtCommand::set_add(
            &self.config.key_prefix,
            address,
            format_identifier(&tx.hash, output_idx as u64),
        );
        let ghost before = output@;
        output.push(crdt);
        proof {
            lemma_views_push(before, crdt);
            lemma_applied_single(before, output@, Ok(()), step);
        }
        Ok(())
    }
}

/// The steps of the first `k` transactions, then those of the rest.
pub proof fn lemma_block_steps_split(r: Reducer, txs: Seq<Transaction>, ctx: BlockContext, k: int)
    requires
        0 <= k <= txs.len(),
    ensures
        r.block_steps(txs, ctx) == r.block_steps(txs.take(k), ctx) + r.block_steps(txs.skip(k), ctx),
    decreases txs.len(),
{
    if k == txs.len() {
        assert(txs.take(k) =~= txs);
        assert(txs.skip(k) =~= Seq::<Transaction>::empty());
        assert(r.block_steps(txs, ctx) + Seq::<Step>::empty() =~= r.block_steps(txs, ctx));
    } else {
        let d = txs.drop_last();
        lemma_block_steps_split(r, d, ctx, k);
        assert(d.take(k) =~= txs.take(k));
        assert(txs.skip(k).drop_last() =~= d.skip(k));
        assert(txs.skip(k).last() == txs.last());
        assert(r.block_steps(txs.take(k), ctx) + r.block_steps(d.skip(k), ctx) + r.tx_steps(
            txs.last(),
            ctx,
        ) =~= r.block_steps(txs.take(k), ctx) + (r.block_steps(d.skip(k), ctx) + r.tx_steps(
            txs.last(),
            ctx,
        )));
    }
}

impl Reducer {
    fn process_inbound_refs(
        &self,
        ctx: &BlockContext,
        refs: &Vec<OutputRef>,
        output: &mut Vec<CrdtCommand>,
    ) -> (res: Result<(), ReduceError>)
        ensures
            applied(old(output)@, final(output)@, res, self.inbound_steps(*ctx, refs@)),
    {
        let ghost start = output@;
        let ghost steps = self.inbound_steps(*ctx, refs@);
        proof {
            lemma_applied_none(start);
            assert(steps.take(0) =~= Seq::<Step>::empty());
        }
        let mut i: usize = 0;
        while i < refs.len()
            invariant
                i <= refs@.len(),
                start == old(output)@,
                steps == self.inbound_steps(*ctx, refs@),
                applied(start, output@, Ok(()), steps.take(i as int)),
            decreases refs@.len() - i,
        {
            let ghost mid = output@;
            let res = self.process_inbound_txo(ctx, &refs[i], output);
            proof {
                assert(steps.take(i + 1) =~= steps.take(i as int) + seq![steps[i as int]]);
                lemma_applied_then(start, mid, output@, res, steps.take(i as int), seq![steps[i as int]]);
            }
            match res {
                Err(e) => {
                    proof {
                        lemma_applied_stop(start, output@, res, steps.take(i + 1), steps.skip(i + 1));
                        assert(steps.take(i + 1) + steps.skip(i + 1) =~= steps);
                    }
                    return Err(e);
                },
                Ok(()) => {},
            }
            i = i + 1;
        }
        proof {
            assert(steps.take(i as int) =~= steps);
        }
        Ok(())
    }

    /// Emits the commands of a valid transaction: a removal for each input,
    /// then an addition for each output, in order, stopping at the first error.
    pub fn reduce_valid_tx(
        &mut self,
        tx: &Transaction,
        ctx: &BlockContext,
        output: &mut Vec<CrdtCommand>,
    ) -> (res: Result<(), ReduceError>)
        ensures
            *final(self) == *old(self),
            applied(old(output)@, final(output)@, res, old(self).valid_tx_steps(*tx, *ctx)),
    {
        let ghost start = output@;
        let ghost ins = self.inbound_steps(*ctx, tx.inputs@);
        let ghost outs = self.outbound_steps(*tx);
        let res = self.process_inbound_refs(ctx, &tx.inputs, output);
        match res {
            Err(e) => {
                proof {
                    lemma_applied_stop(start, output@, res, ins, outs);
                }
                return Err(e);
            },
            Ok(()) => {},
        }
        let ghost mid = output@;
        proof {
            lemma_applied_none(mid);
            assert(outs.take(0) =~= Seq::<Step>::empty());
        }
        let mut idx: usize = 0;
        while idx < tx.outputs.len()
            invariant
                idx <= tx.outputs@.len(),
                start == old(output)@,
                ins == self.inbound_steps(*ctx, tx.inputs@),
                outs == self.outbound_steps(*tx),
                applied(start, mid, Ok(()), ins),
                applied(mid, output@, Ok(()), outs.take(idx as int)),
            decreases tx.outputs@.len() - idx,
        {
            let ghost before = output@;
            let res = self.process_outbound_txo(tx, &tx.outputs[idx], idx, output);
            proof {
                assert(outs.take(idx + 1) =~= outs.take(idx as int) + seq![outs[idx as int]]);
                lemma_applied_then(mid, before, output@, res, outs.take(idx as int), seq![outs[idx as int]]);
            }
            match res {
                Err(e) => {
                    proof {
                        lemma_applied_stop(mid, output@, res, outs.take(idx + 1), outs.skip(idx + 1));
                        assert(outs.take(idx + 1) + outs.skip(idx + 1) =~= outs);
                        lemma_applied_then(start, mid, output@, res, ins, outs);
                    }
                    return Err(e);
                },
                Ok(()) => {},
            }
            idx = idx + 1;
        }
        proof {
            assert(outs.take(idx as int) =~= outs);
            lemma_applied_then(start, mid, output@, Ok(()), ins, outs);
        }
        Ok(())
    }

    /// Emits the commands of an invalid transaction: a removal for each
    /// collateral input, then an addition for the collateral return, if any,
    /// at the index that follows the regular outputs.
    pub fn reduce_invalid_tx(
        &mut self,
        tx: &Transaction,
        ctx: &BlockContext,
        output: &mut Vec<CrdtCommand>,
    ) -> (res: Result<(), ReduceError>)
        ensures
            *final(self) == *old(self),
            applied(old(output)@, final(output)@, res, old(self).invalid_tx_steps(*tx, *ctx)),
    {
        let ghost start = output@;
        let ghost ins = self.inbound_steps(*ctx, tx.collateral@);
        let ghost tail = self.collateral_return_steps(*tx);
        let res = self.process_inbound_refs(ctx, &tx.collateral, output);
        match res {
            Err(e) => {
                proof {
                    lemma_applied_stop(start, output@, res, ins, tail);
                }
                return Err(e);
            },
            Ok(()) => {},
        }
        let ghost mid = output@;
        match &tx.collateral_return {
            Some(coll_ret) => {
                let idx = tx.outputs.len();
                let res = self.process_outbound_txo(tx, coll_ret, idx, output);
                proof {
                    lemma_applied_then(start, mid, output@, res, ins, tail);
                }
                res
            },
            None => {
                proof {
                    lemma_applied_none(mid);
                    lemma_applied_then(start, mid, output@, Ok(()), ins, tail);
                }
                Ok(())
            },
        }
    }

    /// Emits the commands of every transaction of `block`, in block order,
    /// stopping at the first error.
    pub fn reduce_block(
        &mut self,
        block: &Block,
        ctx: &BlockContext,
        output: &mut Vec<CrdtCommand>,
    ) -> (res: Result<(), ReduceError>)
        ensures
            *final(self) == *old(self),
            applied(old(output)@, final(output)@, res, old(self).block_steps(block.txs@, *ctx)),
    {
        let ghost start = output@;
        let ghost txs = block.txs@;
        proof {
            lemma_applied_none(start);
            assert(txs.take(0) =~= Seq::<Transaction>::empty());
        }
        let mut i: usize = 0;
        while i < block.txs.len()
            invariant
                i <= txs.len(),
                start == old(output)@,
                txs == block.txs@,
                *self == *old(self),
                applied(start, output@, Ok(()), self.block_steps(txs.take(i as int), *ctx)),
            decreases txs.len() - i,
        {
            let tx = &block.txs[i];
            let ghost before = output@;
            let res = if tx.valid {
                self.reduce_valid_tx(tx, ctx, output)
            } else {
                self.reduce_invalid_tx(tx, ctx, output)
            };
            let ghost done = self.block_steps(txs.take(i + 1), *ctx);
            proof {
                assert(txs.take(i + 1).drop_last() =~= txs.take(i as int));
                assert(done == self.block_steps(txs.take(i as int), *ctx) + self.tx_steps(*tx, *ctx));
                lemma_applied_then(
                    start,
                    before,
                    output@,
                    res,
                    self.block_steps(txs.take(i as int), *ctx),
                    self.tx_steps(*tx, *ctx),
                );
            }
            match res {
                Err(e) => {
                    proof {
                        lemma_block_steps_split(*self, txs, *ctx, i + 1);
                        lemma_applied_stop(start, output@, res, done, self.block_steps(txs.skip(i + 1), *ctx));
                    }
                    return Err(e);
                },
                Ok(()) => {},
            }
            i = i + 1;
        }
        proof {
            assert(txs.take(i as int) =~= txs);
        }
        Ok(())
    }
}

impl Config {
    /// A reducer with this configuration and `policy`; the allow-list, if
    /// any, is sorted ascending once here.
    pub fn plugin(self, policy: &RuntimePolicy) -> (r: Reducer)
        ensures
            r.config.key_prefix == self.key_prefix,
            r.policy == *policy,
            match self.filter {
                None => r.config.filter is None,
                Some(f) => r.config.filter matches Some(g) && sorted_texts(g@)
                    && g@.to_multiset() == f@.to_multiset(),
            },
    {
        let filter = match &self.filter {
            Some(f) => Some(sort_texts(f)),
            None => None,
        };
        Reducer { config: Config { key_prefix: self.key_prefix, filter }, policy: policy.clone() }
    }
}

} // verus!
