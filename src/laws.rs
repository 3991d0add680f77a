use vstd::prelude::*;
use crate::command::SetOp;
use crate::command::Mutation;
use crate::ident::{decimal, digit_char, identifier};
use crate::ledger::{BlockContext, OutputRef, Transaction, TxOutput};
use crate::policy::ReduceError;
use crate::reducer::{lemma_block_steps_split, lemma_run_append, run, Reducer, Step};

verus! {

/// Every step emits at most one command.
pub open spec fn single_emissions(steps: Seq<Step>) -> bool {
    forall|k: int| 0 <= k < steps.len() ==> (#[trigger] steps[k] matches Ok(e) ==> e.len() <= 1)
}

/// Steps that emit at most one command each emit no more commands than
/// there are steps.
pub proof fn lemma_run_bounded(steps: Seq<Step>)
    requires
        single_emissions(steps),
    ensures
        run(steps).0.len() <= steps.len(),
    decreases steps.len(),
{
    if steps.len() > 0 {
        let d = steps.drop_last();
        assert(single_emissions(d)) by {
            assert forall|k: int| 0 <= k < d.len() implies (#[trigger] d[k] matches Ok(e) ==> e.len()
                <= 1) by {
                assert(d[k] == steps[k]);
            }
        }
        lemma_run_bounded(d);
        assert(steps.last() == steps[steps.len() - 1]);
    }
}

/// A valid transaction is reduced by one attempt for each input, in order,
/// then one for each output, in order, at its own index; no attempt emits
/// more than one command, so the transaction emits at most one command per
/// input and output.
pub proof fn lemma_valid_tx_attempts(r: Reducer, tx: Transaction, ctx: BlockContext)
    requires
        tx.valid,
    ensures
        r.tx_steps(tx, ctx).len() == tx.inputs@.len() + tx.outputs@.len(),
        forall|i: int|
            0 <= i < tx.inputs@.len() ==> r.tx_steps(tx, ctx)[i] == r.inbound_step(
                ctx,
                #[trigger] tx.inputs@[i],
            ),
        forall|j: int|
            0 <= j < tx.outputs@.len() ==> r.tx_steps(tx, ctx)[tx.inputs@.len() + j]
                == r.outbound_step(tx, #[trigger] tx.outputs@[j], j as nat),
        single_emissions(r.tx_steps(tx, ctx)),
        run(r.tx_steps(tx, ctx)).0.len() <= tx.inputs@.len() + tx.outputs@.len(),
{
    let steps = r.tx_steps(tx, ctx);
    assert forall|j: int| 0 <= j < tx.outputs@.len() implies steps[tx.inputs@.len() + j]
        == r.outbound_step(tx, #[trigger] tx.outputs@[j], j as nat) by {
        assert(steps[tx.inputs@.len() + j] == r.outbound_steps(tx)[j]);
    }
    lemma_run_bounded(steps);
}

/// An invalid transaction is reduced by one attempt for each collateral
/// input, in order, then, where there is a collateral return, one addition
/// attempt for it at the index equal to the number of regular outputs; its
/// regular inputs and outputs are not consulted.
pub proof fn lemma_invalid_tx_attempts(r: Reducer, tx: Transaction, ctx: BlockContext)
    requires
        !tx.valid,
    ensures
        r.tx_steps(tx, ctx).len() == tx.collateral@.len() + (if tx.collateral_return is Some {
            1int
        } else {
            0int
        }),
        forall|i: int|
            0 <= i < tx.collateral@.len() ==> r.tx_steps(tx, ctx)[i] == r.inbound_step(
                ctx,
                #[trigger] tx.collateral@[i],
            ),
        tx.collateral_return matches Some(o) ==> r.tx_steps(tx, ctx)[tx.collateral@.len() as int]
            == r.outbound_step(tx, o, tx.outputs@.len()),
        forall|other: Transaction|
            other.hash == tx.hash && other.valid == tx.valid && other.collateral == tx.collateral
                && other.collateral_return == tx.collateral_return && other.outputs@.len()
                == tx.outputs@.len() ==> #[trigger] r.tx_steps(other, ctx) == r.tx_steps(tx, ctx),
        single_emissions(r.tx_steps(tx, ctx)),
{
    let steps = r.tx_steps(tx, ctx);
    assert forall|other: Transaction|
        other.hash == tx.hash && other.valid == tx.valid && other.collateral == tx.collateral
            && other.collateral_return == tx.collateral_return && other.outputs@.len()
            == tx.outputs@.len() implies #[trigger] r.tx_steps(other, ctx) == steps by {
        assert(r.collateral_return_steps(other) =~= r.collateral_return_steps(tx));
        assert(r.inbound_steps(ctx, other.collateral@) =~= r.inbound_steps(ctx, tx.collateral@));
    }
}

/// The member that an addition of output `index` of `tx` carries is the
/// member that a removal carries when a reference to that output is
/// consumed and resolves to it: under the same key, and emitted exactly
/// when the addition is.
pub proof fn lemma_identifier_round_trip(
    r: Reducer,
    tx: Transaction,
    o: TxOutput,
    index: nat,
    ctx: BlockContext,
    input: OutputRef,
)
    requires
        input.hash@ == tx.hash@,
        input.index == index,
        ctx.resolve(input) == Some(o),
    ensures
        r.outbound_step(tx, o, index) is Ok <==> r.inbound_step(ctx, input) is Ok,
        r.outbound_step(tx, o, index) matches Ok(added) ==> {
            let removed = r.inbound_step(ctx, input)->Ok_0;
            &&& added.len() == removed.len()
            &&& added.len() == 1 ==> {
                &&& added[0].0 == SetOp::Add
                &&& removed[0].0 == SetOp::Remove
                &&& added[0].1 == removed[0].1
                &&& added[0].2 == removed[0].2
                &&& added[0].2 == identifier(tx.hash@, index)
            }
        },
{
}

/// Under a tolerant policy a reference that does not resolve emits nothing
/// and ends nothing: the steps around it run as if it were absent.
pub proof fn lemma_tolerated_missing(
    r: Reducer,
    ctx: BlockContext,
    input: OutputRef,
    before: Seq<Step>,
    after: Seq<Step>,
)
    requires
        r.policy.tolerates_missing(),
        ctx.resolve(input) is None,
    ensures
        r.inbound_step(ctx, input) == Ok::<Seq<crate::command::Mutation>, ReduceError>(Seq::empty()),
        run(before + seq![r.inbound_step(ctx, input)] + after) == run(before + after),
{
    let x = r.inbound_step(ctx, input);
    reveal_with_fuel(run, 2);
    assert(seq![x].drop_last() =~= Seq::<Step>::empty());
    lemma_run_append(before, seq![x]);
    lemma_run_append(before + seq![x], after);
    lemma_run_append(before, after);
    assert(run(before).0 + Seq::empty() =~= run(before).0);
}

/// Under a strict policy a reference that does not resolve fails the
/// reduction: after it no further command is emitted.
pub proof fn lemma_strict_missing(
    r: Reducer,
    ctx: BlockContext,
    input: OutputRef,
    before: Seq<Step>,
    after: Seq<Step>,
)
    requires
        !r.policy.tolerates_missing(),
        ctx.resolve(input) is None,
        run(before).1 is None,
    ensures
        r.inbound_step(ctx, input) == Err::<Seq<crate::command::Mutation>, ReduceError>(
            ReduceError::MissingUtxo(input),
        ),
        run(before + seq![r.inbound_step(ctx, input)] + after) == (
            run(before).0,
            Some(ReduceError::MissingUtxo(input)),
        ),
{
    let x = r.inbound_step(ctx, input);
    reveal_with_fuel(run, 2);
    assert(seq![x].drop_last() =~= Seq::<Step>::empty());
    lemma_run_append(before, seq![x]);
    lemma_run_append(before + seq![x], after);
    assert(run(before).0 + Seq::empty() =~= run(before).0);
}

/// Every command that any step emits satisfies `p`.
pub open spec fn emissions_satisfy(steps: Seq<Step>, p: spec_fn(Mutation) -> bool) -> bool {
    forall|k: int, m: int|
        0 <= k < steps.len() && #[trigger] steps[k] is Ok && 0 <= m < steps[k]->Ok_0.len() ==> p(
            #[trigger] steps[k]->Ok_0[m],
        )
}

/// What holds of every command each step may emit holds of every command
/// the steps emit together.
pub proof fn lemma_run_satisfies(steps: Seq<Step>, p: spec_fn(Mutation) -> bool)
    requires
        emissions_satisfy(steps, p),
    ensures
        forall|m: int| 0 <= m < run(steps).0.len() ==> p(#[trigger] run(steps).0[m]),
    decreases steps.len(),
{
    if steps.len() > 0 {
        let d = steps.drop_last();
        assert forall|k: int, m: int|
            0 <= k < d.len() && #[trigger] d[k] is Ok && 0 <= m < d[k]->Ok_0.len() implies p(
            #[trigger] d[k]->Ok_0[m],
        ) by {
            assert(d[k] == steps[k]);
        }
        lemma_run_satisfies(d, p);
        let last = steps[steps.len() - 1];
        assert(steps.last() == last);
        if run(d).1 is None && last is Ok {
            let all = run(steps).0;
            assert forall|m: int| 0 <= m < all.len() implies p(#[trigger] all[m]) by {
                if m >= run(d).0.len() {
                    assert(all[m] == last->Ok_0[m - run(d).0.len()]);
                }
            }
        }
    }
}

/// Where steps run without error, the commands of the first part come
/// before those of the second.
pub proof fn lemma_run_split(s: Seq<Step>, t: Seq<Step>)
    requires
        run(s + t).1 is None,
    ensures
        run(s).1 is None,
        run(t).1 is None,
        run(s + t).0 == run(s).0 + run(t).0,
{
    lemma_run_append(s, t);
}

/// A valid transaction that reduces without error emits removals only for
/// its inputs, at most one per input, followed by additions only for its
/// own outputs, at most one per output, named by the transaction hash and
/// an output index.
pub proof fn lemma_valid_tx_commands(r: Reducer, tx: Transaction, ctx: BlockContext)
    requires
        tx.valid,
        run(r.tx_steps(tx, ctx)).1 is None,
    ensures
        ({
            let removed = run(r.inbound_steps(ctx, tx.inputs@)).0;
            let added = run(r.outbound_steps(tx)).0;
            &&& run(r.tx_steps(tx, ctx)).0 == removed + added
            &&& removed.len() <= tx.inputs@.len()
            &&& added.len() <= tx.outputs@.len()
            &&& forall|m: int|
                0 <= m < removed.len() ==> (#[trigger] removed[m]).0 == SetOp::Remove && exists|
                    i: int,
                |
                    0 <= i < tx.inputs@.len() && removed[m].2 == identifier(
                        (#[trigger] tx.inputs@[i]).hash@,
                        tx.inputs@[i].index as nat,
                    )
            &&& forall|m: int|
                0 <= m < added.len() ==> (#[trigger] added[m]).0 == SetOp::Add && exists|j: nat|
                    j < tx.outputs@.len() && added[m].2 == #[trigger] identifier(tx.hash@, j)
        }),
{
    let ins = r.inbound_steps(ctx, tx.inputs@);
    let outs = r.outbound_steps(tx);
    lemma_run_split(ins, outs);
    let p_in = |c: Mutation|
        c.0 == SetOp::Remove && exists|i: int|
            0 <= i < tx.inputs@.len() && c.2 == identifier(
                (#[trigger] tx.inputs@[i]).hash@,
                tx.inputs@[i].index as nat,
            );
    let p_out = |c: Mutation|
        c.0 == SetOp::Add && exists|j: nat|
            j < tx.outputs@.len() && c.2 == #[trigger] identifier(tx.hash@, j);
    assert forall|k: int, m: int|
        0 <= k < ins.len() && #[trigger] ins[k] is Ok && 0 <= m < ins[k]->Ok_0.len() implies p_in(
        #[trigger] ins[k]->Ok_0[m],
    ) by {}
    assert forall|k: int, m: int|
        0 <= k < outs.len() && #[trigger] outs[k] is Ok && 0 <= m < outs[k]->Ok_0.len()
            implies p_out(#[trigger] outs[k]->Ok_0[m]) by {}
    lemma_run_satisfies(ins, p_in);
    lemma_run_satisfies(outs, p_out);
    lemma_valid_tx_attempts(r, tx, ctx);
    assert(single_emissions(ins)) by {
        assert forall|k: int| 0 <= k < ins.len() implies (#[trigger] ins[k] matches Ok(e) ==> e.len()
            <= 1) by {
            assert(ins[k] == r.tx_steps(tx, ctx)[k]);
        }
    }
    assert(single_emissions(outs)) by {
        assert forall|k: int| 0 <= k < outs.len() implies (#[trigger] outs[k] matches Ok(e) ==> e.len()
            <= 1) by {
            assert(outs[k] == r.tx_steps(tx, ctx)[tx.inputs@.len() + k]);
        }
    }
    lemma_run_bounded(ins);
    lemma_run_bounded(outs);
}

proof fn lemma_decimal_len(n: nat)
    ensures
        n < 10 <==> decimal(n).len() == 1,
        decimal(n).len() >= 1,
    decreases n,
{
    if n >= 10 {
        lemma_decimal_len(n / 10);
    }
}

/// Different numbers have different decimal texts.
pub proof fn lemma_decimal_injective(a: nat, b: nat)
    requires
        decimal(a) == decimal(b),
    ensures
        a == b,
    decreases a,
{
    lemma_decimal_len(a);
    lemma_decimal_len(b);
    if a >= 10 && b >= 10 {
        let da = decimal(a / 10);
        let db = decimal(b / 10);
        assert(decimal(a).last() == digit_char(a % 10));
        assert(decimal(b).last() == digit_char(b % 10));
        assert(da =~= decimal(a).drop_last());
        assert(db =~= decimal(b).drop_last());
        lemma_decimal_injective(a / 10, b / 10);
    } else if a < 10 && b < 10 {
        assert(decimal(a)[0] == digit_char(a));
        assert(decimal(b)[0] == digit_char(b));
    }
}

/// Identifiers of two outputs of one transaction differ where their
/// indices differ.
pub proof fn lemma_identifier_distinct(hash: Seq<char>, i: nat, j: nat)
    requires
        i != j,
    ensures
        identifier(hash, i) != identifier(hash, j),
{
    if identifier(hash, i) == identifier(hash, j) {
        let n = hash.len() as int + 1;
        assert(identifier(hash, i).skip(n) =~= decimal(i));
        assert(identifier(hash, j).skip(n) =~= decimal(j));
        lemma_decimal_injective(i, j);
    }
}

/// An invalid transaction that reduces without error emits removals only
/// for its collateral inputs, then, at most, one addition: the collateral
/// return, named with the index equal to the number of regular outputs,
/// which no regular output's identifier equals.
pub proof fn lemma_invalid_tx_commands(r: Reducer, tx: Transaction, ctx: BlockContext)
    requires
        !tx.valid,
        run(r.tx_steps(tx, ctx)).1 is None,
    ensures
        ({
            let removed = run(r.inbound_steps(ctx, tx.collateral@)).0;
            let added = run(r.collateral_return_steps(tx)).0;
            &&& run(r.tx_steps(tx, ctx)).0 == removed + added
            &&& forall|m: int|
                0 <= m < removed.len() ==> (#[trigger] removed[m]).0 == SetOp::Remove && exists|
                    i: int,
                |
                    0 <= i < tx.collateral@.len() && removed[m].2 == identifier(
                        (#[trigger] tx.collateral@[i]).hash@,
                        tx.collateral@[i].index as nat,
                    )
            &&& added.len() <= 1
            &&& tx.collateral_return is None ==> added.len() == 0
            &&& added.len() == 1 ==> {
                &&& added[0].0 == SetOp::Add
                &&& added[0].2 == identifier(tx.hash@, tx.outputs@.len())
                &&& forall|j: nat|
                    j < tx.outputs@.len() ==> added[0].2 != #[trigger] identifier(tx.hash@, j)
            }
        }),
{
    let ins = r.inbound_steps(ctx, tx.collateral@);
    let tail = r.collateral_return_steps(tx);
    lemma_run_split(ins, tail);
    let p_in = |c: Mutation|
        c.0 == SetOp::Remove && exists|i: int|
            0 <= i < tx.collateral@.len() && c.2 == identifier(
                (#[trigger] tx.collateral@[i]).hash@,
                tx.collateral@[i].index as nat,
            );
    assert forall|k: int, m: int|
        0 <= k < ins.len() && #[trigger] ins[k] is Ok && 0 <= m < ins[k]->Ok_0.len() implies p_in(
        #[trigger] ins[k]->Ok_0[m],
    ) by {}
    lemma_run_satisfies(ins, p_in);
    reveal_with_fuel(run, 2);
    match tx.collateral_return {
        Some(o) => {
            assert(tail.drop_last() =~= Seq::<Step>::empty());
            assert(tail.last() == r.outbound_step(tx, o, tx.outputs@.len()));
            assert forall|j: nat| j < tx.outputs@.len() implies identifier(
                tx.hash@,
                tx.outputs@.len(),
            ) != #[trigger] identifier(tx.hash@, j) by {
                lemma_identifier_distinct(tx.hash@, tx.outputs@.len(), j);
            }
        },
        None => {},
    }
}

/// The steps of a block: those before transaction `t`, then the inputs of
/// `t` before input `i`, the step of input `i` itself, and the rest.
proof fn lemma_block_steps_around(r: Reducer, txs: Seq<Transaction>, ctx: BlockContext, t: int, i: int)
    requires
        0 <= t < txs.len(),
        txs[t].valid,
        0 <= i < txs[t].inputs@.len(),
    ensures
        ({
            let ins = r.inbound_steps(ctx, txs[t].inputs@);
            r.block_steps(txs, ctx) == (r.block_steps(txs.take(t), ctx) + ins.take(i)) + seq![
                r.inbound_step(ctx, txs[t].inputs@[i]),
            ] + (ins.skip(i + 1) + r.outbound_steps(txs[t]) + r.block_steps(txs.skip(t + 1), ctx))
        }),
{
    let ins = r.inbound_steps(ctx, txs[t].inputs@);
    let rest = txs.skip(t);
    lemma_block_steps_split(r, txs, ctx, t);
    lemma_block_steps_split(r, rest, ctx, 1);
    assert(rest.take(1).drop_last() =~= Seq::<Transaction>::empty());
    assert(rest.take(1).last() == txs[t]);
    assert(rest.skip(1) =~= txs.skip(t + 1));
    assert(r.block_steps(Seq::<Transaction>::empty(), ctx) == Seq::<Step>::empty());
    assert(r.block_steps(rest.take(1), ctx) =~= r.tx_steps(txs[t], ctx));
    assert(r.block_steps(txs, ctx) == r.block_steps(txs.take(t), ctx) + (ins + r.outbound_steps(
        txs[t],
    )) + r.block_steps(txs.skip(t + 1), ctx));
    assert(ins =~= ins.take(i) + seq![ins[i]] + ins.skip(i + 1));
    assert(r.block_steps(txs, ctx) =~= (r.block_steps(txs.take(t), ctx) + ins.take(i)) + seq![
        ins[i],
    ] + (ins.skip(i + 1) + r.outbound_steps(txs[t]) + r.block_steps(txs.skip(t + 1), ctx)));
}

/// Under a strict policy, an input of a valid transaction that does not
/// resolve fails the whole block: the commands emitted are those of the
/// steps before it, and none after.
pub proof fn lemma_block_strict_missing(
    r: Reducer,
    txs: Seq<Transaction>,
    ctx: BlockContext,
    t: int,
    i: int,
)
    requires
        !r.policy.tolerates_missing(),
        0 <= t < txs.len(),
        txs[t].valid,
        0 <= i < txs[t].inputs@.len(),
        ctx.resolve(txs[t].inputs@[i]) is None,
        run(
            r.block_steps(txs.take(t), ctx) + r.inbound_steps(ctx, txs[t].inputs@).take(i),
        ).1 is None,
    ensures
        run(r.block_steps(txs, ctx)) == (
            run(
                r.block_steps(txs.take(t), ctx) + r.inbound_steps(ctx, txs[t].inputs@).take(i),
            ).0,
            Some(ReduceError::MissingUtxo(txs[t].inputs@[i])),
        ),
{
    let ins = r.inbound_steps(ctx, txs[t].inputs@);
    lemma_block_steps_around(r, txs, ctx, t, i);
    lemma_strict_missing(
        r,
        ctx,
        txs[t].inputs@[i],
        r.block_steps(txs.take(t), ctx) + ins.take(i),
        ins.skip(i + 1) + r.outbound_steps(txs[t]) + r.block_steps(txs.skip(t + 1), ctx),
    );
}

/// Under a tolerant policy, a block in which an input of a valid
/// transaction does not resolve reduces exactly as the same block without
/// that input.
pub proof fn lemma_block_tolerated_missing(
    r: Reducer,
    txs: Seq<Transaction>,
    without: Seq<Transaction>,
    ctx: BlockContext,
    t: int,
    i: int,
)
    requires
        r.policy.tolerates_missing(),
        0 <= t < txs.len(),
        txs[t].valid,
        0 <= i < txs[t].inputs@.len(),
        ctx.resolve(txs[t].inputs@[i]) is None,
        without.len() == txs.len(),
        forall|k: int| 0 <= k < txs.len() && k != t ==> without[k] == txs[k],
        without[t].valid,
        without[t].hash == txs[t].hash,
        without[t].outputs == txs[t].outputs,
        without[t].inputs@ == txs[t].inputs@.remove(i),
    ensures
        run(r.block_steps(txs, ctx)) == run(r.block_steps(without, ctx)),
{
    let ins = r.inbound_steps(ctx, txs[t].inputs@);
    let ins2 = r.inbound_steps(ctx, without[t].inputs@);
    let rest = without.skip(t);
    lemma_block_steps_around(r, txs, ctx, t, i);
    lemma_block_steps_split(r, without, ctx, t);
    lemma_block_steps_split(r, rest, ctx, 1);
    assert(rest.take(1).drop_last() =~= Seq::<Transaction>::empty());
    assert(rest.take(1).last() == without[t]);
    assert(rest.skip(1) =~= without.skip(t + 1));
    assert(without.skip(t + 1) =~= txs.skip(t + 1));
    assert(without.take(t) =~= txs.take(t));
    assert(r.block_steps(Seq::<Transaction>::empty(), ctx) == Seq::<Step>::empty());
    assert(r.block_steps(rest.take(1), ctx) =~= r.tx_steps(without[t], ctx));
    assert(ins2 =~= ins.take(i) + ins.skip(i + 1));
    assert(r.outbound_steps(without[t]) =~= r.outbound_steps(txs[t]));
    let before = r.block_steps(txs.take(t), ctx) + ins.take(i);
    let after = ins.skip(i + 1) + r.outbound_steps(txs[t]) + r.block_steps(txs.skip(t + 1), ctx);
    assert(r.block_steps(without, ctx) == r.block_steps(txs.take(t), ctx) + (ins2 + r.outbound_steps(
        txs[t],
    )) + r.block_steps(txs.skip(t + 1), ctx));
    assert(r.block_steps(without, ctx) =~= before + after);
    lemma_tolerated_missing(r, ctx, txs[t].inputs@[i], before, after);
}

} // verus!
