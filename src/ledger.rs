use vstd::prelude::*;

verus! {

/// Points at an output created earlier: the hash text of the producing
/// transaction and the output's position in it.
#[derive(Debug)]
pub struct OutputRef {
    pub hash: String,
    pub index: u64,
}

/// An output as this reducer sees it: the text of its owning address, or
/// `None` where the address bytes do not decode.
#[derive(Debug)]
pub struct TxOutput {
    pub address: Option<String>,
}

/// A decoded transaction.
#[derive(Debug)]
pub struct Transaction {
    pub hash: String,
    pub valid: bool,
    pub inputs: Vec<OutputRef>,
    pub outputs: Vec<TxOutput>,
    pub collateral: Vec<OutputRef>,
    pub collateral_return: Option<TxOutput>,
}

/// A decoded block: its transactions in ledger order.
#[derive(Debug)]
pub struct Block {
    pub txs: Vec<Transaction>,
}

/// The outputs that references in one block may resolve to.
#[derive(Debug)]
pub struct BlockContext {
    pub utxos: Vec<(OutputRef, TxOutput)>,
}

/// Two references name the same output.
pub open spec fn same_ref(a: OutputRef, b: OutputRef) -> bool {
    a.hash@ == b.hash@ && a.index == b.index
}

/// The output of the first entry of `entries` whose reference is `r`.
pub open spec fn resolve_in(entries: Seq<(OutputRef, TxOutput)>, r: OutputRef) -> Option<TxOutput>
    decreases entries.len(),
{
    if entries.len() == 0 {
        None
    } else if same_ref(entries[0].0, r) {
        Some(entries[0].1)
    } else {
        resolve_in(entries.drop_first(), r)
    }
}

impl OutputRef {
    /// A copy with the same hash text and index.
    pub fn duplicate(&self) -> (r: OutputRef)
        ensures
            r == *self,
    {
        OutputRef { hash: self.hash.clone(), index: self.index }
    }
}

impl TxOutput {
    /// A copy with the same address.
    pub fn duplicate(&self) -> (r: TxOutput)
        ensures
            r == *self,
    {
        match &self.address {
            Some(a) => TxOutput { address: Some(a.clone()) },
            None => TxOutput { address: None },
        }
    }
}

impl BlockContext {
    pub open spec fn resolve(&self, r: OutputRef) -> Option<TxOutput> {
        resolve_in(self.utxos@, r)
    }

    /// Looks `r` up among the outputs visible to this block.
    pub fn find_utxo(&self, r: &OutputRef) -> (res: Option<TxOutput>)
        ensures
            res == self.resolve(*r),
    {
        let mut i: usize = 0;
        assert(self.utxos@.subrange(0, self.utxos@.len() as int) =~= self.utxos@);
        while i < self.utxos.len()
            invariant
                0 <= i <= self.utxos@.len(),
                resolve_in(self.utxos@, *r) == resolve_in(self.utxos@.subrange(i as int, self.utxos@.len() as int), *r),
            decreases self.utxos@.len() - i,
        {
            let entry = &self.utxos[i];
            let ghost rest = self.utxos@.subrange(i as int, self.utxos@.len() as int);
            assert(rest[0] == *entry);
            if entry.0.hash == r.hash && entry.0.index == r.index {
                return Some(entry.1.duplicate());
            }
            assert(rest.drop_first() =~= self.utxos@.subrange(i + 1, self.utxos@.len() as int));
            i = i + 1;
        }
        None
    }
}

} // verus!
