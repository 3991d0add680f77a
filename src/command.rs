use vstd::prelude::*;

verus! {

/// What a command does to its set.
#[derive(PartialEq, Eq, Structural, Clone, Copy, Debug)]
pub enum SetOp {
    Add,
    Remove,
}

/// A command as a value: operation, set key, member.
pub type Mutation = (SetOp, Seq<char>, Seq<char>);

/// One instruction to the mapping store: add `member` to, or remove it from,
/// the set under `key`.
#[derive(Debug)]
pub struct CrdtCommand {
    pub op: SetOp,
    pub key: String,
    pub member: String,
}

impl View for CrdtCommand {
    type V = Mutation;

    open spec fn view(&self) -> Mutation {
        (self.op, self.key@, self.member@)
    }
}

/// The set key of `address`: the address, after the prefix where one is set.
pub open spec fn qualified_key(prefix: Option<String>, address: Seq<char>) -> Seq<char> {
    match prefix {
        Some(p) => p@ + address,
        None => address,
    }
}

fn key_for(prefix: &Option<String>, address: &String) -> (r: String)
    ensures
        r@ == qualified_key(*prefix, address@),
{
    match prefix {
        Some(p) => {
            let mut k = p.clone();
            k.append(address.as_str());
            k
        },
        None => address.clone(),
    }
}

impl CrdtCommand {
    /// A command that adds `member` to the set of `address`.
    pub fn set_add(prefix: &Option<String>, address: &String, member: String) -> (r: CrdtCommand)
        ensures
            r@ == (SetOp::Add, qualified_key(*prefix, address@), member@),
    {
        CrdtCommand { op: SetOp::Add, key: key_for(prefix, address), member }
    }

    /// A command that removes `member` from the set of `address`.
    pub fn set_remove(prefix: &Option<String>, address: &String, member: String) -> (r: CrdtCommand)
        ensures
            r@ == (SetOp::Remove, qualified_key(*prefix, address@), member@),
    {
        CrdtCommand { op: SetOp::Remove, key: key_for(prefix, address), member }
    }
}

} // verus!
