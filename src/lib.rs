pub mod command;
pub mod ident;
pub mod laws;
pub mod ledger;
pub mod order;
pub mod policy;
pub mod reducer;

pub use command::{CrdtCommand, SetOp};
pub use ident::format_identifier;
pub use ledger::{Block, BlockContext, OutputRef, Transaction, TxOutput};
pub use policy::{ErrorAction, ReduceError, RuntimePolicy};
pub use reducer::{Config, Reducer};
