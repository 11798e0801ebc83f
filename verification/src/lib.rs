//! A Block-STM style engine that applies an ordered batch of nonce-checked
//! value transfers to a keyed account store, with an outcome provably equal
//! to strict serial execution in batch order.

pub mod amount;
pub mod block_stm;
pub mod executor;
pub mod mvhashmap;
pub mod ordering;
pub mod results;
pub mod scheduler;
pub mod semantics;
pub mod sequential;
pub mod state;
pub mod types;

pub use amount::Amount;
pub use block_stm::BlockStmExecutor;
pub use executor::{BlockExecutionResult, ExecutionError, ExecutorConfig, ParallelExecutor};
pub use mvhashmap::{MVHashMap, ReadResult, VersionedEntry, WriteResult};
pub use ordering::OrderingMode;
pub use results::ExecutionResult;
pub use scheduler::{Scheduler, SchedulerStats, Task};
pub use sequential::SequentialExecutor;
pub use state::AccountMap;
pub use types::{
    AccessType, AccountState, Address, ExecutionStatus, Incarnation, MemoryAccess, Transaction,
    TxnIndex, Version,
};
