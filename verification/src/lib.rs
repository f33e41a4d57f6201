//! Transaction-admission and block-commit synchronization core of a
//! blockchain node: a mempool that admits transactions, keeps them ordered
//! and queryable, selects a gas-bounded subset for block production, and
//! reconciles its contents with committed blocks; plus the all-or-nothing
//! protocol by which a block's seal, header root and height are persisted.

pub mod block;
pub mod importer;
pub mod pool;
pub mod selector;
pub mod service;
pub mod status;
pub mod tx;
