//! Bootstrap and batch-encoding logic for a demonstration `items` table:
//! deciding what to do with the table from its row count, building the seed
//! rows, encoding batches for server-side expansion, and comparing the rows
//! that two equivalent queries return.

pub mod decimal;
pub mod seed;
pub mod bootstrap;
pub mod batch;
pub mod expand;
pub mod rows;
