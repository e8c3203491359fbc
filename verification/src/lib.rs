//! A personal ledger engine: exact money in integer cents, month reports in a
//! fixed display offset, and confirmed edits of the stored records.

pub mod cli_customs;
pub mod clock;
pub mod confirm;
pub mod database;
pub mod digits;
pub mod error;
pub mod money;
pub mod process;
pub mod record;
pub mod report;
pub mod store;
pub mod table;
