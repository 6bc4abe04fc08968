//! Portfolio rebalancing: option groups read into exact decimals, the
//! allocation arithmetic, decimal formatting and a plain text table.

pub mod column;
pub mod decimal;
pub mod format;
pub mod parser;
pub mod rebalance;
pub mod table;
pub mod text;

pub use column::Column;
pub use table::Table;
