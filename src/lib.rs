pub mod export;
pub mod format;
pub mod key;
pub mod mode;
pub mod order;
pub mod report;
pub mod table;
