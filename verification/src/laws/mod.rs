//! What holds of a drain check as a whole.

pub mod drain;
pub mod health;
pub mod lag;
pub mod query;
pub mod report;
pub mod views;
