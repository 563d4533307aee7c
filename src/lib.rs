pub mod decimal;
pub mod error;
pub mod fields;
pub mod metrics;
pub mod text;
pub mod units;
