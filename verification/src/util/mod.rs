pub mod decimal;
pub mod double;
pub mod units;
