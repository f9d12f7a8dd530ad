//! A fixed-point monetary amount: a non-negative decimal value with exactly
//! two fractional digits (cents), stored as an integer count of cents so that
//! arithmetic is exact.

pub mod decimal;
pub mod amount;

pub use amount::Amount;
pub use amount::AmountError;
