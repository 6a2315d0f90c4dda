//! Cross-exchange price premiums between a won-quoting exchange and a
//! euro-quoting one: raw tickers are canonicalized by asset, converted to euro
//! prices and volumes, filtered for liquidity, joined by asset, and ranked by
//! the premium of the home exchange over the reference exchange.
//!
//! Amounts are fixed-point integers: prices and volumes in units of 1e-12 EUR,
//! premiums in hundredths of a percent. Pairs are ranked on their exact price
//! ratios.

pub mod decimal;
pub mod matcher;
pub mod premium;
pub mod quote;
pub mod rank;
pub mod report;
pub mod symbol;
