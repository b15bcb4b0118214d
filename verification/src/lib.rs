//! An automated-market-maker core: constant-product pool pricing, a best-route
//! search over a registry of pools, and price-oracle aggregation.

pub mod decimal;
pub mod math;
pub mod oracle;
pub mod pool;
pub mod registry;
pub mod router;
pub mod search;
pub mod text;
pub mod wide;
