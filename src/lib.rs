pub mod amount;
pub mod laws;
pub mod pools;
pub mod quote;
pub mod router;
pub mod types;
pub mod u256;
pub mod utils;

pub use types::{
    Address, AggregatorError, OptimizationStrategy, PoolInfo, Result, RouteHop, RouteQuote,
    TokenInfo,
};
pub use pools::{CacheSnapshot, CacheStats, PoolManager};
pub use quote::{QuoteEngine, QuoteResult};
pub use router::Router;
pub use u256::U256;
