pub mod bitset;
pub mod closure;
pub mod driver;
pub mod queue;
pub mod relabel;
pub mod search;
