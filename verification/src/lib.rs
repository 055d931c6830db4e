pub mod events;
pub mod ladder;
pub mod level;
pub mod model;
pub mod ops;
pub mod order;
pub mod pool;
pub mod types;
pub mod orderbook;
pub mod rng;
pub mod generator;
pub mod flow;
pub mod sim;
pub mod priority;
pub mod laws;
pub mod reports;
