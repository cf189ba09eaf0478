pub mod address;
pub mod counters;
pub mod latency;
pub mod report;
pub mod text;
pub mod ipparse;
pub mod bus;
pub mod classifier;
pub mod table;
pub mod tracker;
