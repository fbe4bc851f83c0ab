pub mod multisearch;
pub mod progress;
pub mod search;
