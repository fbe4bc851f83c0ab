pub mod anneal;
