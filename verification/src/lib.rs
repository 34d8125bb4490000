//! Brute-force feature selection: combination enumeration, task batching,
//! stratified fold assignment and the bookkeeping around them.
pub mod binomial;
pub mod generator;
pub mod text;
pub mod config;
pub mod redis_client;
pub mod trainer;
pub mod folds;
pub mod fold_laws;
pub mod collector;
