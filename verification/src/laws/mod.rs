//! What holds of the library as a whole, proved from the contracts of its functions.
pub mod chunks;
pub mod commands;
pub mod conversations;
pub mod coverage;
pub mod json;
pub mod notation;
pub mod numbers;
pub mod observations;
pub mod order;
pub mod reading;
pub mod results;
pub mod strings;
pub mod turns;
pub mod words;
