//! A genetic search that splits weighted properties into categories so that
//! each category's share of the total weight comes close to a target share.
pub mod random;
pub mod gene;
pub mod model;
pub mod runner;
pub mod dataset;

pub use runner::run_gui;
