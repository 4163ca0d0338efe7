//! What is made of finished fits: residuals against the truth and pulls.
pub mod structs;
pub mod statistics;
pub mod run;
