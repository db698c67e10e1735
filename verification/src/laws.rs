//! What the operations are for, stated of their inputs and results.

pub mod basics;
pub mod changing;
pub mod embedded;
pub mod filter;
pub mod handling;
pub mod marking;
pub mod moving;
pub mod naming;
pub mod placing;
pub mod saving;
pub mod showing;
pub mod written;
