//! What the library promises of legalization, proved: capacity, flow
//! conservation, even feeding, and that legalizing twice is legalizing once.
pub mod conservation;
pub mod expansion;
pub mod inspection;
pub mod legal;
pub mod order;
pub mod placing;
pub mod split;
