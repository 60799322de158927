//! Production planning for crafting networks.
//!
//! From a catalog of recipes and a list of desired output rates the
//! library builds a graph of machines and the flows between them
//! (`expand`), splits every machine that is asked for more than it can
//! put out into as many as it takes (`legalize`), and inspects the result
//! (`verify`); `plan` does the first two in one step. Rates are whole numbers of rate units; what is scaled is
//! rounded up, so that no machine is promised less than it needs.
pub mod catalog;
pub mod expand;
pub mod flow;
pub mod graph;
pub mod laws;
pub mod legalize;
pub mod lemmas;
pub mod order;
pub mod plan;
pub mod rate;
pub mod slicing;
pub mod standard;
pub mod store;
pub mod verify;
