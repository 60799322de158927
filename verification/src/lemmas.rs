//! What the steps of a split do to the flows: the groundwork of the laws.
pub mod accounting;
pub mod feeding;
pub mod machines;
pub mod routes;
pub mod serving;
pub mod upstream;
