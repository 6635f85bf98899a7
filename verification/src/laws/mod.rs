//! What holds of the store whatever is done with it: the laws of its
//! changes, its identifiers, its listings, its walks over the edges, and
//! of its exchange with a snapshot.

pub mod changes;
pub mod cycles;
pub mod identifiers;
pub mod listing;
pub mod ready;
pub mod reconcile;
pub mod records;
pub mod tree;
