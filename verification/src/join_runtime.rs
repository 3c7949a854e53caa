//! The incremental joins of two maps.
pub mod state;
pub mod rows;
pub mod sharded;
pub mod sharded_laws;
pub mod sharded_join;
pub mod two_stage;
pub mod keyed;
pub mod source_laws;
