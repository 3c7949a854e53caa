pub mod declaration;
pub mod stage_runtime;
pub mod known_joins;
pub mod arrivals;
pub mod trace;
pub mod sources;
pub mod router;
pub mod plan;
pub mod stage_laws;
pub mod region_laws;
