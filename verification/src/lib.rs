#![allow(unused_imports)]
use vstd::prelude::*;

pub mod count_by;
pub mod delta;
pub mod dep_node;
pub mod diff;
pub mod diff_laws;
pub mod diff_runtime;
pub mod foreign_key;
pub mod func;
pub mod fx;
pub mod group_by;
pub mod guards;
pub mod index;
pub mod inner_join;
pub mod join_lifecycle;
pub mod join_projection_laws;
pub mod join_region;
pub mod join_result_laws;
pub mod join_runtime;
pub mod left_join;
pub mod left_semi_join;
pub mod map_runtime;
pub mod map_values;
pub mod map_values_cell;
pub mod match_order_laws;
pub mod merge;
pub mod multi_join_runtime;
pub mod multi_left_join;
pub mod operator_laws;
pub mod order_laws;
pub mod ordered_set;
pub mod parallel;
pub mod project;
pub mod project_cell;
pub mod project_many;
pub mod projection_laws;
pub mod query;
pub mod routing_laws;
pub mod row_fns;
pub mod select;
pub mod select_cell;
pub mod shard;
pub mod stateless_runtime;
pub mod value;
