//! Cleanup of STEP Part 21 files, with what can be recovered from them.
//!
//! A file is read into an [`ast::Exchange`], changed by passes over its sections, and written
//! again ([`clean`]). Rows of instances, solids that repeat and chains within solids are found
//! and resized ([`count_resize`], [`section_edits`], [`resize`]). Solids that were pushed or
//! turned become nodes of a [`cad_model::CadModel`] ([`cad_recovery`]).
//!
//! Nothing here computes with floating point. Where a decision rests on distances, a caller
//! measures them and hands in what was measured.

pub mod ast;
pub mod bezier_recovery;
pub mod body_bounds;
pub mod body_copies;
pub mod body_cycles;
pub mod body_detection;
pub mod body_graph;
pub mod body_laws;
pub mod body_plan;
pub mod body_rows;
pub mod bound_laws;
pub mod brep;
pub mod cad_ir;
pub mod cad_kernel;
pub mod cad_model;
pub mod cad_recovery;
pub mod chain_detection;
pub mod chain_laws;
pub mod chain_partition;
pub mod chain_pattern;
pub mod chain_reading;
pub mod chain_windows;
pub mod clean;
pub mod clean_again;
pub mod clean_report;
pub mod collapse;
pub mod compatibility;
pub mod components;
pub mod consolidate;
pub mod congruence;
pub mod count_laws;
pub mod count_resize;
pub mod count_run;
pub mod counts;
pub mod curve_replicas;
pub mod cycles;
pub mod face_coalesce;
pub mod face_groups;
pub mod face_info;
pub mod face_laws;
pub mod face_plan;
pub mod feature_laws;
pub mod features;
pub mod finite;
pub mod formed_sheet;
pub mod geometric_intern;
pub mod grammar;
pub mod graph;
pub mod instance_counts;
pub mod instance_groups;
pub mod instance_lattices;
pub mod instance_laws;
pub mod instances;
pub mod intern;
pub mod kcl;
pub mod keys;
pub mod line_laws;
pub mod line_recovery;
pub mod list_laws;
pub mod lookup;
pub mod loops;
pub mod marks;
pub mod measured;
pub mod minify;
pub mod model_laws;
pub mod number;
pub mod options;
pub mod parameters;
pub mod partition_joins;
pub mod partition_plan;
pub mod partition_recovery;
pub mod pattern_resize;
pub mod patterns;
pub mod periodic_bodies;
pub mod periodic_chains;
pub mod periodic_resize;
pub mod placements;
pub mod planar_features;
pub mod planar_plan;
pub mod profile_curves;
pub mod pose_laws;
pub mod read;
pub mod refs;
pub mod refusal_laws;
pub mod renumber;
pub mod reports;
pub mod reread;
pub mod resize;
pub mod resize_laws;
pub mod root_laws;
pub mod row_laws;
pub mod scan;
pub mod section_edits;
pub mod sets;
pub mod settled;
pub mod shim;
pub mod signatures;
pub mod stable;
pub mod stats;
pub mod styles;
pub mod support_laws;
pub mod text;
pub mod texts;
pub mod unambiguous;
pub mod union_find;
pub mod value_laws;
pub mod weld_laws;
pub mod write;
