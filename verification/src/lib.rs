//! Import resolution for WESL modules.
//!
//! A resolution starts at a root module, loads every module that is used ([`load`]), makes
//! the identifiers that are used point at their declarations ([`retarget`]), and merges the
//! modules into one ([`assemble`]), with new names if need be ([`mangle`]). [`resolve`] is
//! where to begin.
//!
//! What holds of a resolution as a whole is proved beside that. What each part does: of paths
//! in [`path_laws`], of tables in [`table_laws`], of the imports of a module in
//! [`import_laws`], of its identifiers in [`link_laws`], and of its references in
//! [`step_laws`]; of the order of loading in [`order_laws`]; of retargeting in
//! [`retarget_laws`], of new names in [`mangle_laws`], and of the outcome in [`output_laws`]
//! and [`error_laws`]. How the parts work together: of the analysis of a module in
//! [`usage_laws`]; of what is loaded in [`load_laws`], [`lazy_laws`] and [`keep_laws`]; of the
//! references that are followed in [`follow_laws`] and [`resolve_laws`]; and of failures in
//! [`blame_laws`]. That views leave nothing out is proved in [`view_laws`].

pub mod assemble;
pub mod blame_laws;
pub mod error;
pub mod error_laws;
pub mod follow_laws;
pub mod import_laws;
pub mod imports;
pub mod keep_laws;
pub mod lazy_laws;
pub mod link;
pub mod link_laws;
pub mod load;
pub mod load_laws;
pub mod mangle;
pub mod mangle_laws;
pub mod module;
pub mod order_laws;
pub mod output_laws;
pub mod path;
pub mod path_laws;
pub mod resolutions;
pub mod resolve;
pub mod resolve_laws;
pub mod retarget;
pub mod retarget_laws;
pub mod step_laws;
pub mod syntax;
pub mod table;
pub mod table_laws;
pub mod usage;
pub mod usage_laws;
pub mod view_laws;
pub mod views;
