//! Content-based grouping of the files of a root file system.
pub mod canonical_laws;
pub mod clock;
pub mod component_map;
pub mod components;
pub mod file_info;
pub mod host;
pub mod lists;
pub mod number;
pub mod outcome_laws;
pub mod path;
pub mod path_map;
pub mod pip;
pub mod pip_laws;
pub mod ranking;
pub mod record;
pub mod record_laws;
pub mod repos;
pub mod rootfs;
pub mod size;
pub mod sorting_laws;
pub mod stability;
pub mod text;
