//! Dependency graphs of npm lock files, module resolution over
//! `node_modules` paths, and the path logic of an OPFS-backed project
//! file system.
mod text;
pub mod str_map;
pub mod pkg_graph;
pub mod dependency_graph;
pub mod dep_tree;
pub mod model;
pub mod opfs;
pub mod package_manager;
pub mod tarball;
