//! The module loader: which specifier to resolve and which module to load
//! next, and what each result adds to the graph.

pub mod module_loader;
pub mod plan;
pub mod schedule;
pub mod task;
pub mod world;

pub use self::module_loader::{ModuleLoader, ModuleLoaderOutput};


