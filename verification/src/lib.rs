//! Graph construction and cross-module linking for a module bundler.
//!
//! The scan stage turns a list of entry specifiers into a module graph: it
//! decides which specifier to resolve and which module to load next, claims
//! every canonical path once, analyses the scopes and symbols of each loaded
//! module, flattens wildcard re-exports, matches imports with exports and
//! gives every declaration one canonical identity and a final name.
//!
//! Resolution, loading and parsing are done by the caller: the stage hands
//! out tasks, takes their results in any order, and applies them in the
//! order in which the tasks were issued.
//!
//! # What is proved
//!
//! Every function states what it returns, and Verus proves that it does. Beyond
//! that, the crate proves what holds of the functions together:
//!
//! - two scans that begin alike in the same world build the same graph,
//!   whichever tasks are completed first
//!   ([`module_loader::world::lemma_same_world_same_graph`]), and the order in
//!   which results arrive does not matter
//!   ([`module_loader::schedule::lemma_order_does_not_matter`]);
//! - every module that is not external is loaded by exactly one task, every
//!   import that resolves to a path leads to the one module of that path, and
//!   the number of tasks is bounded by the size of the graph
//!   ([`module_loader::plan`]);
//! - what a module exports itself comes before what its wildcards carry, a
//!   wildcard never carries a default export, and a name that stands for two
//!   declarations cannot be imported ([`linker`]);
//! - merging identities is idempotent and does not depend on the order
//!   ([`types::symbols`]);
//! - no two identities of the output scope get the same final name
//!   ([`types::symbols::Symbols::lemma_named_apart`]);
//! - two imports of one module that ask for the namespace object of the same
//!   module get the same object ([`linker::imports::lemma_namespace_shared`]).
//!
//! # What is believed
//!
//! The syntax trees are kept in an `index_vec::IndexVec`. Verus does not read
//! that crate: what its operations do is stated, without proof, in
//! [`ast_table`].

pub mod ast_scanner;
pub mod ast_table;
pub mod error;
pub mod link_graph;
pub mod linker;
pub mod module_loader;
pub mod options;
pub mod renamer;
pub mod runtime;
pub mod stages;
pub mod types;

pub use crate::error::{BatchedErrors, BatchedResult, BuildError};
pub use crate::module_loader::task::{Completion, Request, Task};
pub use crate::module_loader::{ModuleLoader, ModuleLoaderOutput};
pub use crate::options::{InputItem, InputOptions};
pub use crate::stages::scan_stage::{ScanEvent, ScanPhase, ScanStage, ScanStageOutput, ScanStep};
pub use crate::types::module_id::ModuleId;
pub use crate::types::resolved_request_info::ResolvedRequestInfo;
pub use crate::types::syntax_tree::{ImportKind, Specifier, SyntaxNode, SyntaxTree};
