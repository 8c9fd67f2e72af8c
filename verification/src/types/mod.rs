//! Plain structs and enums that store what the stages compute.

pub mod ast_scope;
pub mod ast_symbols;
pub mod entry_point;
pub mod linking_metadata;
pub mod match_import_kind;
pub mod module_id;
pub mod module_table;
pub mod namespace_alias;
pub mod resolved_request_info;
pub mod symbols;
pub mod syntax_tree;
