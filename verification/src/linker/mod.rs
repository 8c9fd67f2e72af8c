//! Linking one module: its export surface and the matches of its imports.

pub mod exports;
pub mod imports;
