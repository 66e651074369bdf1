//! Converts a SCIP index and its source tree into the data of a static code browser.

pub mod text;
pub mod template;
pub mod assoc;
pub mod columns;
pub mod decode;
pub mod config;
pub mod definitions;
pub mod documents;
pub mod file_data;
pub mod function_docs;
pub mod generator;
pub mod index;
pub mod inheritance;
pub mod order;
pub mod paths;
pub mod render;
pub mod site;
