//! Resolves directives in documentation text that pull in lines of source
//! files, selected by line numbers, named regions or structural queries.
pub mod anchor;
pub mod doc;
pub mod error;
pub mod json;
pub mod lang;
pub mod left_shift;
pub mod query;
pub mod query_anchor;
pub mod linker;
pub mod scan;
pub mod source;
pub mod strategy;
pub mod template;
pub mod text;
pub mod token;
