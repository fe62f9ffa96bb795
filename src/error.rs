//! The errors of linking a document.
use vstd::prelude::*;

use crate::doc::DocError;
use crate::query::QueryError;
use crate::source::SourceError;

verus! {

/// Why a document could not be read or linked.
#[derive(Debug)]
pub enum Error {
    Document(DocError),
    Source(SourceError),
    Query(QueryError),
}

} // verus!
