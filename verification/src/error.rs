//! The errors that stop a run.

use vstd::prelude::*;

verus! {

/// Everything that can stop a run before a route is produced.
#[derive(Debug, PartialEq, Eq)]
pub enum RouteError {
    /// No system or region matches the query.
    NotFound { query: String },
    /// More than one system or region matches the query.
    Ambiguous { query: String, count: usize },
    /// A line of a connection list does not have the expected shape or names
    /// something that cannot be resolved.
    ParseFailure { line: String },
    /// The security value of a system falls outside every security class.
    DataIntegrityFault { system: i64 },
    /// The systems are not in ascending order of identifier, or the regions
    /// not in ascending order of name.
    UnsortedTable,
    /// A gate of `system` leads to `target`, which the table lacks.
    UnknownGate { system: i64, target: i64 },
}

/// The mathematical content of a [`RouteError`].
pub enum ErrorView {
    NotFound { query: Seq<char> },
    Ambiguous { query: Seq<char>, count: nat },
    ParseFailure { line: Seq<char> },
    DataIntegrityFault { system: int },
    UnsortedTable,
    UnknownGate { system: int, target: int },
}

impl View for RouteError {
    type V = ErrorView;

    open spec fn view(&self) -> ErrorView {
        match *self {
            RouteError::NotFound { query } => ErrorView::NotFound { query: query@ },
            RouteError::Ambiguous { query, count } => ErrorView::Ambiguous {
                query: query@,
                count: count as nat,
            },
            RouteError::ParseFailure { line } => ErrorView::ParseFailure { line: line@ },
            RouteError::DataIntegrityFault { system } => ErrorView::DataIntegrityFault {
                system: system as int,
            },
            RouteError::UnsortedTable => ErrorView::UnsortedTable,
            RouteError::UnknownGate { system, target } => ErrorView::UnknownGate {
                system: system as int,
                target: target as int,
            },
        }
    }
}

} // verus!
