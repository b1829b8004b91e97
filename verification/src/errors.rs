//! What can go wrong while a path through the chain is resolved.

use vstd::prelude::*;
use crate::model::{MigrationData, Node};

verus! {

/// Why no path leads from one migration to another.
#[derive(Debug)]
pub enum PathBreak {
    /// The chain holds no migration with the id the path starts at.
    FromMissing,
    /// The chain holds no migration with the id the path ends at.
    ToMissing,
    /// The walk came back to a migration that it had already left.
    Circular(MigrationData),
    /// The walk stood on this migration and found no neighbour to go on to.
    NextNotFound(MigrationData),
}

/// An error of the library.
#[derive(Debug)]
pub enum MigrenError {
    /// No path leads from `from` to `to`.
    MigrationPathInvalid { from: u32, to: u32, reason: PathBreak },
    /// A migration on the path lacks one of its two scripts.
    MigrationFilesDoesNotExsists(MigrationData),
}

/// A `PathBreak` as contracts see it.
pub enum Break {
    FromMissing,
    ToMissing,
    Circular(Node),
    NextNotFound(Node),
}

/// A `MigrenError` as contracts see it.
pub enum Failure {
    PathInvalid { from: u32, to: u32, reason: Break },
    FilesMissing(Node),
}

impl View for PathBreak {
    type V = Break;

    open spec fn view(&self) -> Break {
        match self {
            PathBreak::FromMissing => Break::FromMissing,
            PathBreak::ToMissing => Break::ToMissing,
            PathBreak::Circular(m) => Break::Circular(m@),
            PathBreak::NextNotFound(m) => Break::NextNotFound(m@),
        }
    }
}

impl View for MigrenError {
    type V = Failure;

    open spec fn view(&self) -> Failure {
        match self {
            MigrenError::MigrationPathInvalid { from, to, reason } => Failure::PathInvalid {
                from: *from,
                to: *to,
                reason: reason@,
            },
            MigrenError::MigrationFilesDoesNotExsists(m) => Failure::FilesMissing(m@),
        }
    }
}

impl PartialEq for PathBreak {
    fn eq(&self, other: &Self) -> (r: bool) {
        match (self, other) {
            (PathBreak::FromMissing, PathBreak::FromMissing) => true,
            (PathBreak::ToMissing, PathBreak::ToMissing) => true,
            (PathBreak::Circular(a), PathBreak::Circular(b)) => *a == *b,
            (PathBreak::NextNotFound(a), PathBreak::NextNotFound(b)) => *a == *b,
            _ => false,
        }
    }
}

impl vstd::std_specs::cmp::PartialEqSpecImpl for PathBreak {
    open spec fn obeys_eq_spec() -> bool {
        true
    }

    open spec fn eq_spec(&self, other: &Self) -> bool {
        self@ == other@
    }
}

impl PartialEq for MigrenError {
    fn eq(&self, other: &Self) -> (r: bool) {
        match (self, other) {
            (
                MigrenError::MigrationPathInvalid { from: f1, to: t1, reason: r1 },
                MigrenError::MigrationPathInvalid { from: f2, to: t2, reason: r2 },
            ) => *f1 == *f2 && *t1 == *t2 && *r1 == *r2,
            (
                MigrenError::MigrationFilesDoesNotExsists(a),
                MigrenError::MigrationFilesDoesNotExsists(b),
            ) => *a == *b,
            _ => false,
        }
    }
}

impl vstd::std_specs::cmp::PartialEqSpecImpl for MigrenError {
    open spec fn obeys_eq_spec() -> bool {
        true
    }

    open spec fn eq_spec(&self, other: &Self) -> bool {
        self@ == other@
    }
}

} // verus!
