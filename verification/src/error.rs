//! Why a selector string is refused.

use vstd::prelude::*;

verus! {

/// The reason for which a selector string is refused.
#[derive(Debug, Clone, Copy, PartialEq, Eq, Structural)]
pub enum ErrorKind {
    /// An alternative of the list holds no selector: the string is empty, or
    /// a comma stands at its start, at its end or next to another comma.
    EmptySelector,
    /// A `.` with no class name behind it.
    EmptyClass,
    /// A `#` with no id behind it.
    EmptyId,
    /// An id that holds a second `#`.
    SecondId,
    /// `*` with classes behind it.
    UniversalWithClasses,
    /// White space inside a single selector.
    Whitespace,
    /// A tag name, a class name or an id that holds one of the marks `*`,
    /// `#`, `.` and `,`.
    StraySigil,
    /// A selector that would join a tag name and an id. The grammar has no
    /// form for it, so no string leads here.
    InternalInconsistency,
}

impl ErrorKind {
    /// Whether the fault lies in the selector string, as opposed to the
    /// parser itself.
    pub open spec fn syntax(self) -> bool {
        self != ErrorKind::InternalInconsistency
    }

    /// Whether the fault lies in the selector string.
    pub fn is_syntax(self) -> (syntax: bool)
        ensures
            syntax == self.syntax(),
    {
        match self {
            ErrorKind::InternalInconsistency => false,
            _ => true,
        }
    }
}

/// A refused selector string: the reason, and the part of the string that it
/// lies in.
#[derive(Debug, PartialEq, Eq)]
pub struct QueryError {
    pub kind: ErrorKind,
    pub offending: String,
}

/// The model of a [`QueryError`].
pub ghost struct QueryErrorView {
    pub kind: ErrorKind,
    pub offending: Seq<char>,
}

impl View for QueryError {
    type V = QueryErrorView;

    open spec fn view(&self) -> QueryErrorView {
        QueryErrorView { kind: self.kind, offending: self.offending@ }
    }
}

impl QueryError {
    /// The error that blames `offending` for `kind`.
    pub fn new(kind: ErrorKind, offending: &str) -> (error: QueryError)
        ensures
            error@ == (QueryErrorView { kind, offending: offending@ }),
    {
        QueryError { kind, offending: offending.to_owned() }
    }

    /// Whether the fault lies in the selector string.
    pub fn is_syntax(&self) -> (syntax: bool)
        ensures
            syntax == self@.kind.syntax(),
    {
        self.kind.is_syntax()
    }
}

} // verus!
