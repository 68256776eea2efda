//! Errors of the library.
use vstd::prelude::*;
use crate::status::ExecutionStatus;
use crate::text::{decimal, decimal_chars, string_of};

verus! {

/// A malformed piece of the text form of a graph.
#[derive(Clone, Copy, Debug, PartialEq, Eq, Structural)]
pub enum ParseError {
    /// A status name that is none of the four statuses.
    InvalidStatus,
    /// An edge without a second endpoint.
    MissingEdgeChild,
    /// A node line without a quoted label.
    MissingLabel,
    /// A graph text that does not begin with `digraph`.
    MissingHeader,
}

/// Why building or reading a graph failed.
#[derive(Clone, Copy, Debug, PartialEq, Eq, Structural)]
pub enum GraphError {
    /// The edges form a cycle through the given node.
    CyclicGraph(usize),
    /// The text form could not be read.
    Parse(ParseError),
    /// The bytes are not the binary form of a graph.
    MalformedBytes,
}

/// Why a node's computation may not run.
#[derive(Clone, Copy, Debug, PartialEq, Eq, Structural)]
pub enum ExecuteError {
    /// The node has already run.
    AlreadyExecuted,
    /// The node may run but has not been claimed.
    NotClaimed,
    /// Some parent of the node has not run yet.
    NotExecutable,
}

/// Why a worker stops with a failure.
#[derive(Clone, Copy, Debug, PartialEq, Eq, Structural)]
pub enum SchedulerError {
    /// The shared graph holds a status for a claimed node that this worker did not put there.
    ForeignMutation { node: usize, observed: ExecutionStatus },
    /// The event does not fit the worker's state.
    UnexpectedEvent,
    /// A node index out of range, or a node that is not held by this worker.
    IllegalStatusTransition { node: usize, from: ExecutionStatus, to: ExecutionStatus },
}

impl ParseError {
    /// A sentence describing the error.
    pub fn message(&self) -> String {
        match self {
            ParseError::InvalidStatus => "Invalid execution status.".to_string(),
            ParseError::MissingEdgeChild => "Could not find second node index.".to_string(),
            ParseError::MissingLabel => "No node label.".to_string(),
            ParseError::MissingHeader => "Graph text does not begin with digraph.".to_string(),
        }
    }
}

/// The text of the error for a cycle through node `n`.
pub open spec fn cyclic_message(n: nat) -> Seq<char> {
    "Cyclic graph supplied on NodeIndex("@ + decimal(n) + ")"@
}

impl GraphError {
    /// A sentence describing the error.
    pub fn message(&self) -> (r: String)
        ensures
            self is CyclicGraph ==> r@ == cyclic_message(self->CyclicGraph_0 as nat),
    {
        match self {
            GraphError::CyclicGraph(n) => {
                let mut v = crate::text::chars_of("Cyclic graph supplied on NodeIndex(");
                let d = decimal_chars(*n);
                crate::text::push_all(&mut v, d.as_slice());
                let close = crate::text::chars_of(")");
                crate::text::push_all(&mut v, close.as_slice());
                string_of(v.as_slice())
            },
            GraphError::Parse(e) => e.message(),
            GraphError::MalformedBytes => "Malformed graph bytes.".to_string(),
        }
    }
}

/// The text of each refusal to run a node.
pub open spec fn execute_message(e: ExecuteError) -> Seq<char> {
    match e {
        ExecuteError::AlreadyExecuted => "Trying to execute node which has already been executed."@,
        ExecuteError::NotClaimed => "Trying to execute node which is not yet set for execution."@,
        ExecuteError::NotExecutable => "Trying to execute node which is not executable."@,
    }
}

impl ExecuteError {
    /// A sentence describing the error.
    pub fn message(&self) -> (r: String)
        ensures
            r@ == execute_message(*self),
    {
        broadcast use vstd::string::to_string_from_display_ensures_for_str;

        match self {
            ExecuteError::AlreadyExecuted => "Trying to execute node which has already been executed.".to_string(),
            ExecuteError::NotClaimed => "Trying to execute node which is not yet set for execution.".to_string(),
            ExecuteError::NotExecutable => "Trying to execute node which is not executable.".to_string(),
        }
    }
}

} // verus!
