//! A node of the graph: an opaque payload and an execution status.
use vstd::prelude::*;
use crate::error::{ExecuteError, ParseError};
use crate::status::{status_from_text, status_text, ExecutionStatus};
use crate::text::{
    chars_of, push_all, split, split_chars, starts_with, starts_with_chars, string_of, trim,
    trim_chars, views, slice_chars,
};

verus! {

/// A compute node: the payload handed to the user computation, and how far
/// the node has come in its execution.
#[derive(Clone, Debug)]
pub struct Node {
    /// The payload passed to the node's computation.
    pub args: String,
    /// Where the node stands in its execution.
    pub execution_status: ExecutionStatus,
}

/// What a node is, as plain values.
pub struct NodeView {
    pub args: Seq<char>,
    pub status: ExecutionStatus,
}

impl View for Node {
    type V = NodeView;

    open spec fn view(&self) -> NodeView {
        NodeView { args: self.args@, status: self.execution_status }
    }
}

impl PartialEq for Node {
    fn eq(&self, other: &Node) -> (r: bool) {
        self.args == other.args && self.execution_status == other.execution_status
    }
}

impl vstd::std_specs::cmp::PartialEqSpecImpl for Node {
    open spec fn obeys_eq_spec() -> bool {
        true
    }

    open spec fn eq_spec(&self, other: &Node) -> bool {
        self@ == other@
    }
}

impl Eq for Node {
}

/// The label prefix in front of the payload.
pub open spec fn args_tag() -> Seq<char> {
    " Node.args: "@
}

/// The label prefix in front of the status name.
pub open spec fn status_tag() -> Seq<char> {
    " Node.execution_status: "@
}

/// The label of a node in the text form of a graph.
pub open spec fn label_text(n: NodeView) -> Seq<char> {
    "Struct Node,"@ + args_tag() + n.args + ","@ + status_tag() + status_text(n.status)
}

/// A fresh node: the given payload, ready to run.
pub open spec fn fresh(args: Seq<char>) -> NodeView {
    NodeView { args, status: ExecutionStatus::Executable }
}

/// The effect of one comma-separated part of a label on the node read so far.
pub open spec fn apply_label_part(
    acc: Result<NodeView, ParseError>,
    part: Seq<char>,
) -> Result<NodeView, ParseError> {
    match acc {
        Err(e) => Err(e),
        Ok(n) => if starts_with(part, args_tag()) {
            Ok(NodeView { args: part.subrange(args_tag().len() as int, part.len() as int), ..n })
        } else if starts_with(part, status_tag()) {
            match status_from_text(part.subrange(status_tag().len() as int, part.len() as int)) {
                Some(s) => Ok(NodeView { status: s, ..n }),
                None => Err(ParseError::InvalidStatus),
            }
        } else {
            Ok(n)
        },
    }
}

/// The node read from a list of label parts: a fresh node with an empty
/// payload, changed by each part in turn; parts without a known tag are ignored.
pub open spec fn parse_label_parts(parts: Seq<Seq<char>>) -> Result<NodeView, ParseError>
    decreases parts.len(),
{
    if parts.len() == 0 {
        Ok(fresh(Seq::empty()))
    } else {
        apply_label_part(parse_label_parts(parts.drop_last()), parts.last())
    }
}

/// The node read from a label.
pub open spec fn parse_label(t: Seq<char>) -> Result<NodeView, ParseError> {
    parse_label_parts(split(trim(t), ','))
}

/// The outcome of asking a node in status `s` to run.
pub open spec fn execute_outcome(s: ExecutionStatus) -> Result<(), ExecuteError> {
    match s {
        ExecutionStatus::Executing => Ok(()),
        ExecutionStatus::Executed => Err(ExecuteError::AlreadyExecuted),
        ExecutionStatus::Executable => Err(ExecuteError::NotClaimed),
        ExecutionStatus::NonExecutable => Err(ExecuteError::NotExecutable),
    }
}

proof fn lemma_label_error_sticks(ps: Seq<Seq<char>>, i: int, k: int)
    requires
        0 <= i <= k <= ps.len(),
        parse_label_parts(ps.subrange(0, i)) is Err,
    ensures
        parse_label_parts(ps.subrange(0, k)) == parse_label_parts(ps.subrange(0, i)),
    decreases k - i,
{
    if k > i {
        lemma_label_error_sticks(ps, i, k - 1);
        assert(ps.subrange(0, k).drop_last() =~= ps.subrange(0, k - 1));
    }
}

impl Node {
    /// A node with the given payload, ready to run.
    pub fn new(args: String) -> (r: Node)
        ensures
            r@ == fresh(args@),
    {
        Node { args, execution_status: ExecutionStatus::Executable }
    }

    /// A copy of this node.
    pub fn duplicate(&self) -> (r: Node)
        ensures
            r@ == self@,
    {
        Node { args: self.args.clone(), execution_status: self.execution_status }
    }

    /// The label of this node in the text form of a graph.
    pub fn label(&self) -> (r: Vec<char>)
        ensures
            r@ == label_text(self@),
    {
        let mut r = chars_of("Struct Node,");
        let tag = chars_of(" Node.args: ");
        push_all(&mut r, tag.as_slice());
        let a = chars_of(self.args.as_str());
        push_all(&mut r, a.as_slice());
        let comma = chars_of(",");
        push_all(&mut r, comma.as_slice());
        let tag2 = chars_of(" Node.execution_status: ");
        push_all(&mut r, tag2.as_slice());
        let s = self.execution_status.text();
        push_all(&mut r, s.as_slice());
        r
    }

    /// The label of this node as a string.
    pub fn to_string(&self) -> (r: String)
        ensures
            r@ == label_text(self@),
    {
        let v = self.label();
        string_of(v.as_slice())
    }

    /// Reads a node from its label; parts other than the payload and the
    /// status are ignored, and a missing part keeps its default.
    pub fn parse(t: &[char]) -> (r: Result<Node, ParseError>)
        ensures
            r is Ok <==> parse_label(t@) is Ok,
            r is Ok ==> r->Ok_0@ == parse_label(t@)->Ok_0,
            r is Err ==> r->Err_0 == parse_label(t@)->Err_0,
    {
        let tt = trim_chars(t);
        let parts = split_chars(tt.as_slice(), ',');
        let ghost ps = split(trim(t@), ',');
        let args_tag_v = chars_of(" Node.args: ");
        let status_tag_v = chars_of(" Node.execution_status: ");
        let mut args: Vec<char> = Vec::new();
        let mut status = ExecutionStatus::Executable;
        let mut i: usize = 0;
        assert(ps.subrange(0, 0) =~= Seq::<Seq<char>>::empty());
        while i < parts.len()
            invariant
                views(parts@) == ps,
                ps == split(trim(t@), ','),
                args_tag_v@ == args_tag(),
                status_tag_v@ == status_tag(),
                i <= parts@.len(),
                parse_label_parts(ps.subrange(0, i as int)) == Ok::<NodeView, ParseError>(
                    NodeView { args: args@, status },
                ),
            decreases parts@.len() - i,
        {
            let part = &parts[i];
            assert(part@ == ps[i as int]);
            assert(ps.subrange(0, i + 1).drop_last() =~= ps.subrange(0, i as int));
            if starts_with_chars(part.as_slice(), args_tag_v.as_slice()) {
                args = slice_chars(part.as_slice(), args_tag_v.len(), part.len());
            } else if starts_with_chars(part.as_slice(), status_tag_v.as_slice()) {
                let rest = slice_chars(part.as_slice(), status_tag_v.len(), part.len());
                match ExecutionStatus::from_chars(rest.as_slice()) {
                    Some(s) => {
                        status = s;
                    },
                    None => {
                        proof {
                            assert(ps.subrange(0, i + 1).last() == part@);
                            assert(parse_label_parts(ps.subrange(0, i + 1)) == Err::<NodeView, ParseError>(ParseError::InvalidStatus));
                            lemma_label_error_sticks(ps, i + 1, ps.len() as int);
                            assert(ps.subrange(0, ps.len() as int) =~= ps);
                            assert(parse_label_parts(ps) == Err::<NodeView, ParseError>(ParseError::InvalidStatus));
                            assert(ps == split(trim(t@), ','));
                        }
                        return Err(ParseError::InvalidStatus);
                    },
                }
            }
            i += 1;
        }
        assert(ps.subrange(0, parts@.len() as int) =~= ps);
        Ok(Node { args: string_of(args.as_slice()), execution_status: status })
    }

    /// Checks that this node may run its computation now, that is, that it
    /// has been claimed; otherwise says why not.
    pub fn execute(&self) -> (r: Result<(), ExecuteError>)
        ensures
            r == execute_outcome(self.execution_status),
    {
        match self.execution_status {
            ExecutionStatus::Executing => Ok(()),
            ExecutionStatus::Executed => Err(ExecuteError::AlreadyExecuted),
            ExecutionStatus::Executable => Err(ExecuteError::NotClaimed),
            ExecutionStatus::NonExecutable => Err(ExecuteError::NotExecutable),
        }
    }
}

impl Default for Node {
    fn default() -> (r: Node)
        ensures
            r@ == fresh(Seq::empty()),
    {
        Node { args: String::new(), execution_status: ExecutionStatus::Executable }
    }
}

impl std::str::FromStr for Node {
    type Err = ParseError;

    fn from_str(s: &str) -> (r: Result<Node, ParseError>)
        ensures
            r is Ok <==> parse_label(s@) is Ok,
            r is Ok ==> r->Ok_0@ == parse_label(s@)->Ok_0,
            r is Err ==> r->Err_0 == parse_label(s@)->Err_0,
    {
        let c = chars_of(s);
        Node::parse(c.as_slice())
    }
}

} // verus!
