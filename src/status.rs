//! The execution status of a node and its state machine.
use vstd::prelude::*;

verus! {

/// Where a node stands in its execution.
///
/// A status only moves forward along
/// `NonExecutable -> Executable -> Executing -> Executed`.
#[derive(Clone, Copy, Debug, PartialEq, Eq, Structural)]
pub enum ExecutionStatus {
    /// The node's computation has finished.
    Executed,
    /// Some worker is running the node's computation.
    Executing,
    /// Every parent has finished; the node may be claimed.
    Executable,
    /// Some parent has not finished yet.
    NonExecutable,
}

/// The position of a status along the forward path, from 0 to 3.
pub open spec fn rank(s: ExecutionStatus) -> nat {
    match s {
        ExecutionStatus::NonExecutable => 0,
        ExecutionStatus::Executable => 1,
        ExecutionStatus::Executing => 2,
        ExecutionStatus::Executed => 3,
    }
}

/// The status that directly follows `s` on the forward path, if any.
pub open spec fn successor(s: ExecutionStatus) -> Option<ExecutionStatus> {
    match s {
        ExecutionStatus::NonExecutable => Some(ExecutionStatus::Executable),
        ExecutionStatus::Executable => Some(ExecutionStatus::Executing),
        ExecutionStatus::Executing => Some(ExecutionStatus::Executed),
        ExecutionStatus::Executed => None,
    }
}

/// The name of a status in the text form of a graph.
pub open spec fn status_text(s: ExecutionStatus) -> Seq<char> {
    match s {
        ExecutionStatus::Executed => seq!['E', 'x', 'e', 'c', 'u', 't', 'e', 'd'],
        ExecutionStatus::Executing => seq!['E', 'x', 'e', 'c', 'u', 't', 'i', 'n', 'g'],
        ExecutionStatus::Executable => seq!['E', 'x', 'e', 'c', 'u', 't', 'a', 'b', 'l', 'e'],
        ExecutionStatus::NonExecutable => seq![
            'N', 'o', 'n', 'E', 'x', 'e', 'c', 'u', 't', 'a', 'b', 'l', 'e',
        ],
    }
}

/// The status whose name is `t`, if there is one.
pub open spec fn status_from_text(t: Seq<char>) -> Option<ExecutionStatus> {
    if t == status_text(ExecutionStatus::Executed) {
        Some(ExecutionStatus::Executed)
    } else if t == status_text(ExecutionStatus::Executing) {
        Some(ExecutionStatus::Executing)
    } else if t == status_text(ExecutionStatus::Executable) {
        Some(ExecutionStatus::Executable)
    } else if t == status_text(ExecutionStatus::NonExecutable) {
        Some(ExecutionStatus::NonExecutable)
    } else {
        None
    }
}

/// A name is read back as the status it names.
pub proof fn lemma_status_text_round_trip(s: ExecutionStatus)
    ensures
        status_from_text(status_text(s)) == Some(s),
{
    let a = status_text(ExecutionStatus::Executed);
    let b = status_text(ExecutionStatus::Executing);
    let c = status_text(ExecutionStatus::Executable);
    assert(a[7] != b[7]);
    assert(a.len() != c.len());
    assert(b.len() != c.len());
}

/// Does `a` equal the characters of `b`?
pub fn chars_equal(a: &[char], b: &[char]) -> (r: bool)
    ensures
        r == (a@ == b@),
{
    if a.len() != b.len() {
        return false;
    }
    let mut i: usize = 0;
    while i < a.len()
        invariant
            a@.len() == b@.len(),
            i <= a@.len(),
            forall|j: int| 0 <= j < i ==> a@[j] == b@[j],
        decreases a@.len() - i,
    {
        if a[i] != b[i] {
            return false;
        }
        i += 1;
    }
    assert(a@ =~= b@);
    true
}

impl ExecutionStatus {
    /// The name of this status, as a character vector.
    pub fn text(&self) -> (r: Vec<char>)
        ensures
            r@ == status_text(*self),
    {
        let r = match self {
            ExecutionStatus::Executed => vec!['E', 'x', 'e', 'c', 'u', 't', 'e', 'd'],
            ExecutionStatus::Executing => vec!['E', 'x', 'e', 'c', 'u', 't', 'i', 'n', 'g'],
            ExecutionStatus::Executable => vec!['E', 'x', 'e', 'c', 'u', 't', 'a', 'b', 'l', 'e'],
            ExecutionStatus::NonExecutable => vec![
                'N', 'o', 'n', 'E', 'x', 'e', 'c', 'u', 't', 'a', 'b', 'l', 'e',
            ],
        };
        assert(r@ =~= status_text(*self));
        r
    }

    /// Reads a status from its name; `None` for any other text.
    pub fn from_chars(t: &[char]) -> (r: Option<ExecutionStatus>)
        ensures
            r == status_from_text(t@),
    {
        let all = [
            ExecutionStatus::Executed,
            ExecutionStatus::Executing,
            ExecutionStatus::Executable,
            ExecutionStatus::NonExecutable,
        ];
        let mut i: usize = 0;
        while i < 4
            invariant
                all@ == seq![
                    ExecutionStatus::Executed,
                    ExecutionStatus::Executing,
                    ExecutionStatus::Executable,
                    ExecutionStatus::NonExecutable,
                ],
                i <= 4,
                forall|j: int| 0 <= j < i ==> t@ != status_text(#[trigger] all@[j]),
            decreases 4 - i,
        {
            let name = all[i].text();
            if chars_equal(t, name.as_slice()) {
                return Some(all[i]);
            }
            i += 1;
        }
        assert(t@ != status_text(all@[0]));
        assert(t@ != status_text(all@[1]));
        assert(t@ != status_text(all@[2]));
        assert(t@ != status_text(all@[3]));
        None
    }

    /// Is `to` the status that directly follows this one?
    pub fn is_next(&self, to: ExecutionStatus) -> (r: bool)
        ensures
            r == (successor(*self) == Some(to)),
    {
        match (self, to) {
            (ExecutionStatus::NonExecutable, ExecutionStatus::Executable) => true,
            (ExecutionStatus::Executable, ExecutionStatus::Executing) => true,
            (ExecutionStatus::Executing, ExecutionStatus::Executed) => true,
            _ => false,
        }
    }
}

} // verus!

verus! {

impl std::str::FromStr for ExecutionStatus {
    type Err = crate::error::ParseError;

    fn from_str(s: &str) -> (r: Result<ExecutionStatus, crate::error::ParseError>)
        ensures
            r is Ok <==> status_from_text(s@) is Some,
            r is Ok ==> r->Ok_0 == status_from_text(s@)->Some_0,
            r is Err ==> r->Err_0 == crate::error::ParseError::InvalidStatus,
    {
        let c = crate::text::chars_of(s);
        match ExecutionStatus::from_chars(c.as_slice()) {
            Some(x) => Ok(x),
            None => Err(crate::error::ParseError::InvalidStatus),
        }
    }
}

} // verus!
