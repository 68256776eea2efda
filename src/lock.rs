//! The reader/writer discipline over two counting semaphores: `write_lock`
//! (1 when free) and `read_count` (the number of active readers).
//!
//! Each acquisition or release is a short sequence of semaphore operations;
//! `LockProtocol::step` decides the next operation from the answer to the
//! previous one, and the caller performs it.
use vstd::prelude::*;

verus! {

/// One of the two semaphores of the lock.
#[derive(Clone, Copy, Debug, PartialEq, Eq, Structural)]
pub enum LockSemaphore {
    /// Taken by a writer, and briefly by each arriving reader.
    WriteLock,
    /// Counts the active readers.
    ReadCount,
}

/// What the caller wants of the lock.
#[derive(Clone, Copy, Debug, PartialEq, Eq, Structural)]
pub enum LockRequest {
    AcquireRead,
    ReleaseRead,
    AcquireWrite,
    ReleaseWrite,
}

/// The next thing to do.
#[derive(Clone, Copy, Debug, PartialEq, Eq, Structural)]
pub enum SemOp {
    /// Blocking decrement; answer `Done`.
    Wait(LockSemaphore),
    /// Non-blocking decrement; answer `Decremented` with whether it decremented.
    TryWait(LockSemaphore),
    /// Increment; answer `Done`.
    Post(LockSemaphore),
    /// Sleep before trying again; answer `Done`.
    Pause { millis: u64 },
    /// The request is complete.
    Complete,
    /// A reader was released while none was registered.
    NoActiveReader,
    /// The answer does not fit the operation asked for.
    Unexpected,
}

/// The answer to the previous operation.
#[derive(Clone, Copy, Debug, PartialEq, Eq, Structural)]
pub enum SemReply {
    /// Nothing has been asked yet.
    Begin,
    /// A wait, post or pause has been performed.
    Done,
    /// A non-blocking decrement has been tried.
    Decremented(bool),
}

/// How long a writer sleeps while readers are still active.
pub const WRITER_PAUSE_MILLIS: u64 = 30;

/// Where a request stands: its kind and how many of its operations were issued.
#[derive(Clone, Copy, Debug, PartialEq, Eq, Structural)]
pub struct LockProtocol {
    pub request: LockRequest,
    pub stage: u8,
}

/// The stage and operation that follow `stage` of `req` on reply `reply`.
///
/// Acquiring a read lock waits on `write_lock`, registers on `read_count`
/// and posts `write_lock` again. Releasing it takes one from `read_count`,
/// which must succeed. Acquiring the write lock waits on `write_lock`, then
/// tries `read_count` until it is zero, putting back what it took and pausing
/// while readers remain. Releasing it posts `write_lock`.
pub open spec fn lock_next(req: LockRequest, stage: u8, reply: SemReply) -> (u8, SemOp) {
    match req {
        LockRequest::AcquireRead => match (stage, reply) {
            (0, SemReply::Begin) => (1, SemOp::Wait(LockSemaphore::WriteLock)),
            (1, SemReply::Done) => (2, SemOp::Post(LockSemaphore::ReadCount)),
            (2, SemReply::Done) => (3, SemOp::Post(LockSemaphore::WriteLock)),
            (3, SemReply::Done) => (4, SemOp::Complete),
            _ => (stage, SemOp::Unexpected),
        },
        LockRequest::ReleaseRead => match (stage, reply) {
            (0, SemReply::Begin) => (1, SemOp::TryWait(LockSemaphore::ReadCount)),
            (1, SemReply::Decremented(true)) => (2, SemOp::Complete),
            (1, SemReply::Decremented(false)) => (2, SemOp::NoActiveReader),
            _ => (stage, SemOp::Unexpected),
        },
        LockRequest::AcquireWrite => match (stage, reply) {
            (0, SemReply::Begin) => (1, SemOp::Wait(LockSemaphore::WriteLock)),
            (1, SemReply::Done) => (2, SemOp::TryWait(LockSemaphore::ReadCount)),
            (2, SemReply::Decremented(false)) => (5, SemOp::Complete),
            (2, SemReply::Decremented(true)) => (3, SemOp::Post(LockSemaphore::ReadCount)),
            (3, SemReply::Done) => (4, SemOp::Pause { millis: WRITER_PAUSE_MILLIS }),
            (4, SemReply::Done) => (2, SemOp::TryWait(LockSemaphore::ReadCount)),
            _ => (stage, SemOp::Unexpected),
        },
        LockRequest::ReleaseWrite => match (stage, reply) {
            (0, SemReply::Begin) => (1, SemOp::Post(LockSemaphore::WriteLock)),
            (1, SemReply::Done) => (2, SemOp::Complete),
            _ => (stage, SemOp::Unexpected),
        },
    }
}

impl LockProtocol {
    /// A request that has issued nothing yet.
    pub fn new(request: LockRequest) -> (r: LockProtocol)
        ensures
            r.request == request,
            r.stage == 0,
    {
        LockProtocol { request, stage: 0 }
    }

    /// The next operation, given the answer to the previous one.
    pub fn step(self, reply: SemReply) -> (r: (LockProtocol, SemOp))
        ensures
            r.0.request == self.request,
            (r.0.stage, r.1) == lock_next(self.request, self.stage, reply),
    {
        let (stage, op) = match self.request {
            LockRequest::AcquireRead => match (self.stage, reply) {
                (0, SemReply::Begin) => (1, SemOp::Wait(LockSemaphore::WriteLock)),
                (1, SemReply::Done) => (2, SemOp::Post(LockSemaphore::ReadCount)),
                (2, SemReply::Done) => (3, SemOp::Post(LockSemaphore::WriteLock)),
                (3, SemReply::Done) => (4, SemOp::Complete),
                _ => (self.stage, SemOp::Unexpected),
            },
            LockRequest::ReleaseRead => match (self.stage, reply) {
                (0, SemReply::Begin) => (1, SemOp::TryWait(LockSemaphore::ReadCount)),
                (1, SemReply::Decremented(true)) => (2, SemOp::Complete),
                (1, SemReply::Decremented(false)) => (2, SemOp::NoActiveReader),
                _ => (self.stage, SemOp::Unexpected),
            },
            LockRequest::AcquireWrite => match (self.stage, reply) {
                (0, SemReply::Begin) => (1, SemOp::Wait(LockSemaphore::WriteLock)),
                (1, SemReply::Done) => (2, SemOp::TryWait(LockSemaphore::ReadCount)),
                (2, SemReply::Decremented(false)) => (5, SemOp::Complete),
                (2, SemReply::Decremented(true)) => (3, SemOp::Post(LockSemaphore::ReadCount)),
                (3, SemReply::Done) => (4, SemOp::Pause { millis: WRITER_PAUSE_MILLIS }),
                (4, SemReply::Done) => (2, SemOp::TryWait(LockSemaphore::ReadCount)),
                _ => (self.stage, SemOp::Unexpected),
            },
            LockRequest::ReleaseWrite => match (self.stage, reply) {
                (0, SemReply::Begin) => (1, SemOp::Post(LockSemaphore::WriteLock)),
                (1, SemReply::Done) => (2, SemOp::Complete),
                _ => (self.stage, SemOp::Unexpected),
            },
        };
        (LockProtocol { request: self.request, stage }, op)
    }
}

} // verus!
