use dag::lock::{LockProtocol, LockRequest, LockSemaphore, SemOp, SemReply};

fn run(request: LockRequest, replies: &[SemReply]) -> Vec<SemOp> {
    let mut p = LockProtocol::new(request);
    let mut ops = vec![];
    for r in replies {
        let (next, op) = p.step(*r);
        p = next;
        ops.push(op);
    }
    ops
}

#[test]
fn acquire_read_sequence() {
    let ops = run(LockRequest::AcquireRead, &[SemReply::Begin, SemReply::Done, SemReply::Done, SemReply::Done]);
    assert_eq!(
        ops,
        vec![
            SemOp::Wait(LockSemaphore::WriteLock),
            SemOp::Post(LockSemaphore::ReadCount),
            SemOp::Post(LockSemaphore::WriteLock),
            SemOp::Complete
        ]
    );
}

#[test]
fn release_read_needs_a_reader() {
    let ok = run(LockRequest::ReleaseRead, &[SemReply::Begin, SemReply::Decremented(true)]);
    assert_eq!(ok, vec![SemOp::TryWait(LockSemaphore::ReadCount), SemOp::Complete]);
    let bad = run(LockRequest::ReleaseRead, &[SemReply::Begin, SemReply::Decremented(false)]);
    assert_eq!(bad[1], SemOp::NoActiveReader);
}

#[test]
fn writer_waits_for_readers() {
    let ops = run(
        LockRequest::AcquireWrite,
        &[
            SemReply::Begin,
            SemReply::Done,
            SemReply::Decremented(true),
            SemReply::Done,
            SemReply::Done,
            SemReply::Decremented(false),
        ],
    );
    assert_eq!(
        ops,
        vec![
            SemOp::Wait(LockSemaphore::WriteLock),
            SemOp::TryWait(LockSemaphore::ReadCount),
            SemOp::Post(LockSemaphore::ReadCount),
            SemOp::Pause { millis: 30 },
            SemOp::TryWait(LockSemaphore::ReadCount),
            SemOp::Complete
        ]
    );
}

#[test]
fn release_write_posts() {
    let ops = run(LockRequest::ReleaseWrite, &[SemReply::Begin, SemReply::Done]);
    assert_eq!(ops, vec![SemOp::Post(LockSemaphore::WriteLock), SemOp::Complete]);
}

#[test]
fn out_of_step_reply_is_rejected() {
    let ops = run(LockRequest::AcquireRead, &[SemReply::Decremented(true)]);
    assert_eq!(ops, vec![SemOp::Unexpected]);
}
