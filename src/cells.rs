//! The layout of a payload across the shared byte cells, and the cell
//! operations that turn one layout into the next.
//!
//! Cell `0..8` hold the big-endian total length (prefix and payload); the
//! payload follows. Cells past the total length are unreachable.
use vstd::prelude::*;
use crate::codec::{be_u64, lemma_be_round_trip, push_u64, u64_be};

verus! {

/// The cells that hold `payload`: its total length, then the payload.
pub open spec fn frame_of(payload: Seq<u8>) -> Seq<u8> {
    u64_be((8 + payload.len()) as u64) + payload
}

/// The payload held by `cells`, if their length prefix is consistent with them.
pub open spec fn payload_of(cells: Seq<u8>) -> Option<Seq<u8>> {
    if cells.len() < 8 {
        None
    } else {
        let t = be_u64(cells.take(8));
        if 8 <= t && t <= cells.len() {
            Some(cells.subrange(8, t as int))
        } else {
            None
        }
    }
}

/// A reader finds exactly the payload last written, whatever cells lie beyond it.
pub proof fn lemma_frame_round_trip(payload: Seq<u8>, beyond: Seq<u8>)
    requires
        8 + payload.len() <= u64::MAX,
    ensures
        payload_of(frame_of(payload) + beyond) == Some(payload),
{
    let c = frame_of(payload) + beyond;
    lemma_be_round_trip((8 + payload.len()) as u64);
    assert(c.take(8) =~= u64_be((8 + payload.len()) as u64));
    assert(c.subrange(8, 8 + payload.len() as int) =~= payload);
}

/// The cells that hold `payload`.
pub fn frame(payload: &[u8]) -> (r: Vec<u8>)
    requires
        8 + payload@.len() <= u64::MAX,
    ensures
        r@ == frame_of(payload@),
{
    let mut r: Vec<u8> = Vec::new();
    push_u64(&mut r, 8u64 + payload.len() as u64);
    let ghost h = r@;
    let mut i: usize = 0;
    while i < payload.len()
        invariant
            i <= payload@.len(),
            r@ == h + payload@.take(i as int),
        decreases payload@.len() - i,
    {
        r.push(payload[i]);
        i += 1;
        assert(r@ =~= h + payload@.take(i as int));
    }
    assert(payload@.take(i as int) =~= payload@);
    r
}

/// The total length held in the first eight cells, if eight are given.
pub fn total_length(prefix: &[u8]) -> (r: Option<u64>)
    ensures
        prefix@.len() >= 8 ==> r == Some(be_u64(prefix@.take(8))),
        prefix@.len() < 8 ==> r is None,
{
    let r = crate::codec::read_u64_at(prefix, 0);
    if prefix.len() >= 8 {
        assert(prefix@.subrange(0, 8) =~= prefix@.take(8));
    }
    r
}

/// The payload held by `cells`, if their length prefix is consistent with them.
pub fn payload_from_cells(cells: &[u8]) -> (r: Option<Vec<u8>>)
    ensures
        match payload_of(cells@) {
            Some(p) => r is Some && r->Some_0@ == p,
            None => r is None,
        },
{
    let t = match total_length(cells) {
        Some(t) => t,
        None => {
            return None;
        },
    };
    if t < 8 || t > cells.len() as u64 {
        return None;
    }
    let t = t as usize;
    let mut r: Vec<u8> = Vec::new();
    let mut i: usize = 8;
    while i < t
        invariant
            8 <= i <= t <= cells@.len(),
            r@ == cells@.subrange(8, i as int),
        decreases t - i,
    {
        r.push(cells[i]);
        i += 1;
        assert(r@ =~= cells@.subrange(8, i as int));
    }
    Some(r)
}

/// After a write of `payload` by any operations that leave exactly its
/// cells, whether the payload grew or shrank, no cell past its end remains,
/// and a reader finds the new length together with the new payload.
pub proof fn lemma_written_cells(old: Seq<u8>, ops: Seq<CellOp>, payload: Seq<u8>)
    requires
        8 + payload.len() <= u64::MAX,
        apply_ops(old, ops) == Some(frame_of(payload)),
    ensures
        apply_ops(old, ops)->Some_0.len() == 8 + payload.len(),
        payload_of(apply_ops(old, ops)->Some_0) == Some(payload),
{
    lemma_frame_round_trip(payload, Seq::empty());
    assert(frame_of(payload) + Seq::<u8>::empty() =~= frame_of(payload));
}

/// One operation on the sequence of cells.
#[derive(Clone, Copy, Debug, PartialEq, Eq, Structural)]
pub enum CellOp {
    /// Overwrite the existing cell `index` with `byte`.
    Store { index: usize, byte: u8 },
    /// Create cell `index`, one past the last, holding `byte`.
    Create { index: usize, byte: u8 },
    /// Release cell `index`, the last one.
    Release { index: usize },
}

/// The cells after `op`, or `None` when `op` does not fit them.
pub open spec fn apply_op(cells: Seq<u8>, op: CellOp) -> Option<Seq<u8>> {
    match op {
        CellOp::Store { index, byte } => if index < cells.len() {
            Some(cells.update(index as int, byte))
        } else {
            None
        },
        CellOp::Create { index, byte } => if index == cells.len() {
            Some(cells.push(byte))
        } else {
            None
        },
        CellOp::Release { index } => if cells.len() > 0 && index == cells.len() - 1 {
            Some(cells.drop_last())
        } else {
            None
        },
    }
}

/// The cells after the operations in turn, or `None` when one does not fit.
pub open spec fn apply_ops(cells: Seq<u8>, ops: Seq<CellOp>) -> Option<Seq<u8>>
    decreases ops.len(),
{
    if ops.len() == 0 {
        Some(cells)
    } else {
        match apply_ops(cells, ops.drop_last()) {
            Some(c) => apply_op(c, ops.last()),
            None => None,
        }
    }
}

/// The cells while a write is under way: the first `i` bytes of `new`, then
/// what is left of the `old` cells.
pub open spec fn partial(old: Seq<u8>, new: Seq<u8>, i: int) -> Seq<u8> {
    new.take(i) + if i < old.len() {
        old.subrange(i, old.len() as int)
    } else {
        Seq::empty()
    }
}

/// The operations that turn any `held` cells into exactly `new`: cells that
/// exist are overwritten, missing ones are created, and every cell past the
/// end of `new` is released, the last first.
pub fn plan_write(held: usize, new: &[u8]) -> (r: Vec<CellOp>)
    ensures
        forall|old: Seq<u8>| old.len() == held ==> #[trigger] apply_ops(old, r@) == Some(new@),
        r@.len() == if held > new@.len() {
            held as int
        } else {
            new@.len() as int
        },
        forall|k: int|
            0 <= k < new@.len() ==> #[trigger] r@[k] == if k < held {
                (CellOp::Store { index: k as usize, byte: new@[k] })
            } else {
                (CellOp::Create { index: k as usize, byte: new@[k] })
            },
        forall|k: int|
            new@.len() <= k < held ==> #[trigger] r@[k] == (CellOp::Release {
                index: (held - 1 - (k - new@.len())) as usize,
            }),
{
    let mut ops: Vec<CellOp> = Vec::new();
    let mut i: usize = 0;
    while i < new.len()
        invariant
            i <= new@.len(),
            ops@.len() == i,
            forall|k: int|
                0 <= k < i ==> #[trigger] ops@[k] == if k < held {
                    (CellOp::Store { index: k as usize, byte: new@[k] })
                } else {
                    (CellOp::Create { index: k as usize, byte: new@[k] })
                },
            forall|old: Seq<u8>|
                old.len() == held ==> #[trigger] apply_ops(old, ops@) == Some(partial(old, new@, i as int)),
        decreases new@.len() - i,
    {
        let op = if i < held {
            CellOp::Store { index: i, byte: new[i] }
        } else {
            CellOp::Create { index: i, byte: new[i] }
        };
        let ghost before = ops@;
        ops.push(op);
        assert forall|old: Seq<u8>| old.len() == held implies #[trigger] apply_ops(old, ops@) == Some(
            partial(old, new@, i + 1),
        ) by {
            assert(ops@.drop_last() =~= before);
            assert(apply_ops(old, before) == Some(partial(old, new@, i as int)));
            let p = partial(old, new@, i as int);
            if i < held {
                assert(p.update(i as int, new@[i as int]) =~= partial(old, new@, i + 1));
            } else {
                assert(p.push(new@[i as int]) =~= partial(old, new@, i + 1));
            }
        }
        i += 1;
    }
    let mut j: usize = held;
    if held > new.len() {
        assert forall|old: Seq<u8>| old.len() == held implies #[trigger] apply_ops(old, ops@) == Some(
            new@ + old.subrange(new@.len() as int, j as int),
        ) by {
            assert(new@.take(new@.len() as int) =~= new@);
        }
        while j > new.len()
            invariant
                new@.len() <= j <= held,
                ops@.len() == new@.len() + (held - j),
                forall|k: int|
                    0 <= k < new@.len() ==> #[trigger] ops@[k] == if k < held {
                        (CellOp::Store { index: k as usize, byte: new@[k] })
                    } else {
                        (CellOp::Create { index: k as usize, byte: new@[k] })
                    },
                forall|k: int|
                    new@.len() <= k < ops@.len() ==> #[trigger] ops@[k] == (CellOp::Release {
                        index: (held - 1 - (k - new@.len())) as usize,
                    }),
                forall|old: Seq<u8>|
                    old.len() == held ==> #[trigger] apply_ops(old, ops@) == Some(
                        new@ + old.subrange(new@.len() as int, j as int),
                    ),
            decreases j,
        {
            let ghost before = ops@;
            ops.push(CellOp::Release { index: j - 1 });
            assert forall|old: Seq<u8>| old.len() == held implies #[trigger] apply_ops(old, ops@) == Some(
                new@ + old.subrange(new@.len() as int, j - 1),
            ) by {
                assert(ops@.drop_last() =~= before);
                assert(ops@.last() == CellOp::Release { index: (j - 1) as usize });
                let st = new@ + old.subrange(new@.len() as int, j as int);
                assert(apply_ops(old, before) == Some(st));
                assert(st.len() == j);
                assert(st.drop_last() =~= new@ + old.subrange(new@.len() as int, j - 1));
            }
            j -= 1;
        }
    }
    assert forall|old: Seq<u8>| old.len() == held implies #[trigger] apply_ops(old, ops@) == Some(new@) by {
        if held > new@.len() {
            assert(apply_ops(old, ops@) == Some(new@ + old.subrange(new@.len() as int, j as int)));
            assert(new@ + old.subrange(new@.len() as int, j as int) =~= new@);
        } else {
            assert(apply_ops(old, ops@) == Some(partial(old, new@, new@.len() as int)));
            assert(partial(old, new@, new@.len() as int) =~= new@);
        }
    }
    ops
}

} // verus!
