//! Call 0x03: a program's subscription to keyboard bytes.
use vstd::prelude::*;
use crate::input::irq::{first_slot_of, Receptors};

verus! {

/// Call 0x03 for program `pid` with operation `op` and mailbox `addr`:
/// 1 subscribes (see `pipe_subscribe`), 2 unsubscribes (see
/// `pipe_unsubscribe`), 3 takes up to 16 waiting bytes (see `pipe_read`),
/// to be copied to `addr`; any other operation does nothing. The call
/// returns 0 in every case, with the bytes taken.
pub fn sys_pipe(rec: &mut Receptors, pid: usize, op: u64, addr: u64) -> (r: (u64, Vec<u8>))
    requires
        forall|i: int| 0 <= i < 5 ==> (#[trigger] old(rec).slots@[i]).wf(),
    ensures
        forall|i: int| 0 <= i < 5 ==> (#[trigger] final(rec).slots@[i]).wf(),
        r.0 == 0,
        op != 3 ==> r.1@.len() == 0,
        op == 1 ==> {
            &&& forall|i: int| #[trigger] first_slot_of(old(rec).slots@, 0, i) ==> {
                &&& final(rec).slots@[i].pid == pid
                &&& final(rec).slots@[i].buf_ptr == addr
                &&& final(rec).slots@[i]@ == Seq::<u8>::empty()
                &&& forall|j: int| 0 <= j < 5 && j != i ==> final(rec).slots@[j] == old(rec).slots@[j]
            }
            &&& (forall|i: int| !#[trigger] first_slot_of(old(rec).slots@, 0, i)) ==> final(rec).slots@ == old(rec).slots@
        },
        op == 2 ==> {
            &&& forall|i: int| #[trigger] first_slot_of(old(rec).slots@, pid, i) ==> {
                &&& final(rec).slots@[i].pid == 0
                &&& final(rec).slots@[i].buf_ptr == 0
                &&& final(rec).slots@[i]@ == Seq::<u8>::empty()
                &&& forall|j: int| 0 <= j < 5 && j != i ==> final(rec).slots@[j] == old(rec).slots@[j]
            }
            &&& (forall|i: int| !#[trigger] first_slot_of(old(rec).slots@, pid, i)) ==> final(rec).slots@ == old(rec).slots@
        },
        op == 3 ==> {
            &&& (forall|i: int| !#[trigger] first_slot_of(old(rec).slots@, pid, i)) ==> r.1@.len() == 0
                && final(rec).slots@ == old(rec).slots@
            &&& forall|i: int| #[trigger] first_slot_of(old(rec).slots@, pid, i) ==> {
                let s0 = old(rec).slots@[i];
                &&& r.1@ == s0@.take(if 16 < s0@.len() { 16 } else { s0@.len() as int })
                &&& final(rec).slots@[i]@ == s0@.skip(r.1@.len() as int)
                &&& final(rec).slots@[i].pid == s0.pid && final(rec).slots@[i].buf_ptr == s0.buf_ptr
                &&& forall|j: int| 0 <= j < 5 && j != i ==> final(rec).slots@[j] == old(rec).slots@[j]
            }
        },
        op != 1 && op != 2 && op != 3 ==> final(rec).slots@ == old(rec).slots@,
{
    if op == 1 {
        let _ = rec.pipe_subscribe(pid, addr);
        (0, Vec::new())
    } else if op == 2 {
        let _ = rec.pipe_unsubscribe(pid);
        (0, Vec::new())
    } else if op == 3 {
        let out = rec.pipe_read(pid, 16);
        (0, out)
    } else {
        (0, Vec::new())
    }
}

} // verus!
