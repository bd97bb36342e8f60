//! PS/2 mouse input: reassembling three-byte packets from the interrupt
//! bytes, and the ring buffer of packets each subscribed program has not
//! read yet.
use vstd::prelude::*;

verus! {

pub const MAX_MOUSE_RECEPTORS: usize = 5;
pub const MOUSE_BUF_SIZE: usize = 64;

/// A program subscribed to mouse packets, with a ring of 64 packet slots
/// (one is always left empty).
#[derive(Clone, Copy)]
pub struct MouseSubscriber {
    pub pid: usize,
    pub pkts: [[u8; 3]; 64],
    pub head: usize,
    pub tail: usize,
}

impl MouseSubscriber {
    /// The ring positions lie in the buffer.
    pub open spec fn wf(&self) -> bool {
        self.head < MOUSE_BUF_SIZE && self.tail < MOUSE_BUF_SIZE
    }

    /// The packets waiting, oldest first.
    pub open spec fn view(&self) -> Seq<[u8; 3]> {
        let n = if self.head >= self.tail { self.head - self.tail } else { 64 - self.tail + self.head };
        Seq::new(n as nat, |i: int| self.pkts@[(self.tail + i) % 64])
    }

    /// A well-formed ring holds at most 63 packets: one slot always stays
    /// empty.
    pub proof fn lemma_holds_at_most_63(&self)
        requires
            self.wf(),
        ensures
            self@.len() <= 63,
    {
    }

    /// An unused slot.
    pub fn new() -> (r: Self)
        ensures
            r.wf(),
            r@ == Seq::<[u8; 3]>::empty(),
            r.pid == 0,
            r.head == 0,
            r.tail == 0,
            forall|k: int| 0 <= k < 64 ==> (#[trigger] r.pkts@[k])@ == seq![0u8, 0u8, 0u8],
    {
        let r = MouseSubscriber { pid: 0, pkts: [[0u8; 3]; 64], head: 0, tail: 0 };
        assert(r@ =~= Seq::<[u8; 3]>::empty());
        assert forall|k: int| 0 <= k < 64 implies (#[trigger] r.pkts@[k])@ == seq![0u8, 0u8, 0u8] by {
            assert(r.pkts@[k]@ =~= seq![0u8, 0u8, 0u8]);
        }
        r
    }

    /// Queues a packet unless the ring is full (63 packets).
    pub fn push(&mut self, raw: [u8; 3])
        requires
            old(self).wf(),
        ensures
            final(self).wf(),
            final(self).pid == old(self).pid,
            old(self)@.len() < 63 ==> final(self)@ == old(self)@.push(raw),
            old(self)@.len() >= 63 ==> final(self)@ == old(self)@,
    {
        let head = self.head;
        let next = (head + 1) % MOUSE_BUF_SIZE;
        if next != self.tail {
            let ghost before = self@;
            self.pkts[head] = raw;
            self.head = next;
            proof {
                assert forall|i: int| 0 <= i < before.len() implies self@[i] == before[i] by {
                    assert((self.tail + i) % 64 != head as int);
                }
                assert(self@ =~= before.push(raw));
            }
        }
    }

    /// Takes up to `max_pkts` waiting packets, oldest first.
    pub fn drain_to(&mut self, max_pkts: usize) -> (r: Vec<[u8; 3]>)
        requires
            old(self).wf(),
        ensures
            final(self).wf(),
            final(self).pid == old(self).pid,
            r@ == old(self)@.take(if max_pkts < old(self)@.len() { max_pkts as int } else { old(self)@.len() as int }),
            final(self)@ == old(self)@.skip(r@.len() as int),
    {
        let mut out: Vec<[u8; 3]> = Vec::new();
        let ghost start = self@;
        while out.len() < max_pkts
            invariant
                self.wf(),
                start == old(self)@,
                self.pid == old(self).pid,
                out@.len() <= max_pkts,
                out@.len() <= start.len(),
                out@ == start.take(out@.len() as int),
                self@ == start.skip(out@.len() as int),
            ensures
                self.wf(),
                self.pid == old(self).pid,
                out@ == start.take(out@.len() as int),
                self@ == start.skip(out@.len() as int),
                out@.len() == (if max_pkts < start.len() { max_pkts as int } else { start.len() as int }),
            decreases max_pkts - out@.len(),
        {
            let tail = self.tail;
            if tail == self.head {
                assert(self@.len() == 0);
                break;
            }
            let raw = self.pkts[tail];
            let ghost before = self@;
            assert(raw == before[0]);
            self.tail = (tail + 1) % MOUSE_BUF_SIZE;
            out.push(raw);
            proof {
                assert forall|i: int| 0 <= i < self@.len() implies self@[i] == before[i + 1] by {
                    assert((self.tail + i) % 64 == (tail + i + 1) % 64);
                }
                assert(self@ =~= before.skip(1));
                assert(out@ =~= start.take(out@.len() as int));
                assert(self@ =~= start.skip(out@.len() as int));
            }
        }
        out
    }
}

/// The reassembly of packets from single interrupt bytes.
pub struct MouseAssembler {
    pub phase: usize,
    pub pkt: [u8; 3],
}

impl MouseAssembler {
    /// Waiting for the first byte of a packet.
    pub fn new() -> (r: Self)
        ensures
            r.phase == 0,
            r.pkt@ == seq![0u8, 0u8, 0u8],
    {
        let r = MouseAssembler { phase: 0, pkt: [0u8; 3] };
        assert(r.pkt@ =~= seq![0u8, 0u8, 0u8]);
        r
    }

    /// Takes one byte: a first byte without bit 3 set is dropped (to regain
    /// sync); the third byte completes a packet, which is returned.
    pub fn push_byte(&mut self, b: u8) -> (r: Option<[u8; 3]>)
        requires
            old(self).phase < 3,
        ensures
            final(self).phase < 3,
            old(self).phase == 0 && b & 0x08 == 0 ==> r is None && final(self).phase == 0,
            !(old(self).phase == 0 && b & 0x08 == 0) && old(self).phase < 2 ==> r is None
                && final(self).phase == old(self).phase + 1 && final(self).pkt@ == old(self).pkt@.update(old(self).phase as int, b),
            old(self).phase == 2 ==> final(self).phase == 0
                && r == Some(final(self).pkt) && final(self).pkt@ == old(self).pkt@.update(2, b),
    {
        if self.phase == 0 && b & 0x08 == 0 {
            return None;
        }
        self.pkt[self.phase] = b;
        self.phase = self.phase + 1;
        if self.phase == 3 {
            self.phase = 0;
            return Some(self.pkt);
        }
        None
    }
}

/// The mouse subscribers.
pub struct MouseReceptors {
    pub slots: [MouseSubscriber; 5],
}

impl MouseReceptors {
    /// Every slot's ring is well formed.
    pub open spec fn wf(&self) -> bool {
        forall|i: int| 0 <= i < 5 ==> (#[trigger] self.slots@[i]).wf()
    }

    /// No subscriber.
    pub fn new() -> (r: Self)
        ensures
            r.wf(),
            forall|i: int| 0 <= i < 5 ==> (#[trigger] r.slots@[i]).pid == 0,
    {
        MouseReceptors {
            slots: [MouseSubscriber::new(), MouseSubscriber::new(), MouseSubscriber::new(), MouseSubscriber::new(), MouseSubscriber::new()],
        }
    }

    /// Queues a completed packet for every subscribed program (pid not 0).
    pub fn deliver(&mut self, raw: [u8; 3])
        requires
            old(self).wf(),
        ensures
            final(self).wf(),
            forall|i: int| 0 <= i < 5 ==> (#[trigger] final(self).slots@[i]).pid == old(self).slots@[i].pid,
            forall|i: int| 0 <= i < 5 && old(self).slots@[i].pid == 0 ==> #[trigger] final(self).slots@[i] == old(self).slots@[i],
            forall|i: int| 0 <= i < 5 && old(self).slots@[i].pid != 0 ==> (#[trigger] final(self).slots@[i])@ == if old(self).slots@[i]@.len() < 63 {
                old(self).slots@[i]@.push(raw)
            } else {
                old(self).slots@[i]@
            },
    {
        let mut i: usize = 0;
        while i < MAX_MOUSE_RECEPTORS
            invariant
                i <= 5,
                self.wf(),
                forall|j: int| 0 <= j < 5 ==> (#[trigger] self.slots@[j]).pid == old(self).slots@[j].pid,
                forall|j: int| i <= j < 5 ==> #[trigger] self.slots@[j] == old(self).slots@[j],
                forall|j: int| 0 <= j < i && old(self).slots@[j].pid == 0 ==> #[trigger] self.slots@[j] == old(self).slots@[j],
                forall|j: int| 0 <= j < i && old(self).slots@[j].pid != 0 ==> (#[trigger] self.slots@[j])@ == if old(self).slots@[j]@.len() < 63 {
                    old(self).slots@[j]@.push(raw)
                } else {
                    old(self).slots@[j]@
                },
            decreases 5 - i,
        {
            if self.slots[i].pid != 0 {
                let mut s = self.slots[i];
                s.push(raw);
                self.slots[i] = s;
            }
            i = i + 1;
        }
    }

    /// Subscribes program `pid` in the first free slot, its ring emptied;
    /// -1 when no slot is free.
    pub fn mouse_subscribe(&mut self, pid: usize) -> (r: isize)
        requires
            old(self).wf(),
        ensures
            final(self).wf(),
            r == 0 <==> exists|i: int| 0 <= i < 5 && (#[trigger] old(self).slots@[i]).pid == 0,
            r == -1 ==> final(self).slots@ == old(self).slots@,
            r == 0 ==> exists|i: int| 0 <= i < 5 && (#[trigger] old(self).slots@[i]).pid == 0
                && (forall|j: int| 0 <= j < i ==> (#[trigger] old(self).slots@[j]).pid != 0)
                && final(self).slots@[i].pid == pid && final(self).slots@[i]@ == Seq::<[u8; 3]>::empty()
                && final(self).slots@ == old(self).slots@.update(i, final(self).slots@[i]),
    {
        let mut i: usize = 0;
        while i < MAX_MOUSE_RECEPTORS
            invariant
                i <= 5,
                self.slots@ == old(self).slots@,
                self.wf(),
                forall|j: int| 0 <= j < i ==> (#[trigger] self.slots@[j]).pid != 0,
            decreases 5 - i,
        {
            if self.slots[i].pid == 0 {
                let mut s = self.slots[i];
                s.pid = pid;
                s.head = 0;
                s.tail = 0;
                assert(s@ =~= Seq::<[u8; 3]>::empty());
                self.slots[i] = s;
                assert(self.slots@ =~= old(self).slots@.update(i as int, s));
                return 0;
            }
            i = i + 1;
        }
        -1
    }

    /// Removes the subscription of program `pid` (its first slot; the
    /// waiting packets stay); -1 when it has none.
    pub fn mouse_unsubscribe(&mut self, pid: usize) -> (r: isize)
        requires
            old(self).wf(),
        ensures
            final(self).wf(),
            r == 0 <==> exists|i: int| 0 <= i < 5 && (#[trigger] old(self).slots@[i]).pid == pid,
            r == -1 ==> final(self).slots@ == old(self).slots@,
    {
        let mut i: usize = 0;
        while i < MAX_MOUSE_RECEPTORS
            invariant
                i <= 5,
                self.slots@ == old(self).slots@,
                self.wf(),
                forall|j: int| 0 <= j < i ==> (#[trigger] self.slots@[j]).pid != pid,
            decreases 5 - i,
        {
            if self.slots[i].pid == pid {
                let mut s = self.slots[i];
                s.pid = 0;
                self.slots[i] = s;
                return 0;
            }
            i = i + 1;
        }
        -1
    }

    /// Takes the waiting packets of program `pid` (its first slot) that fit
    /// in `max_bytes` bytes, as bytes; nothing when it has no slot.
    pub fn mouse_drain(&mut self, pid: usize, max_bytes: usize) -> (r: Vec<[u8; 3]>)
        requires
            old(self).wf(),
        ensures
            final(self).wf(),
            r@.len() <= max_bytes / 3,
            (forall|i: int| 0 <= i < 5 ==> (#[trigger] old(self).slots@[i]).pid != pid) ==> r@.len() == 0
                && final(self).slots@ == old(self).slots@,
            (exists|i: int| 0 <= i < 5 && (#[trigger] old(self).slots@[i]).pid == pid) ==> exists|i: int|
                0 <= i < 5 && (#[trigger] old(self).slots@[i]).pid == pid
                && (forall|j: int| 0 <= j < i ==> (#[trigger] old(self).slots@[j]).pid != pid)
                && r@ == old(self).slots@[i]@.take(
                    if max_bytes / 3 < old(self).slots@[i]@.len() { (max_bytes / 3) as int } else { old(self).slots@[i]@.len() as int })
                && final(self).slots@[i].pid == pid
                && final(self).slots@[i]@ == old(self).slots@[i]@.skip(r@.len() as int)
                && final(self).slots@ == old(self).slots@.update(i, final(self).slots@[i]),
    {
        let max_pkts = max_bytes / 3;
        let mut i: usize = 0;
        while i < MAX_MOUSE_RECEPTORS
            invariant
                max_pkts == max_bytes / 3,
                i <= 5,
                self.slots@ == old(self).slots@,
                self.wf(),
                forall|j: int| 0 <= j < i ==> (#[trigger] self.slots@[j]).pid != pid,
            decreases 5 - i,
        {
            if self.slots[i].pid == pid {
                let mut s = self.slots[i];
                let out = s.drain_to(max_pkts);
                assert(out@.len() <= max_pkts);
                self.slots[i] = s;
                assert(self.slots@ =~= old(self).slots@.update(i as int, s));
                return out;
            }
            i = i + 1;
        }
        Vec::new()
    }
}

} // verus!
