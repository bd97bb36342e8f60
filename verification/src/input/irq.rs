//! Keyboard subscribers: the ring buffer of bytes each subscribed program
//! has not read yet, and the table of subscribers.
use vstd::prelude::*;

verus! {

pub const MAX_RECEPTORS: usize = 5;
pub const USER_KBUF_SIZE: usize = 256;

/// The bytes a ring holds after `bytes` were pushed into it one at a time,
/// oldest first, starting empty: a byte is kept while fewer than 255 are
/// waiting, and dropped otherwise.
pub open spec fn fed_ring(bytes: Seq<u8>) -> Seq<u8>
    decreases bytes.len(),
{
    if bytes.len() == 0 {
        Seq::empty()
    } else {
        let r = fed_ring(bytes.drop_last());
        if r.len() < 255 {
            r.push(bytes.last())
        } else {
            r
        }
    }
}

/// A ring fed `k` bytes from empty holds the first min(k, 255) of them.
pub proof fn lemma_fed_ring(bytes: Seq<u8>)
    ensures
        fed_ring(bytes) == bytes.take(if bytes.len() < 255 { bytes.len() as int } else { 255 }),
        fed_ring(bytes).len() == if bytes.len() < 255 { bytes.len() as int } else { 255 },
    decreases bytes.len(),
{
    if bytes.len() > 0 {
        let prev = bytes.drop_last();
        lemma_fed_ring(prev);
        if prev.len() < 255 {
            assert(prev.take(prev.len() as int).push(bytes.last()) =~= bytes.take(bytes.len() as int));
        } else {
            assert(prev.take(255) =~= bytes.take(255));
        }
    }
}

/// A program subscribed to keyboard bytes: its mailbox address, its pid,
/// and a ring buffer of 256 slots (one is always left empty).
pub struct Subscriber {
    pub buf_ptr: u64,
    pub pid: usize,
    pub kbuf: [u8; 256],
    pub head: usize,
    pub tail: usize,
}

impl Subscriber {
    /// The ring positions lie in the buffer.
    pub closed spec fn wf(&self) -> bool {
        self.head < USER_KBUF_SIZE && self.tail < USER_KBUF_SIZE
    }

    /// The bytes waiting in the ring, oldest first.
    pub closed spec fn view(&self) -> Seq<u8> {
        let n = if self.head >= self.tail { self.head - self.tail } else { 256 - self.tail + self.head };
        Seq::new(n as nat, |i: int| self.kbuf@[(self.tail + i) % 256])
    }

    /// A well-formed ring holds at most 255 bytes: one slot always stays
    /// empty, so a full ring drops what comes next.
    pub proof fn lemma_holds_at_most_255(&self)
        requires
            self.wf(),
        ensures
            self@.len() <= 255,
    {
    }

    /// An unused subscriber slot: no program, no mailbox, nothing waiting.
    pub fn new() -> (r: Self)
        ensures
            r.wf(),
            r@ == Seq::<u8>::empty(),
            r.pid == 0,
            r.buf_ptr == 0,
            r.head == 0,
            r.tail == 0,
            r.kbuf@ == Seq::new(256, |k: int| 0u8),
    {
        let r = Subscriber { buf_ptr: 0, pid: 0, kbuf: [0u8; 256], head: 0, tail: 0 };
        assert(r@ =~= Seq::<u8>::empty());
        assert(r.kbuf@ =~= Seq::new(256, |k: int| 0u8));
        r
    }

    /// Queues a byte from the keyboard interrupt unless the ring is full
    /// (255 bytes). Returns whether the byte also goes to the program's
    /// mailbox: it has one and the mailbox is empty (`mailbox_empty`).
    pub fn push_irq(&mut self, b: u8, mailbox_empty: bool) -> (to_mailbox: bool)
        requires
            old(self).wf(),
        ensures
            final(self).wf(),
            to_mailbox == (old(self).buf_ptr != 0 && mailbox_empty),
            old(self)@.len() < 255 ==> final(self)@ == old(self)@.push(b),
            old(self)@.len() >= 255 ==> final(self)@ == old(self)@,
            forall|bs: Seq<u8>| old(self)@ == fed_ring(bs) ==> #[trigger] fed_ring(bs.push(b)) == final(self)@,
            final(self).pid == old(self).pid && final(self).buf_ptr == old(self).buf_ptr,
    {
        proof {
            assert forall|bs: Seq<u8>| #[trigger] bs.push(b).drop_last() == bs by {
                assert(bs.push(b).drop_last() =~= bs);
            }
        }
        let to_mailbox = self.buf_ptr != 0 && mailbox_empty;
        let head = self.head;
        let next = (head + 1) % USER_KBUF_SIZE;
        if next != self.tail {
            let ghost before = self@;
            self.kbuf[head] = b;
            self.head = next;
            proof {
                assert forall|i: int| 0 <= i < before.len() implies self@[i] == before[i] by {
                    assert((self.tail + i) % 256 != head as int);
                }
                assert(self@[before.len() as int] == b);
                assert(self@ =~= before.push(b));
            }
        }
        to_mailbox
    }

    /// Takes up to `len` waiting bytes, oldest first.
    pub fn copy_to_user(&mut self, len: usize) -> (r: Vec<u8>)
        requires
            old(self).wf(),
        ensures
            final(self).wf(),
            r@ == old(self)@.take(if len < old(self)@.len() { len as int } else { old(self)@.len() as int }),
            final(self)@ == old(self)@.skip(r@.len() as int),
            final(self).pid == old(self).pid && final(self).buf_ptr == old(self).buf_ptr,
    {
        let mut out: Vec<u8> = Vec::new();
        let ghost start = self@;
        while out.len() < len
            invariant
                self.wf(),
                out@.len() <= len,
                out@.len() <= start.len(),
                out@ == start.take(out@.len() as int),
                self@ == start.skip(out@.len() as int),
                start == old(self)@,
                self.pid == old(self).pid && self.buf_ptr == old(self).buf_ptr,
            ensures
                self.wf(),
                out@ == start.take(out@.len() as int),
                self@ == start.skip(out@.len() as int),
                out@.len() == (if len < start.len() { len as int } else { start.len() as int }),
                self.pid == old(self).pid && self.buf_ptr == old(self).buf_ptr,
            decreases len - out@.len(),
        {
            let tail = self.tail;
            if tail == self.head {
                assert(self@.len() == 0);
                break;
            }
            let byte = self.kbuf[tail];
            assert(byte == self@[0]);
            let ghost before = self@;
            self.tail = (tail + 1) % USER_KBUF_SIZE;
            out.push(byte);
            proof {
                assert forall|i: int| 0 <= i < self@.len() implies self@[i] == before[i + 1] by {
                    assert((self.tail + i) % 256 == (tail + i + 1) % 256);
                }
                assert(self@ =~= before.skip(1));
                assert(out@ =~= start.take(out@.len() as int));
                assert(self@ =~= start.skip(out@.len() as int));
            }
        }
        out
    }

    /// Number of waiting bytes.
    pub fn available(&self) -> (r: usize)
        requires
            self.wf(),
        ensures
            r == self@.len(),
    {
        if self.head >= self.tail {
            self.head - self.tail
        } else {
            USER_KBUF_SIZE - self.tail + self.head
        }
    }

    /// Drops all waiting bytes.
    pub fn clear(&mut self)
        ensures
            final(self).wf(),
            final(self)@ == Seq::<u8>::empty(),
            final(self).pid == old(self).pid && final(self).buf_ptr == old(self).buf_ptr,
    {
        self.head = 0;
        self.tail = 0;
        assert(self@ =~= Seq::<u8>::empty());
    }
}

/// The keyboard subscribers.
pub struct Receptors {
    pub slots: [Subscriber; 5],
}

/// Slot `i` is the first whose pid is `pid`.
pub open spec fn first_slot_of(slots: Seq<Subscriber>, pid: usize, i: int) -> bool {
    &&& 0 <= i < slots.len()
    &&& slots[i].pid == pid
    &&& forall|j: int| 0 <= j < i ==> (#[trigger] slots[j]).pid != pid
}

impl Receptors {
    /// No subscriber.
    pub fn new() -> (r: Self)
        ensures
            forall|i: int| 0 <= i < 5 ==> (#[trigger] r.slots@[i]).pid == 0 && r.slots@[i].wf(),
    {
        Receptors { slots: [Subscriber::new(), Subscriber::new(), Subscriber::new(), Subscriber::new(), Subscriber::new()] }
    }

    /// Subscribes program `pid` with mailbox `addr` in the first free slot
    /// (pid 0), its ring emptied; -1 when none is free.
    pub fn pipe_subscribe(&mut self, pid: usize, addr: u64) -> (r: isize)
        ensures
            r == 0 <==> exists|i: int| #[trigger] first_slot_of(old(self).slots@, 0, i),
            r == -1 <==> !exists|i: int| #[trigger] first_slot_of(old(self).slots@, 0, i),
            forall|i: int| #[trigger] first_slot_of(old(self).slots@, 0, i) ==> {
                &&& final(self).slots@[i].pid == pid
                &&& final(self).slots@[i].buf_ptr == addr
                &&& final(self).slots@[i].wf()
                &&& final(self).slots@[i]@ == Seq::<u8>::empty()
                &&& forall|j: int| 0 <= j < 5 && j != i ==> final(self).slots@[j] == old(self).slots@[j]
            },
            r == -1 ==> final(self).slots@ == old(self).slots@,
    {
        let mut i: usize = 0;
        while i < MAX_RECEPTORS
            invariant
                self.slots@ == old(self).slots@,
                i <= 5,
                forall|j: int| 0 <= j < i ==> (#[trigger] self.slots@[j]).pid != 0,
            decreases 5 - i,
        {
            if self.slots[i].pid == 0 {
                assert(first_slot_of(old(self).slots@, 0, i as int));
                let mut s = Subscriber::new();
                s.pid = pid;
                s.buf_ptr = addr;
                self.slots[i] = s;
                proof {
                    assert forall|k: int| #[trigger] first_slot_of(old(self).slots@, 0, k) implies k == i by {
                        if k < i {
                            assert(old(self).slots@[k].pid != 0);
                        } else if k > i {
                            assert(old(self).slots@[i as int].pid == 0);
                        }
                    }
                }
                return 0;
            }
            i = i + 1;
        }
        proof {
            assert forall|k: int| !#[trigger] first_slot_of(old(self).slots@, 0, k) by {
                if 0 <= k < 5 {
                    assert(self.slots@[k].pid != 0);
                }
            }
        }
        -1
    }

    /// Removes the subscription of program `pid` (its first slot); -1 when
    /// it has none.
    pub fn pipe_unsubscribe(&mut self, pid: usize) -> (r: isize)
        ensures
            r == 0 <==> exists|i: int| #[trigger] first_slot_of(old(self).slots@, pid, i),
            r == -1 <==> !exists|i: int| #[trigger] first_slot_of(old(self).slots@, pid, i),
            forall|i: int| #[trigger] first_slot_of(old(self).slots@, pid, i) ==> {
                &&& final(self).slots@[i].pid == 0
                &&& final(self).slots@[i].buf_ptr == 0
                &&& final(self).slots@[i].wf()
                &&& final(self).slots@[i]@ == Seq::<u8>::empty()
                &&& forall|j: int| 0 <= j < 5 && j != i ==> final(self).slots@[j] == old(self).slots@[j]
            },
            r == -1 ==> final(self).slots@ == old(self).slots@,
    {
        let mut i: usize = 0;
        while i < MAX_RECEPTORS
            invariant
                self.slots@ == old(self).slots@,
                i <= 5,
                forall|j: int| 0 <= j < i ==> (#[trigger] self.slots@[j]).pid != pid,
            decreases 5 - i,
        {
            if self.slots[i].pid == pid {
                assert(first_slot_of(old(self).slots@, pid, i as int));
                self.slots[i] = Subscriber::new();
                proof {
                    assert forall|k: int| #[trigger] first_slot_of(old(self).slots@, pid, k) implies k == i by {
                        if k < i {
                            assert(old(self).slots@[k].pid != pid);
                        } else if k > i {
                            assert(old(self).slots@[i as int].pid == pid);
                        }
                    }
                }
                return 0;
            }
            i = i + 1;
        }
        proof {
            assert forall|k: int| !#[trigger] first_slot_of(old(self).slots@, pid, k) by {
                if 0 <= k < 5 {
                    assert(self.slots@[k].pid != pid);
                }
            }
        }
        -1
    }

    /// Takes up to `len` waiting bytes of the first slot of program `pid`;
    /// nothing when it has none.
    pub fn pipe_read(&mut self, pid: usize, len: usize) -> (r: Vec<u8>)
        requires
            forall|i: int| 0 <= i < 5 ==> (#[trigger] old(self).slots@[i]).wf(),
        ensures
            forall|i: int| 0 <= i < 5 ==> (#[trigger] final(self).slots@[i]).wf(),
            (forall|i: int| !#[trigger] first_slot_of(old(self).slots@, pid, i)) ==> r@.len() == 0
                && final(self).slots@ == old(self).slots@,
            forall|i: int| #[trigger] first_slot_of(old(self).slots@, pid, i) ==> {
                let s0 = old(self).slots@[i];
                &&& r@ == s0@.take(if len < s0@.len() { len as int } else { s0@.len() as int })
                &&& final(self).slots@[i]@ == s0@.skip(r@.len() as int)
                &&& final(self).slots@[i].pid == s0.pid && final(self).slots@[i].buf_ptr == s0.buf_ptr
                &&& forall|j: int| 0 <= j < 5 && j != i ==> final(self).slots@[j] == old(self).slots@[j]
            },
    {
        let mut i: usize = 0;
        while i < MAX_RECEPTORS
            invariant
                self.slots@ == old(self).slots@,
                i <= 5,
                forall|j: int| 0 <= j < 5 ==> (#[trigger] self.slots@[j]).wf(),
                forall|j: int| 0 <= j < i ==> (#[trigger] self.slots@[j]).pid != pid,
            decreases 5 - i,
        {
            if self.slots[i].pid == pid {
                let mut s = Subscriber {
                    buf_ptr: self.slots[i].buf_ptr,
                    pid: self.slots[i].pid,
                    kbuf: self.slots[i].kbuf,
                    head: self.slots[i].head,
                    tail: self.slots[i].tail,
                };
                assert(s == old(self).slots@[i as int]);
                let out = s.copy_to_user(len);
                self.slots[i] = s;
                proof {
                    assert forall|k: int| #[trigger] first_slot_of(old(self).slots@, pid, k) implies k == i by {
                        if k < i {
                            assert(old(self).slots@[k].pid != pid);
                        } else if k > i {
                            assert(old(self).slots@[i as int].pid == pid);
                        }
                    }
                    assert(first_slot_of(old(self).slots@, pid, i as int));
                }
                return out;
            }
            i = i + 1;
        }
        Vec::new()
    }
}

/// Bytes queued on a subscriber come back out in the order they went in.
pub proof fn lemma_ring_fifo(waiting: Seq<u8>, b: u8)
    requires
        waiting.len() < 255,
    ensures
        waiting.push(b).take(waiting.len() as int) == waiting,
        waiting.push(b).skip(waiting.len() as int) == seq![b],
{
    assert(waiting.push(b).take(waiting.len() as int) =~= waiting);
    assert(waiting.push(b).skip(waiting.len() as int) =~= seq![b]);
}

} // verus!
