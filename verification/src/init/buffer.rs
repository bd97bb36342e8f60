//! The boot message buffer: text collected during start-up and shown once
//! the screen works.
use vstd::prelude::*;

verus! {

pub const BUFFER_SIZE: usize = 1024;

/// A buffer of at most BUFFER_SIZE bytes; the first `pos` bytes are used.
pub struct Buffer {
    pub buf: [u8; 1024],
    pub pos: usize,
}

impl Buffer {
    /// The used bytes.
    pub open spec fn view(&self) -> Seq<u8> {
        self.buf@.take(self.pos as int)
    }

    /// An empty buffer.
    pub fn new() -> (r: Self)
        ensures
            r.pos == 0,
            r@ == Seq::<u8>::empty(),
            r.buf@ == Seq::new(1024, |k: int| 0u8),
    {
        let r = Self { buf: [0u8; 1024], pos: 0 };
        assert(r@ =~= Seq::<u8>::empty());
        assert(r.buf@ =~= Seq::new(1024, |k: int| 0u8));
        r
    }

    /// Adds as much of `s` as still fits after the used bytes.
    pub fn append(&mut self, s: &[u8])
        requires
            old(self).pos <= BUFFER_SIZE,
        ensures
            final(self).pos <= BUFFER_SIZE,
            final(self)@ == old(self)@ + s@.take(
                if s@.len() <= BUFFER_SIZE - old(self).pos {
                    s@.len() as int
                } else {
                    BUFFER_SIZE - old(self).pos
                },
            ),
    {
        let room = BUFFER_SIZE - self.pos;
        let len = if s.len() <= room { s.len() } else { room };
        let start = self.pos;
        let ghost before = self.buf@;
        let mut i: usize = 0;
        while i < len
            invariant
                start + len <= BUFFER_SIZE,
                len <= s@.len(),
                i <= len,
                self.buf@.len() == BUFFER_SIZE,
                forall|j: int| 0 <= j < start ==> self.buf@[j] == before[j],
                forall|j: int| 0 <= j < i ==> self.buf@[start + j] == s@[j],
            decreases len - i,
        {
            self.buf[start + i] = s[i];
            i = i + 1;
        }
        self.pos = start + len;
        assert(self.buf@.take(self.pos as int) =~= before.take(start as int) + s@.take(len as int));
    }
}

} // verus!
