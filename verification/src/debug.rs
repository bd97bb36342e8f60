//! The kernel debug log: a fixed-size byte buffer that fills up and then
//! drops what no longer fits, and decimal formatting of numbers for it.
use vstd::prelude::*;
use crate::fs::block::BlockDevice;
use crate::fs::fat12::fs::{Fs, WriteStatus};

verus! {

pub const DEBUG_LOG_SIZE: usize = 8192;

/// The debug log: the first `len` bytes of `buffer` are the logged text.
pub struct DebugLog {
    buffer: [u8; DEBUG_LOG_SIZE],
    len: usize,
}

impl DebugLog {
    /// At most DEBUG_LOG_SIZE bytes are logged.
    pub closed spec fn wf(&self) -> bool {
        self.len <= DEBUG_LOG_SIZE
    }

    /// The logged bytes.
    pub closed spec fn view(&self) -> Seq<u8> {
        self.buffer@.take(self.len as int)
    }

    /// A well-formed log never holds more than DEBUG_LOG_SIZE bytes.
    pub proof fn lemma_len_bound(&self)
        requires
            self.wf(),
        ensures
            self@.len() <= DEBUG_LOG_SIZE,
    {
    }

    /// An empty log.
    pub fn new() -> (r: Self)
        ensures
            r.wf(),
            r@ == Seq::<u8>::empty(),
    {
        let r = Self { buffer: [0u8; 8192], len: 0 };
        assert(r@ =~= Seq::<u8>::empty());
        r
    }

    /// Forgets everything logged.
    pub fn clear(&mut self)
        ensures
            final(self).wf(),
            final(self)@ == Seq::<u8>::empty(),
    {
        self.len = 0;
        assert(self@ =~= Seq::<u8>::empty());
    }

    /// The logged bytes.
    pub fn data(&self) -> (r: &[u8])
        requires
            self.wf(),
        ensures
            r@ == self@,
            r@.len() <= DEBUG_LOG_SIZE,
    {
        let s = self.buffer.as_slice();
        &s[0..self.len]
    }

    /// Appends as much of `data` as still fits in the log.
    pub fn append(&mut self, data: &[u8])
        requires
            old(self).wf(),
        ensures
            final(self).wf(),
            final(self)@ == appended(old(self)@, data@),
            final(self)@.len() <= DEBUG_LOG_SIZE,
    {
        let remaining = DEBUG_LOG_SIZE - self.len;
        let to_copy = if data.len() <= remaining { data.len() } else { remaining };
        let start = self.len;
        let ghost before = self.buffer@;
        let mut i: usize = 0;
        while i < to_copy
            invariant
                start <= DEBUG_LOG_SIZE,
                to_copy <= data@.len(),
                start + to_copy <= DEBUG_LOG_SIZE,
                i <= to_copy,
                self.buffer@.len() == DEBUG_LOG_SIZE,
                forall|j: int| 0 <= j < start ==> self.buffer@[j] == before[j],
                forall|j: int| 0 <= j < i ==> self.buffer@[start + j] == data@[j],
            decreases to_copy - i,
        {
            self.buffer[start + i] = data[i];
            i = i + 1;
        }
        self.len = start + to_copy;
        assert(self.buffer@.take(self.len as int) =~= before.take(start as int) + data@.take(to_copy as int));
    }
}

/// The log `log` after `data` is appended: as much of `data` as fits in
/// DEBUG_LOG_SIZE bytes.
pub open spec fn appended(log: Seq<u8>, data: Seq<u8>) -> Seq<u8> {
    let room = DEBUG_LOG_SIZE - log.len();
    log + data.take(if data.len() <= room { data.len() as int } else { room })
}

/// Two appends that fit log both texts one after the other, as one append
/// of both would.
pub proof fn lemma_append_twice(log: Seq<u8>, a: Seq<u8>, b: Seq<u8>)
    requires
        log.len() + a.len() + b.len() <= DEBUG_LOG_SIZE,
    ensures
        appended(appended(log, a), b) == log + a + b,
        appended(log, a + b) == log + a + b,
{
    assert(a.take(a.len() as int) =~= a);
    assert(b.take(b.len() as int) =~= b);
    assert((a + b).take((a + b).len() as int) =~= a + b);
    assert(log + a + b =~= log + (a + b));
}

/// Decimal digits of `n`, most significant first, without leading zeros;
/// empty for 0.
pub open spec fn digits_or_empty(n: nat) -> Seq<u8>
    decreases n,
{
    if n == 0 {
        Seq::empty()
    } else {
        digits_or_empty(n / 10).push((0x30 + n % 10) as u8)
    }
}

/// The decimal text of `n`: "0" for zero.
pub open spec fn dec_str(n: nat) -> Seq<u8> {
    if n == 0 {
        seq![0x30u8]
    } else {
        digits_or_empty(n)
    }
}

/// Ten to the power `k`.
pub open spec fn pow10(k: nat) -> nat
    decreases k,
{
    if k == 0 {
        1
    } else {
        10 * pow10((k - 1) as nat)
    }
}

/// Writes the decimal text of `n` at the end of `buf` and returns it.
pub fn u64_to_dec_str(n: u64, buf: &mut [u8; 20]) -> (r: &[u8])
    ensures
        r@ == dec_str(n as nat),
{
    if n == 0 {
        buf[0] = 0x30;
        let s = buf.as_slice();
        let r = &s[0..1];
        assert(r@ =~= seq![0x30u8]);
        return r;
    }
    let mut m = n;
    let mut i: usize = 20;
    proof {
        reveal_with_fuel(pow10, 21);
    }
    assert(pow10(20) == 100000000000000000000nat);
    while m > 0
        invariant
            i <= 20,
            m as nat <= n as nat,
            m < pow10(i as nat),
            digits_or_empty(n as nat) == digits_or_empty(m as nat) + buf@.subrange(i as int, 20),
        decreases m,
    {
        assert(i > 0);
        assert(pow10(i as nat) == 10 * pow10((i - 1) as nat));
        let d = (m % 10) as u8;
        i = i - 1;
        let ghost old_tail = buf@.subrange(i + 1, 20);
        buf[i] = 0x30 + d;
        let ghost m0 = m as nat;
        m = m / 10;
        proof {
            assert(buf@.subrange(i as int, 20) =~= seq![(0x30 + m0 % 10) as u8] + old_tail);
            assert(digits_or_empty(m0) == digits_or_empty(m0 / 10).push((0x30 + m0 % 10) as u8));
            assert(digits_or_empty(m as nat).push((0x30 + m0 % 10) as u8) + old_tail
                =~= digits_or_empty(m as nat) + buf@.subrange(i as int, 20));
        }
    }
    let s = buf.as_slice();
    let r = &s[i..20];
    assert(digits_or_empty(0) =~= Seq::<u8>::empty());
    assert(r@ =~= Seq::<u8>::empty() + buf@.subrange(i as int, 20));
    r
}

/// The 8.3 name "DEBUG   TXT" of the file the log is saved to.
pub open spec fn debug_file_name() -> Seq<u8> {
    seq![0x44u8, 0x45, 0x42, 0x55, 0x47, 0x20, 0x20, 0x20, 0x54, 0x58, 0x54]
}

/// Saves the log as the file DEBUG.TXT of the root directory.
pub fn dump_debug_log_to_file<D: BlockDevice>(log: &DebugLog, fs: &mut Fs<D>) -> (r: WriteStatus)
    requires
        log.wf(),
        old(fs).wf(),
        old(fs).write_ready(0),
    ensures
        final(fs).wrote(old(fs), 0, debug_file_name(), log@, r),
{
    let name: [u8; 11] = [0x44, 0x45, 0x42, 0x55, 0x47, 0x20, 0x20, 0x20, 0x54, 0x58, 0x54];
    assert(name@ =~= debug_file_name());
    fs.write_file(0, &name, log.data())
}

} // verus!
