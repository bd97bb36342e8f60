//! The system configuration: user name, host name, working directory and version.
use vstd::prelude::*;

verus! {

/// The ASCII space that pads the configuration fields.
pub const SPACE: u8 = 0x20;

/// `s` without its trailing spaces.
pub open spec fn trim_end(s: Seq<u8>) -> Seq<u8>
    decreases s.len(),
{
    if s.len() > 0 && s.last() == SPACE {
        trim_end(s.drop_last())
    } else {
        s
    }
}

/// The first (at most) `n` bytes of `s`, padded with spaces to `n` bytes.
pub open spec fn padded(s: Seq<u8>, n: nat) -> Seq<u8> {
    Seq::new(n, |i: int| if i < s.len() { s[i] } else { SPACE })
}

/// Length of `s` without its trailing spaces.
pub fn trimmed_len(s: &[u8]) -> (r: usize)
    ensures
        r <= s@.len(),
        s@.take(r as int) == trim_end(s@),
{
    let mut end = s.len();
    assert(s@.take(end as int) =~= s@);
    while end > 0 && s[end - 1] == SPACE
        invariant
            end <= s@.len(),
            trim_end(s@.take(end as int)) == trim_end(s@),
        decreases end,
    {
        assert(s@.take(end as int).drop_last() =~= s@.take(end - 1));
        end = end - 1;
    }
    end
}

/// Copies `src` (at most 32 bytes of it) into `dst` and pads the rest with spaces.
fn fill_padded(dst: &mut [u8; 32], src: &[u8]) -> (len: usize)
    ensures
        len == if src@.len() < 32 { src@.len() } else { 32 },
        final(dst)@ == padded(src@, 32),
{
    let len = if src.len() < 32 { src.len() } else { 32 };
    let mut i: usize = 0;
    while i < 32
        invariant
            len == if src@.len() < 32 { src@.len() } else { 32 },
            i <= 32,
            forall|j: int| 0 <= j < i ==> dst@[j] == padded(src@, 32)[j],
        decreases 32 - i,
    {
        if i < len {
            dst[i] = src[i];
        } else {
            dst[i] = SPACE;
        }
        i = i + 1;
    }
    assert(dst@ =~= padded(src@, 32));
    len
}

/// The system configuration. Text fields are padded with spaces.
pub struct SystemConfig {
    pub user: [u8; 32],
    pub host: [u8; 32],
    pub path: [u8; 32],
    pub path_len: usize,
    pub path_cluster: u16,
    pub version: [u8; 16],
}

/// "root"
pub open spec fn default_user() -> Seq<u8> {
    seq![0x72u8, 0x6f, 0x6f, 0x74]
}

/// "rourex"
pub open spec fn default_host() -> Seq<u8> {
    seq![0x72u8, 0x6f, 0x75, 0x72, 0x65, 0x78]
}

/// "v0.11.3"
pub open spec fn default_version() -> Seq<u8> {
    seq![0x76u8, 0x30, 0x2e, 0x31, 0x31, 0x2e, 0x33]
}

impl SystemConfig {
    /// The boot configuration: user "root", host "rourex", path "/" in the
    /// root directory (cluster 0), version "v0.11.3".
    pub fn new() -> (r: Self)
        ensures
            r.user@ == padded(default_user(), 32),
            r.host@ == padded(default_host(), 32),
            r.path@ == padded(seq![0x2fu8], 32),
            r.path_len == 1,
            r.path_cluster == 0,
            r.version@ == padded(default_version(), 16),
    {
        let mut c = SystemConfig {
            user: [SPACE; 32],
            host: [SPACE; 32],
            path: [SPACE; 32],
            path_len: 1,
            path_cluster: 0,
            version: [SPACE; 16],
        };
        let user: [u8; 4] = [0x72, 0x6f, 0x6f, 0x74];
        let host: [u8; 6] = [0x72, 0x6f, 0x75, 0x72, 0x65, 0x78];
        let root: [u8; 1] = [0x2f];
        let _ = fill_padded(&mut c.user, user.as_slice());
        let _ = fill_padded(&mut c.host, host.as_slice());
        let _ = fill_padded(&mut c.path, root.as_slice());
        c.version[0] = 0x76;
        c.version[1] = 0x30;
        c.version[2] = 0x2e;
        c.version[3] = 0x31;
        c.version[4] = 0x31;
        c.version[5] = 0x2e;
        c.version[6] = 0x33;
        assert(user@ == default_user());
        assert(host@ == default_host());
        assert(root@ == seq![0x2fu8]);
        assert(c.version@ =~= padded(default_version(), 16));
        c
    }

    /// Sets the user name (at most 32 bytes of it).
    pub fn set_user(&mut self, new_user: &[u8])
        ensures
            final(self).user@ == padded(new_user@, 32),
            final(self).host == old(self).host,
            final(self).path == old(self).path,
            final(self).path_len == old(self).path_len,
            final(self).path_cluster == old(self).path_cluster,
            final(self).version == old(self).version,
    {
        let _ = fill_padded(&mut self.user, new_user);
    }

    /// The user name without its padding.
    pub fn get_user(&self) -> (r: &[u8])
        ensures
            r@ == trim_end(self.user@),
    {
        let s = self.user.as_slice();
        let end = trimmed_len(s);
        &s[0..end]
    }

    /// Sets the host name (at most 32 bytes of it).
    pub fn set_host(&mut self, new_host: &[u8])
        ensures
            final(self).host@ == padded(new_host@, 32),
            final(self).user == old(self).user,
            final(self).path == old(self).path,
            final(self).path_len == old(self).path_len,
            final(self).path_cluster == old(self).path_cluster,
            final(self).version == old(self).version,
    {
        let _ = fill_padded(&mut self.host, new_host);
    }

    /// The host name without its padding.
    pub fn get_host(&self) -> (r: &[u8])
        ensures
            r@ == trim_end(self.host@),
    {
        let s = self.host.as_slice();
        let end = trimmed_len(s);
        &s[0..end]
    }

    /// Sets the working directory path (at most 32 bytes of it) and its cluster.
    pub fn set_path(&mut self, new_path: &[u8], cluster: u16)
        ensures
            final(self).path@ == padded(new_path@, 32),
            final(self).path_len == if new_path@.len() < 32 { new_path@.len() } else { 32 },
            final(self).path_cluster == cluster,
            final(self).user == old(self).user,
            final(self).host == old(self).host,
            final(self).version == old(self).version,
    {
        let len = fill_padded(&mut self.path, new_path);
        self.path_len = len;
        self.path_cluster = cluster;
    }

    /// The working directory path: its first `path_len` bytes (at most 32)
    /// without trailing spaces.
    pub fn get_path(&self) -> (r: &[u8])
        ensures
            r@ == trim_end(self.path@.take(if self.path_len < 32 { self.path_len as int } else { 32 })),
    {
        let n = if self.path_len < 32 { self.path_len } else { 32 };
        let s = &self.path.as_slice()[0..n];
        let end = trimmed_len(s);
        &s[0..end]
    }

    /// The cluster of the working directory.
    pub fn get_path_cluster(&self) -> (r: u16)
        ensures
            r == self.path_cluster,
    {
        self.path_cluster
    }

    /// The version string without its padding.
    pub fn get_version(&self) -> (r: &[u8])
        ensures
            r@ == trim_end(self.version@),
    {
        let s = self.version.as_slice();
        let end = trimmed_len(s);
        &s[0..end]
    }
}

/// Padding a name of at most `n` bytes that does not end in a space, then
/// trimming it, gives the name back.
pub(crate) proof fn lemma_trim_padded(u: Seq<u8>, n: nat)
    requires
        u.len() <= n,
        u.len() == 0 || u.last() != SPACE,
    ensures
        trim_end(padded(u, n)) == u,
    decreases n,
{
    if n == u.len() {
        assert(padded(u, n) =~= u);
    } else {
        assert(padded(u, n).drop_last() =~= padded(u, (n - 1) as nat));
        lemma_trim_padded(u, (n - 1) as nat);
    }
}

/// A user or host name of at most 32 bytes that does not end in a space
/// reads back unchanged after it is set.
pub proof fn lemma_name_roundtrip(u: Seq<u8>)
    requires
        u.len() <= 32,
        u.len() == 0 || u.last() != SPACE,
    ensures
        trim_end(padded(u, 32)) == u,
{
    lemma_trim_padded(u, 32);
}

/// A working directory path of at most 32 bytes that does not end in a
/// space reads back unchanged after it is set.
pub proof fn lemma_path_roundtrip(p: Seq<u8>)
    requires
        p.len() <= 32,
        p.len() == 0 || p.last() != SPACE,
    ensures
        trim_end(padded(p, 32).take(p.len() as int)) == p,
{
    assert(padded(p, 32).take(p.len() as int) =~= p);
}

/// The prompt `user@host:path > `, cut to 80 bytes; `$ ` when the
/// configuration cannot be read.
pub open spec fn prompt_of(user: Seq<u8>, host: Seq<u8>, path: Seq<u8>) -> Seq<u8> {
    let full = user + seq![0x40u8] + host + seq![0x3au8] + path + seq![0x20u8, 0x3e, 0x20];
    if full.len() <= 80 { full } else { full.take(80) }
}

/// Appends `s` to `buf`, keeping at most 80 bytes in it.
fn push_capped(buf: &mut Vec<u8>, s: &[u8])
    requires
        old(buf)@.len() <= 80,
    ensures
        final(buf)@ == if old(buf)@.len() + s@.len() <= 80 {
            old(buf)@ + s@
        } else {
            (old(buf)@ + s@).take(80)
        },
{
    let ghost start = buf@;
    let mut i: usize = 0;
    while i < s.len()
        invariant
            start.len() <= 80,
            i <= s@.len(),
            buf@ == if start.len() + i <= 80 {
                start + s@.take(i as int)
            } else {
                (start + s@.take(i as int)).take(80)
            },
        decreases s@.len() - i,
    {
        if buf.len() < 80 {
            buf.push(s[i]);
        }
        proof {
            let a = start + s@.take(i as int);
            let b = start + s@.take(i + 1);
            assert(b =~= a.push(s@[i as int]));
            if start.len() + i + 1 <= 80 {
            } else if start.len() + i <= 80 {
                assert(buf@ =~= b.take(80));
            } else {
                assert(b.take(80) =~= a.take(80));
            }
        }
        i = i + 1;
    }
    assert(s@.take(s@.len() as int) =~= s@);
}

/// The shell prompt for the configuration `cfg`, or `$ ` without one.
pub fn get_prompt(cfg: Option<&SystemConfig>) -> (r: Vec<u8>)
    ensures
        match cfg {
            Some(c) => r@ == prompt_of(
                trim_end(c.user@),
                trim_end(c.host@),
                trim_end(c.path@.take(if c.path_len < 32 { c.path_len as int } else { 32 })),
            ),
            None => r@ == seq![0x24u8, 0x20],
        },
{
    let mut buf: Vec<u8> = Vec::new();
    match cfg {
        Some(c) => {
            let at: [u8; 1] = [0x40];
            let colon: [u8; 1] = [0x3a];
            let tail: [u8; 3] = [0x20, 0x3e, 0x20];
            let u = c.get_user();
            let h = c.get_host();
            let p = c.get_path();
            push_capped(&mut buf, u);
            push_capped(&mut buf, at.as_slice());
            push_capped(&mut buf, h);
            push_capped(&mut buf, colon.as_slice());
            push_capped(&mut buf, p);
            push_capped(&mut buf, tail.as_slice());
            proof {
                let s1 = u@;
                let s2 = s1 + at@;
                let s3 = s2 + h@;
                let s4 = s3 + colon@;
                let s5 = s4 + p@;
                let s6 = s5 + tail@;
                assert(s6 =~= u@ + seq![0x40u8] + h@ + seq![0x3au8] + p@ + seq![0x20u8, 0x3e, 0x20]);
                assert(buf@ =~= (if s6.len() <= 80 { s6 } else { s6.take(80) }));
            }
        },
        None => {
            buf.push(0x24);
            buf.push(0x20);
            assert(buf@ =~= seq![0x24u8, 0x20]);
        },
    }
    buf
}

} // verus!
