//! The mount table of the virtual file system: paths mapped to file system types.
use vstd::prelude::*;

verus! {

pub const MAX_MOUNTS: usize = 8;

/// The kind of file system mounted at a path.
#[derive(Clone, Copy, PartialEq, Eq, Structural)]
pub enum FsType {
    Empty,
    Root,
    Fat12,
    Iso9660,
}

/// One mount point: a path of at most 31 bytes and its file system type.
#[derive(Clone, Copy)]
pub struct VfsMount {
    pub path: [u8; 32],
    pub path_len: usize,
    pub fs_type: FsType,
}

impl VfsMount {
    /// The mount path.
    pub open spec fn spec_path(&self) -> Seq<u8> {
        self.path@.subrange(0, self.path_len as int)
    }

    /// An unused mount slot.
    pub fn empty() -> (r: Self)
        ensures
            r.path_len == 0,
            r.fs_type == FsType::Empty,
            r.path@ == Seq::new(32, |i: int| 0u8),
    {
        let r = Self { path: [0u8; 32], path_len: 0, fs_type: FsType::Empty };
        assert(r.path@ =~= Seq::new(32, |i: int| 0u8));
        r
    }
}

/// A mount as (path, type).
pub open spec fn mount_view(m: VfsMount) -> (Seq<u8>, FsType) {
    (m.spec_path(), m.fs_type)
}

/// The mount table: the first `count` slots are in use, in mounting order.
pub struct VfsTable {
    mounts: [VfsMount; MAX_MOUNTS],
    count: usize,
}

/// A mount with path `mp` and type `t` can serve `path`: `mp` is a prefix of
/// `path` that ends at the end of `path` or before a '/'.
pub open spec fn mount_matches(mp: Seq<u8>, t: FsType, path: Seq<u8>) -> bool {
    &&& t != FsType::Empty
    &&& mp.len() <= path.len()
    &&& path.subrange(0, mp.len() as int) == mp
    &&& (path.len() == mp.len() || path[mp.len() as int] == 0x2F)
}

/// The longest matching mount among `ms` for `path` as (length, type);
/// among mounts of equal length the one mounted last wins; (0, None) when none matches.
pub open spec fn best_mount(ms: Seq<(Seq<u8>, FsType)>, path: Seq<u8>) -> (int, FsType)
    decreases ms.len(),
{
    if ms.len() == 0 {
        (0, FsType::Empty)
    } else {
        let prev = best_mount(ms.drop_last(), path);
        let m = ms.last();
        if mount_matches(m.0, m.1, path) && m.0.len() >= prev.0 {
            (m.0.len() as int, m.1)
        } else {
            prev
        }
    }
}

/// `path` with one leading '/' removed, if it has one.
pub open spec fn strip_slash(p: Seq<u8>) -> Seq<u8> {
    if p.len() > 0 && p[0] == 0x2F {
        p.subrange(1, p.len() as int)
    } else {
        p
    }
}

/// The file system type serving `path` and the path relative to its mount point.
pub open spec fn spec_resolve(ms: Seq<(Seq<u8>, FsType)>, path: Seq<u8>) -> Option<(FsType, Seq<u8>)> {
    let (len, t) = best_mount(ms, path);
    if t == FsType::Empty {
        None
    } else {
        Some((t, strip_slash(path.subrange(len, path.len() as int))))
    }
}

/// Index of the first mount whose path equals `path`.
pub open spec fn first_mount_of(ms: Seq<(Seq<u8>, FsType)>, path: Seq<u8>, i: int) -> bool {
    &&& 0 <= i < ms.len()
    &&& ms[i].0 == path
    &&& forall|j: int| 0 <= j < i ==> #[trigger] ms[j].0 != path
}

impl VfsTable {
    /// Every slot in use holds a path of at most 32 bytes.
    pub closed spec fn wf(&self) -> bool {
        &&& self.count <= MAX_MOUNTS
        &&& forall|i: int| 0 <= i < self.count ==> #[trigger] self.mounts@[i].path_len <= 32
    }

    /// The mounts in use, in mounting order, as (path, type).
    pub closed spec fn view(&self) -> Seq<(Seq<u8>, FsType)> {
        Seq::new(self.count as nat, |i: int| mount_view(self.mounts@[i]))
    }

    /// An empty mount table.
    pub fn new() -> (r: Self)
        ensures
            r.wf(),
            r@ == Seq::<(Seq<u8>, FsType)>::empty(),
    {
        let e = VfsMount::empty();
        let r = Self { mounts: [e; MAX_MOUNTS], count: 0 };
        assert(r@ =~= Seq::<(Seq<u8>, FsType)>::empty());
        r
    }

    /// Adds a mount of `fs_type` at `path` (truncated to 31 bytes); false
    /// when the table already holds MAX_MOUNTS mounts.
    pub fn mount(&mut self, path: &[u8], fs_type: FsType) -> (r: bool)
        requires
            old(self).wf(),
        ensures
            final(self).wf(),
            r == (old(self)@.len() < MAX_MOUNTS),
            r ==> final(self)@ == old(self)@.push(
                (path@.subrange(0, if path@.len() < 31 { path@.len() as int } else { 31 }), fs_type),
            ),
            !r ==> final(self)@ == old(self)@,
    {
        if self.count >= MAX_MOUNTS {
            return false;
        }
        let len = if path.len() < 31 { path.len() } else { 31 };
        let mut m = VfsMount::empty();
        let mut i: usize = 0;
        while i < len
            invariant
                len <= 31,
                len <= path@.len(),
                i <= len,
                m.path_len == 0,
                forall|j: int| 0 <= j < i ==> m.path@[j] == path@[j],
            decreases len - i,
        {
            m.path[i] = path[i];
            i = i + 1;
        }
        m.path_len = len;
        m.fs_type = fs_type;
        assert(m.spec_path() =~= path@.subrange(0, len as int));
        let ghost before = self@;
        let c = self.count;
        self.mounts[c] = m;
        self.count = c + 1;
        assert(self@ =~= before.push((path@.subrange(0, len as int), fs_type)));
        true
    }

    /// Removes the first mount whose path equals `path`; the later mounts
    /// move down one slot. False when no mount has that path.
    pub fn umount(&mut self, path: &[u8]) -> (r: bool)
        requires
            old(self).wf(),
        ensures
            final(self).wf(),
            r == exists|i: int| #[trigger] first_mount_of(old(self)@, path@, i),
            !r ==> final(self)@ == old(self)@,
            forall|i: int| #[trigger] first_mount_of(old(self)@, path@, i) ==> final(self)@ == old(self)@.remove(i),
    {
        let mut i: usize = 0;
        while i < self.count
            invariant
                self.wf(),
                self@ == old(self)@,
                i <= self.count,
                forall|j: int| 0 <= j < i ==> #[trigger] self@[j].0 != path@,
            decreases self.count - i,
        {
            let plen = self.mounts[i].path_len;
            let mut same = plen == path.len();
            if same {
                let mut k: usize = 0;
                while k < plen
                    invariant
                        self.wf(),
                        i < self.count,
                        plen == self.mounts@[i as int].path_len,
                        plen == path@.len(),
                        k <= plen,
                        same == forall|t: int| 0 <= t < k ==> self.mounts@[i as int].path@[t] == path@[t],
                    decreases plen - k,
                {
                    if self.mounts[i].path[k] != path[k] {
                        same = false;
                    }
                    k = k + 1;
                }
            }
            assert(same == (self@[i as int].0 == path@)) by {
                if same {
                    assert(self@[i as int].0 =~= path@);
                } else if self.mounts@[i as int].path_len == path@.len() {
                    let t = choose|t: int| 0 <= t < plen && self.mounts@[i as int].path@[t] != path@[t];
                    assert(self@[i as int].0[t] != path@[t]);
                }
            }
            if same {
                let ghost before = self@;
                assert(first_mount_of(before, path@, i as int));
                let n = self.count;
                let mut ms = self.mounts;
                let mut j: usize = i;
                while j < n - 1
                    invariant
                        n <= MAX_MOUNTS,
                        i < n,
                        i <= j <= n - 1,
                        before.len() == n,
                        forall|t: int| 0 <= t < n ==> (#[trigger] ms@[t]).path_len <= 32,
                        forall|t: int| 0 <= t < i ==> mount_view(#[trigger] ms@[t]) == before[t],
                        forall|t: int| i <= t < j ==> mount_view(#[trigger] ms@[t]) == before[t + 1],
                        forall|t: int| j <= t < n ==> mount_view(#[trigger] ms@[t]) == before[t],
                    decreases n - 1 - j,
                {
                    let next = ms[j + 1];
                    ms[j] = next;
                    j = j + 1;
                }
                self.mounts = ms;
                self.mounts[n - 1] = VfsMount::empty();
                self.count = n - 1;
                proof {
                    assert forall|k: int| #[trigger] first_mount_of(before, path@, k) implies k == i by {
                        if k < i {
                            assert(before[k].0 != path@);
                        } else if k > i {
                            assert(before[i as int].0 != path@);
                        }
                    }
                    assert(self@ =~= before.remove(i as int));
                }
                return true;
            }
            i = i + 1;
        }
        proof {
            assert forall|k: int| !#[trigger] first_mount_of(old(self)@, path@, k) by {
                if 0 <= k < self@.len() {
                    assert(self@[k].0 != path@);
                }
            }
        }
        false
    }

    /// The file system type serving `path` (the longest matching mount, the
    /// last mounted among equals) and the rest of `path` after its mount
    /// point, without a leading '/'; None when no mount matches.
    pub fn resolve<'a>(&self, path: &'a [u8]) -> (r: Option<(FsType, &'a [u8])>)
        requires
            self.wf(),
        ensures
            match r {
                None => spec_resolve(self@, path@) is None,
                Some((t, rel)) => spec_resolve(self@, path@) == Some((t, rel@)),
            },
    {
        let mut best_len: usize = 0;
        let mut best_type = FsType::Empty;
        let mut i: usize = 0;
        while i < self.count
            invariant
                self.wf(),
                i <= self.count,
                best_len <= path@.len(),
                (best_len as int, best_type) == best_mount(self@.take(i as int), path@),
            decreases self.count - i,
        {
            let m = self.mounts[i];
            let pl = m.path_len;
            let mut hit = false;
            if m.fs_type != FsType::Empty && pl <= path.len() {
                let mut k: usize = 0;
                let mut pre = true;
                while k < pl
                    invariant
                        pl == m.path_len,
                        pl <= 32,
                        pl <= path@.len(),
                        k <= pl,
                        pre == forall|t: int| 0 <= t < k ==> path@[t] == m.path@[t],
                    decreases pl - k,
                {
                    if path[k] != m.path[k] {
                        pre = false;
                    }
                    k = k + 1;
                }
                let tail_ok = pl == path.len() || path[pl] == 0x2F;
                hit = pre && tail_ok;
                proof {
                    if pre {
                        assert(path@.subrange(0, pl as int) =~= m.spec_path());
                    } else {
                        let t = choose|t: int| 0 <= t < pl && path@[t] != m.path@[t];
                        assert(path@.subrange(0, pl as int)[t] != m.spec_path()[t]);
                    }
                }
            }
            proof {
                assert(self@.take(i + 1).drop_last() =~= self@.take(i as int));
                assert(self@.take(i + 1).last() == mount_view(m));
                assert(hit == mount_matches(m.spec_path(), m.fs_type, path@));
            }
            if hit && pl >= best_len {
                best_len = pl;
                best_type = m.fs_type;
            }
            i = i + 1;
        }
        assert(self@.take(self.count as int) =~= self@);
        if best_type == FsType::Empty {
            return None;
        }
        let rest = &path[best_len..path.len()];
        let rel = if rest.len() > 0 && rest[0] == 0x2F {
            &rest[1..rest.len()]
        } else {
            rest
        };
        assert(rest@ == path@.subrange(best_len as int, path@.len() as int));
        assert(rel@ == strip_slash(rest@));
        Some((best_type, rel))
    }

    /// Number of mounts in use.
    pub fn count(&self) -> (r: usize)
        requires
            self.wf(),
        ensures
            r == self@.len(),
            r <= MAX_MOUNTS,
    {
        self.count
    }

    /// The mount in slot `idx`, if that slot is in use.
    pub fn get(&self, idx: usize) -> (r: Option<&VfsMount>)
        requires
            self.wf(),
        ensures
            idx < self@.len() <==> r is Some,
            r matches Some(m) ==> (m.spec_path(), m.fs_type) == self@[idx as int] && m.path_len <= 32,
    {
        if idx < self.count {
            Some(&self.mounts[idx])
        } else {
            None
        }
    }
}

/// If `path` resolves to the FAT12 mount, the path relative to it. Callers
/// use this to accept both `/mnt/fat/FILE.EXT` and a bare `FILE.EXT`.
pub fn try_fat12_absolute<'a>(vfs: &VfsTable, path: &'a [u8]) -> (r: Option<&'a [u8]>)
    requires
        vfs.wf(),
    ensures
        match r {
            Some(rel) => spec_resolve(vfs@, path@) == Some((FsType::Fat12, rel@)),
            None => !(spec_resolve(vfs@, path@) matches Some((t, _)) && t == FsType::Fat12),
        },
{
    match vfs.resolve(path) {
        Some((FsType::Fat12, rel)) => Some(rel),
        _ => None,
    }
}

/// The best match never claims more of `path` than `path` has.
proof fn lemma_best_mount_len(ms: Seq<(Seq<u8>, FsType)>, path: Seq<u8>)
    ensures
        0 <= best_mount(ms, path).0 <= path.len(),
    decreases ms.len(),
{
    if ms.len() > 0 {
        lemma_best_mount_len(ms.drop_last(), path);
    }
}

/// Right after a path of at most 31 bytes is mounted, resolving exactly that
/// path gives the new mount's type and an empty relative path, whatever was
/// mounted before.
pub proof fn lemma_resolve_after_mount(ms: Seq<(Seq<u8>, FsType)>, p: Seq<u8>, t: FsType)
    requires
        t != FsType::Empty,
        p.len() <= 31,
    ensures
        spec_resolve(ms.push((p, t)), p) == Some((t, Seq::<u8>::empty())),
{
    lemma_best_mount_len(ms, p);
    assert(ms.push((p, t)).drop_last() =~= ms);
    assert(p.subrange(0, p.len() as int) =~= p);
    assert(p.subrange(p.len() as int, p.len() as int) =~= Seq::<u8>::empty());
}

/// Unmounting a path that was just mounted, and was not mounted before,
/// gives back the table as it was.
pub proof fn lemma_umount_undoes_mount(ms: Seq<(Seq<u8>, FsType)>, p: Seq<u8>, t: FsType)
    requires
        forall|i: int| 0 <= i < ms.len() ==> #[trigger] ms[i].0 != p,
    ensures
        first_mount_of(ms.push((p, t)), p, ms.len() as int),
        forall|i: int| #[trigger] first_mount_of(ms.push((p, t)), p, i) ==> i == ms.len(),
        ms.push((p, t)).remove(ms.len() as int) == ms,
{
    let s = ms.push((p, t));
    assert forall|j: int| 0 <= j < ms.len() implies #[trigger] s[j].0 != p by {
        assert(s[j] == ms[j]);
    }
    assert forall|i: int| #[trigger] first_mount_of(s, p, i) implies i == ms.len() by {
        if i < ms.len() {
            assert(s[i] == ms[i]);
        }
    }
    assert(s.remove(ms.len() as int) =~= ms);
}

} // verus!
