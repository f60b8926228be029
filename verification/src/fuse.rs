//! Inode registry and kernel-protocol decision logic.
//!
//! The kernel identifies files by opaque 64-bit inode numbers; the handler's
//! natural key is the backing path. `CipherFS` keeps a monotonically growing
//! bidirectional `inode ↔ path` registry (inode 1 is the backing root) and
//! turns the kernel's offset-based read and write requests into whole-file
//! decrypt–modify–encrypt cycles over the envelope codec.

use vstd::prelude::*;
use crate::crypto::{decrypt, encrypt, is_envelope_for, MIN_BLOB_LEN};

verus! {

/// The inode number reserved for the backing root directory.
pub const ROOT_INO: u64 = 1;

/// Seconds of validity granted to every attribute and entry reply.
pub const TTL_SECS: u64 = 1;

/// Errors in the vocabulary the kernel boundary sees.
#[derive(Clone, Copy, Debug, PartialEq, Eq, Structural)]
pub enum FsError {
    /// Unknown inode, missing backing path, or absent lookup target.
    NotFound,
    /// A directory operation on a non-directory.
    NotADirectory,
    /// Backing I/O failure, decrypt authentication failure, or encrypt failure.
    IoFailed,
}

/// The path recorded for `ino`: first match in the registry sequence.
pub open spec fn path_of(s: Seq<(u64, Seq<u8>)>, ino: u64) -> Option<Seq<u8>>
    decreases s.len(),
{
    if s.len() == 0 {
        None
    } else if s[0].0 == ino {
        Some(s[0].1)
    } else {
        path_of(s.drop_first(), ino)
    }
}

/// The inode recorded for `path`: first match in the registry sequence.
pub open spec fn ino_of(s: Seq<(u64, Seq<u8>)>, path: Seq<u8>) -> Option<u64>
    decreases s.len(),
{
    if s.len() == 0 {
        None
    } else if s[0].1 == path {
        Some(s[0].0)
    } else {
        ino_of(s.drop_first(), path)
    }
}

/// What registering `path` does to a registry with counter `next`: an already
/// recorded path keeps its inode and changes nothing; a new path is bound to
/// `next` and appended. Returns the new registry, the new counter, and the
/// inode handed back.
pub open spec fn registered(s: Seq<(u64, Seq<u8>)>, next: u64, path: Seq<u8>) -> (
    Seq<(u64, Seq<u8>)>,
    u64,
    u64,
) {
    match ino_of(s, path) {
        Some(ino) => (s, next, ino),
        None => (s.push((next, path)), (next + 1) as u64, next),
    }
}

/// The encrypted filesystem handler: the AES-256 key, the backing root, and
/// the inode registry with its allocation counter.
pub struct CipherFS {
    source: Vec<u8>,
    key: [u8; 32],
    inodes: Vec<(u64, Vec<u8>)>,
    next_ino: u64,
}

impl CipherFS {
    /// The registry as a sequence of (inode, path) pairs in insertion order.
    pub closed spec fn entries(self) -> Seq<(u64, Seq<u8>)> {
        self.inodes@.map_values(|e: (u64, Vec<u8>)| (e.0, e.1@))
    }

    /// The next inode number the counter will hand out.
    pub closed spec fn counter(self) -> u64 {
        self.next_ino
    }

    /// The 32-byte key, as a sequence.
    pub closed spec fn key_view(self) -> Seq<u8> {
        self.key@
    }

    /// The backing root path, as a byte sequence.
    pub closed spec fn source_view(self) -> Seq<u8> {
        self.source@
    }

    /// Registry sanity: inodes and paths are both injective, every recorded
    /// inode is positive and below the counter, and the counter leaves room
    /// for inode 1 (the root).
    pub open spec fn wf(self) -> bool {
        &&& forall|i: int, j: int|
            0 <= i < j < self.entries().len() ==> self.entries()[i].0 != self.entries()[j].0
        &&& forall|i: int, j: int|
            0 <= i < j < self.entries().len() ==> self.entries()[i].1 != self.entries()[j].1
        &&& forall|i: int|
            0 <= i < self.entries().len() ==> 1 <= #[trigger] self.entries()[i].0
                < self.counter()
        &&& 2 <= self.counter()
    }

    /// Create a handler for the backing directory `source`: the registry
    /// holds only the root entry and the counter starts at 2.
    pub fn new(source: Vec<u8>, key: [u8; 32]) -> (r: CipherFS)
        ensures
            r.wf(),
            r.entries() == seq![(ROOT_INO, source@)],
            r.counter() == 2,
            r.key_view() == key@,
            r.source_view() == source@,
    {
        let root = copy_bytes(&source);
        let mut inodes: Vec<(u64, Vec<u8>)> = Vec::new();
        inodes.push((ROOT_INO, root));
        let r = CipherFS { source, key, inodes, next_ino: 2 };
        proof {
            assert(r.entries() =~= seq![(ROOT_INO, r.source_view())]);
        }
        r
    }

    /// The current value of the allocation counter: the number the next
    /// fresh registration would receive.
    pub fn counter_value(&self) -> (r: u64)
        ensures
            r == self.counter(),
    {
        self.next_ino
    }

    /// Advance the inode counter and hand out the number it held. The
    /// registry itself is untouched.
    pub fn alloc_ino(&mut self) -> (r: u64)
        requires
            old(self).wf(),
            old(self).counter() < u64::MAX,
        ensures
            final(self).wf(),
            r == old(self).counter(),
            final(self).counter() == old(self).counter() + 1,
            final(self).entries() == old(self).entries(),
            final(self).key_view() == old(self).key_view(),
            final(self).source_view() == old(self).source_view(),
    {
        let ino = self.next_ino;
        self.next_ino = self.next_ino + 1;
        proof {
            assert(self.entries() =~= old(self).entries());
        }
        ino
    }

    /// The path recorded for `ino`, or `None` if the inode is unknown.
    pub fn path_for(&self, ino: u64) -> (r: Option<Vec<u8>>)
        ensures
            r matches Some(p) ==> path_of(self.entries(), ino) == Some(p@),
            r is None ==> path_of(self.entries(), ino) is None,
    {
        let ghost s = self.entries();
        let mut i: usize = 0;
        while i < self.inodes.len()
            invariant
                s == self.entries(),
                0 <= i <= s.len(),
                s.len() == self.inodes@.len(),
                forall|k: int| 0 <= k < i ==> s[k].0 != ino,
            decreases s.len() - i,
        {
            if self.inodes[i].0 == ino {
                proof {
                    lemma_path_of_at(s, ino, i as int);
                }
                return Some(copy_bytes(&self.inodes[i].1));
            }
            i += 1;
        }
        proof {
            lemma_path_of_none(s, ino);
        }
        None
    }

    /// Register `path`: hand back its inode if it is already recorded, else
    /// bind it to the next counter value and append it. Idempotent on the
    /// same path; the returned inode resolves back to `path`.
    pub fn register(&mut self, path: Vec<u8>) -> (r: u64)
        requires
            old(self).wf(),
            old(self).counter() < u64::MAX,
        ensures
            final(self).wf(),
            ({
                let (s2, n2, ino) = registered(
                    old(self).entries(),
                    old(self).counter(),
                    path@,
                );
                final(self).entries() == s2 && final(self).counter() == n2 && r == ino
            }),
            final(self).key_view() == old(self).key_view(),
            final(self).source_view() == old(self).source_view(),
            path_of(final(self).entries(), r) == Some(path@),
            1 <= r < final(self).counter(),
            old(self).counter() <= final(self).counter() <= old(self).counter() + 1,
    {
        let ghost s = self.entries();
        let mut i: usize = 0;
        while i < self.inodes.len()
            invariant
                *self == *old(self),
                old(self).wf(),
                old(self).counter() < u64::MAX,
                s == self.entries(),
                0 <= i <= s.len(),
                s.len() == self.inodes@.len(),
                forall|k: int| 0 <= k < i ==> s[k].1 != path@,
            decreases s.len() - i,
        {
            if bytes_eq(&self.inodes[i].1, &path) {
                let ino = self.inodes[i].0;
                proof {
                    lemma_ino_of_at(s, path@, i as int);
                    assert(forall|k: int| 0 <= k < i ==> s[k].0 != ino) by {
                        assert(s[i as int].0 == ino);
                    }
                    lemma_path_of_at(s, ino, i as int);
                }
                return ino;
            }
            i += 1;
        }
        proof {
            lemma_ino_of_none(s, path@);
        }
        let ino = self.next_ino;
        self.next_ino = self.next_ino + 1;
        self.inodes.push((ino, path));
        proof {
            assert(self.entries() =~= s.push((ino, path@)));
            assert(forall|k: int| 0 <= k < s.len() ==> s[k].0 != ino);
            lemma_path_of_at(self.entries(), ino, s.len() as int);
        }
        ino
    }
}

/// If row `i` is the first whose inode is `ino`, lookup finds its path.
proof fn lemma_path_of_at(s: Seq<(u64, Seq<u8>)>, ino: u64, i: int)
    requires
        0 <= i < s.len(),
        s[i].0 == ino,
        forall|k: int| 0 <= k < i ==> s[k].0 != ino,
    ensures
        path_of(s, ino) == Some(s[i].1),
    decreases s.len(),
{
    if i > 0 {
        lemma_path_of_at(s.drop_first(), ino, i - 1);
    }
}

/// If no row carries `ino`, lookup finds nothing.
proof fn lemma_path_of_none(s: Seq<(u64, Seq<u8>)>, ino: u64)
    requires
        forall|k: int| 0 <= k < s.len() ==> s[k].0 != ino,
    ensures
        path_of(s, ino) is None,
    decreases s.len(),
{
    if s.len() > 0 {
        lemma_path_of_none(s.drop_first(), ino);
    }
}

/// If row `i` is the first whose path is `path`, the reverse lookup finds its
/// inode.
proof fn lemma_ino_of_at(s: Seq<(u64, Seq<u8>)>, path: Seq<u8>, i: int)
    requires
        0 <= i < s.len(),
        s[i].1 == path,
        forall|k: int| 0 <= k < i ==> s[k].1 != path,
    ensures
        ino_of(s, path) == Some(s[i].0),
    decreases s.len(),
{
    if i > 0 {
        lemma_ino_of_at(s.drop_first(), path, i - 1);
    }
}

/// If no row carries `path`, the reverse lookup finds nothing.
proof fn lemma_ino_of_none(s: Seq<(u64, Seq<u8>)>, path: Seq<u8>)
    requires
        forall|k: int| 0 <= k < s.len() ==> s[k].1 != path,
    ensures
        ino_of(s, path) is None,
    decreases s.len(),
{
    if s.len() > 0 {
        lemma_ino_of_none(s.drop_first(), path);
    }
}

/// If the reverse lookup finds `ino`, some row holds `(ino, path)`.
proof fn lemma_ino_of_some(s: Seq<(u64, Seq<u8>)>, path: Seq<u8>)
    requires
        ino_of(s, path) is Some,
    ensures
        exists|i: int|
            0 <= i < s.len() && s[i] == (ino_of(s, path).unwrap(), path),
    decreases s.len(),
{
    if s.len() > 0 && s[0].1 != path {
        lemma_ino_of_some(s.drop_first(), path);
        let i = choose|i: int|
            0 <= i < s.drop_first().len() && s.drop_first()[i] == (
                ino_of(s.drop_first(), path).unwrap(),
                path,
            );
        assert(s[i + 1] == (ino_of(s, path).unwrap(), path));
    }
}

/// Registering a path that is already recorded changes nothing, and the
/// inode any registration hands back resolves to the path that was given.
/// So within one mount a path keeps one inode for the process lifetime:
/// registering it again returns the same number, and looking that number up
/// returns the path.
pub proof fn lemma_register_stable(s: Seq<(u64, Seq<u8>)>, next: u64, path: Seq<u8>)
    requires
        forall|i: int, j: int| 0 <= i < j < s.len() ==> s[i].0 != s[j].0,
        forall|i: int| 0 <= i < s.len() ==> s[i].0 < next,
    ensures
        ({
            let (s1, n1, ino) = registered(s, next, path);
            let (s2, n2, ino2) = registered(s1, n1, path);
            &&& s2 == s1
            &&& n2 == n1
            &&& ino2 == ino
            &&& path_of(s1, ino) == Some(path)
        }),
{
    let (s1, n1, ino) = registered(s, next, path);
    if ino_of(s, path) is Some {
        lemma_ino_of_some(s, path);
        let i = choose|i: int| 0 <= i < s.len() && s[i] == (ino_of(s, path).unwrap(), path);
        assert(forall|k: int| 0 <= k < i ==> s[k].0 != ino) by {
            assert(s[i].0 == ino);
        }
        lemma_path_of_at(s, ino, i);
    } else {
        assert(s1 == s.push((next, path)));
        lemma_ino_of_none_inv(s, path);
        assert(forall|k: int| 0 <= k < s.len() ==> s1[k] == s[k]);
        lemma_ino_of_at(s1, path, s.len() as int);
        assert(forall|k: int| 0 <= k < s.len() ==> s1[k].0 != next);
        lemma_path_of_at(s1, next, s.len() as int);
    }
}

/// If the reverse lookup finds nothing, no row carries `path`.
proof fn lemma_ino_of_none_inv(s: Seq<(u64, Seq<u8>)>, path: Seq<u8>)
    requires
        ino_of(s, path) is None,
    ensures
        forall|k: int| 0 <= k < s.len() ==> s[k].1 != path,
    decreases s.len(),
{
    if s.len() > 0 {
        lemma_ino_of_none_inv(s.drop_first(), path);
        assert(forall|k: int| 1 <= k < s.len() ==> s[k] == s.drop_first()[k - 1]);
    }
}

/// A backing path joined with a child name, as the backing layer does it:
/// a single `/` between them, none doubled.
pub open spec fn joined(parent: Seq<u8>, name: Seq<u8>) -> Seq<u8> {
    if parent.len() > 0 && parent[parent.len() - 1] == 47u8 {
        parent + name
    } else {
        parent + seq![47u8] + name
    }
}

/// The window `[offset, offset + size)` of a plaintext, clipped to the text:
/// empty past the end, short at the boundary.
pub open spec fn clipped(pt: Seq<u8>, offset: int, size: int) -> Seq<u8>
    recommends
        0 <= offset,
        0 <= size,
{
    if offset >= pt.len() {
        Seq::<u8>::empty()
    } else if offset + size >= pt.len() {
        pt.subrange(offset, pt.len() as int)
    } else {
        pt.subrange(offset, offset + size)
    }
}

/// The plaintext a backing file currently carries under `key`: the unique
/// plaintext it is an envelope for, or empty when it is an envelope for none
/// (absent, freshly created, too short, or unreadable).
pub open spec fn plaintext_of(key: Seq<u8>, raw: Seq<u8>) -> Seq<u8> {
    if exists|p: Seq<u8>| is_envelope_for(key, raw, p) {
        choose|p: Seq<u8>| is_envelope_for(key, raw, p)
    } else {
        Seq::<u8>::empty()
    }
}

/// `cur` with `data` written at `offset`: zero bytes fill any hole between
/// the end of `cur` and `offset`, `data` overwrites `[offset, offset+|data|)`,
/// and whatever `cur` held beyond the window is kept.
pub open spec fn spliced(cur: Seq<u8>, offset: int, data: Seq<u8>) -> Seq<u8>
    recommends
        0 <= offset,
{
    Seq::new(
        if cur.len() >= offset + data.len() {
            cur.len()
        } else {
            (offset + data.len()) as nat
        },
        |i: int|
            if offset <= i < offset + data.len() {
                data[i - offset]
            } else if i < cur.len() {
                cur[i]
            } else {
                0u8
            },
    )
}

/// One directory entry as the host hands it in: child name and kind.
pub struct DirEntryIn {
    pub name: Vec<u8>,
    pub is_dir: bool,
}

/// One readdir reply row: inode, the cursor the kernel resumes from, kind,
/// and name.
pub struct DirEntryOut {
    pub ino: u64,
    pub cursor: i64,
    pub is_dir: bool,
    pub name: Vec<u8>,
}

/// Attributes in reply form, all plain values. Times are seconds and
/// nanoseconds since the epoch, clamped to zero by the host for anything
/// earlier.
pub struct FileAttrData {
    pub ino: u64,
    pub size: u64,
    pub blocks: u64,
    pub atime_secs: u64,
    pub atime_nanos: u32,
    pub mtime_secs: u64,
    pub mtime_nanos: u32,
    pub ctime_secs: u64,
    pub ctime_nanos: u32,
    pub crtime_secs: u64,
    pub crtime_nanos: u32,
    pub is_dir: bool,
    pub perm: u16,
    pub nlink: u32,
    pub uid: u32,
    pub gid: u32,
    pub rdev: u32,
    pub blksize: u32,
    pub flags: u32,
}

/// The backing paths of a directory's children, in enumeration order.
pub open spec fn child_paths(dir: Seq<u8>, children: Seq<DirEntryIn>) -> Seq<Seq<u8>> {
    children.map_values(|c: DirEntryIn| joined(dir, c.name@))
}

/// Sequentially register every path in `paths`, front to back.
pub open spec fn registered_all(
    s: Seq<(u64, Seq<u8>)>,
    next: u64,
    paths: Seq<Seq<u8>>,
) -> (Seq<(u64, Seq<u8>)>, u64)
    decreases paths.len(),
{
    if paths.len() == 0 {
        (s, next)
    } else {
        let (s1, n1, _) = registered(s, next, paths[0]);
        registered_all(s1, n1, paths.drop_first())
    }
}

/// Registering one more path is one more `registered` step at the end.
proof fn lemma_registered_all_snoc(
    s: Seq<(u64, Seq<u8>)>,
    next: u64,
    paths: Seq<Seq<u8>>,
    p: Seq<u8>,
)
    ensures
        ({
            let (s1, n1) = registered_all(s, next, paths);
            let (s2, n2, _) = registered(s1, n1, p);
            registered_all(s, next, paths.push(p)) == (s2, n2)
        }),
    decreases paths.len(),
{
    let ext = paths.push(p);
    assert(ext[0] == paths[0] || paths.len() == 0);
    if paths.len() == 0 {
        assert(ext[0] == p);
        assert(ext.drop_first() =~= Seq::<Seq<u8>>::empty());
        assert(registered_all(s, next, ext) == {
            let (s1, n1, _) = registered(s, next, p);
            registered_all(s1, n1, ext.drop_first())
        });
        assert(registered_all(s, next, paths) == (s, next));
    } else {
        let s1 = registered(s, next, paths[0]).0;
        let n1 = registered(s, next, paths[0]).1;
        lemma_registered_all_snoc(s1, n1, paths.drop_first(), p);
        assert(ext.drop_first() =~= paths.drop_first().push(p));
        assert(registered_all(s, next, ext) == registered_all(s1, n1, ext.drop_first()));
        assert(registered_all(s, next, paths) == registered_all(s1, n1, paths.drop_first()));
    }
}

/// Appending a row leaves every already answered inode lookup unchanged.
proof fn lemma_path_of_push(s: Seq<(u64, Seq<u8>)>, e: (u64, Seq<u8>), ino: u64)
    requires
        path_of(s, ino) is Some,
    ensures
        path_of(s.push(e), ino) == path_of(s, ino),
    decreases s.len(),
{
    assert(s.push(e)[0] == s[0]);
    if s[0].0 != ino {
        lemma_path_of_push(s.drop_first(), e, ino);
        assert(s.push(e).drop_first() =~= s.drop_first().push(e));
    }
}

/// Registering any path leaves every already answered inode lookup unchanged.
proof fn lemma_registered_preserves(
    s: Seq<(u64, Seq<u8>)>,
    next: u64,
    path: Seq<u8>,
    ino: u64,
)
    requires
        path_of(s, ino) is Some,
    ensures
        path_of(registered(s, next, path).0, ino) == path_of(s, ino),
{
    if ino_of(s, path) is None {
        lemma_path_of_push(s, (next, path), ino);
    }
}

impl CipherFS {
    /// Succeed with file handle 0 exactly when the inode is known. No
    /// per-open state is kept.
    pub fn open(&self, ino: u64) -> (r: Result<u64, FsError>)
        ensures
            path_of(self.entries(), ino) is Some ==> r == Ok::<u64, FsError>(0u64),
            path_of(self.entries(), ino) is None ==> r == Err::<u64, FsError>(FsError::NotFound),
    {
        match self.path_for(ino) {
            Some(_) => Ok(0u64),
            None => Err(FsError::NotFound),
        }
    }

    /// Translate backing metadata to the reply form: the kind follows
    /// `is_dir`, the change time mirrors the modification time, the creation
    /// time is the epoch, the block size is fixed at 512, and no flags are
    /// set. Everything else passes through.
    pub fn meta_to_attr(
        ino: u64,
        is_dir: bool,
        size: u64,
        blocks: u64,
        atime_secs: u64,
        atime_nanos: u32,
        mtime_secs: u64,
        mtime_nanos: u32,
        perm: u16,
        nlink: u32,
        uid: u32,
        gid: u32,
        rdev: u32,
    ) -> (r: FileAttrData)
        ensures
            r == (FileAttrData {
                ino: ino,
                size: size,
                blocks: blocks,
                atime_secs: atime_secs,
                atime_nanos: atime_nanos,
                mtime_secs: mtime_secs,
                mtime_nanos: mtime_nanos,
                ctime_secs: mtime_secs,
                ctime_nanos: mtime_nanos,
                crtime_secs: 0u64,
                crtime_nanos: 0u32,
                is_dir: is_dir,
                perm: perm,
                nlink: nlink,
                uid: uid,
                gid: gid,
                rdev: rdev,
                blksize: 512u32,
                flags: 0u32,
            }),
    {
        FileAttrData {
            ino,
            size,
            blocks,
            atime_secs,
            atime_nanos,
            mtime_secs,
            mtime_nanos,
            ctime_secs: mtime_secs,
            ctime_nanos: mtime_nanos,
            crtime_secs: 0u64,
            crtime_nanos: 0u32,
            is_dir,
            perm,
            nlink,
            uid,
            gid,
            rdev,
            blksize: 512u32,
            flags: 0u32,
        }
    }

    /// Serve a kernel read of `size` bytes at `offset` against the raw bytes
    /// of the backing file. A file too short to be an envelope reads as
    /// blank; a well-formed envelope yields its plaintext clipped to the
    /// requested window; anything else is an I/O error.
    pub fn read(&self, raw: &[u8], offset: usize, size: u32) -> (r: Result<Vec<u8>, FsError>)
        ensures
            raw@.len() < MIN_BLOB_LEN ==> (r matches Ok(v) && v@ == Seq::<u8>::empty()),
            forall|p: Seq<u8>|
                is_envelope_for(self.key_view(), raw@, p) ==> (r matches Ok(v) && v@ == clipped(
                    p,
                    offset as int,
                    size as int,
                )),
            (raw@.len() >= MIN_BLOB_LEN && !(exists|p: Seq<u8>|
                is_envelope_for(self.key_view(), raw@, p))) ==> r == Err::<
                Vec<u8>,
                FsError,
            >(FsError::IoFailed),
    {
        if raw.len() < MIN_BLOB_LEN {
            return Ok(Vec::new());
        }
        match decrypt(&self.key, raw) {
            Ok(pt) => {
                proof {
                    assert(is_envelope_for(self.key_view(), raw@, pt@));
                }
                let n = pt.len();
                if offset >= n {
                    return Ok(Vec::new());
                }
                let end = if (size as usize) <= n - offset {
                    offset + (size as usize)
                } else {
                    n
                };
                let out = copy_range(&pt, offset, end);
                Ok(out)
            },
            Err(_) => Err(FsError::IoFailed),
        }
    }

    /// Serve a kernel write of `data` at `offset`: a whole-file
    /// read-modify-write. The current plaintext (empty when the backing file
    /// is no envelope) is spliced with `data` at `offset` and sealed under a
    /// fresh nonce; on success the returned blob is a well-formed envelope
    /// for exactly that spliced plaintext, 28 bytes longer than it. Only a
    /// failure of the cipher or the RNG is an error.
    pub fn write(&self, raw: &[u8], offset: usize, data: &[u8]) -> (r: Result<Vec<u8>, FsError>)
        requires
            offset + data@.len() <= usize::MAX,
        ensures
            r matches Ok(blob) ==> ({
                let newpt = spliced(plaintext_of(self.key_view(), raw@), offset as int, data@);
                is_envelope_for(self.key_view(), blob@, newpt) && blob@.len() == newpt.len()
                    + MIN_BLOB_LEN
            }),
            r matches Err(e) ==> e == FsError::IoFailed,
    {
        let mut plaintext: Vec<u8>;
        if raw.len() >= MIN_BLOB_LEN {
            plaintext = match decrypt(&self.key, raw) {
                Ok(p) => p,
                Err(_) => Vec::new(),
            };
        } else {
            plaintext = Vec::new();
            proof {
                assert(forall|p: Seq<u8>| !is_envelope_for(self.key_view(), raw@, p));
            }
        }
        proof {
            assert(plaintext@ == plaintext_of(self.key_view(), raw@));
        }
        let ghost cur = plaintext@;
        let end = offset + data.len();
        while plaintext.len() < end
            invariant
                plaintext@.len() >= cur.len(),
                plaintext@.subrange(0, cur.len() as int) == cur,
                forall|k: int| cur.len() <= k < plaintext@.len() ==> plaintext@[k] == 0u8,
                plaintext@.len() <= (if cur.len() >= end { cur.len() as int } else { end as int }),
            decreases end - plaintext.len(),
        {
            let ghost before = plaintext@;
            plaintext.push(0u8);
            proof {
                assert(plaintext@.subrange(0, cur.len() as int) =~= before.subrange(
                    0,
                    cur.len() as int,
                ));
            }
        }
        let ghost padded = plaintext@;
        let mut i: usize = 0;
        while i < data.len()
            invariant
                offset + data@.len() <= usize::MAX,
                plaintext@.len() == padded.len(),
                padded.len() >= offset + data@.len(),
                0 <= i <= data@.len(),
                forall|k: int|
                    0 <= k < plaintext@.len() && !(offset <= k < offset + i) ==> plaintext@[k]
                        == padded[k],
                forall|k: int| offset <= k < offset + i ==> plaintext@[k] == data@[k - offset],
            decreases data@.len() - i,
        {
            let b = *vstd::slice::slice_index_get(data, i);
            plaintext.set(offset + i, b);
            i += 1;
        }
        proof {
            let target = spliced(cur, offset as int, data@);
            assert(plaintext@.len() == target.len());
            assert forall|k: int| 0 <= k < plaintext@.len() implies plaintext@[k] == target[k] by {
                if !(offset <= k < offset + data@.len()) {
                    assert(plaintext@[k] == padded[k]);
                    if k < cur.len() {
                        assert(padded[k] == padded.subrange(0, cur.len() as int)[k]);
                    }
                }
            }
            assert(plaintext@ =~= target);
        }
        match encrypt(&self.key, plaintext.as_slice()) {
            Ok(blob) => Ok(blob),
            Err(_) => Err(FsError::IoFailed),
        }
    }

    /// Enumerate directory `ino`, given its children as the host read them.
    /// The reply synthesizes `.` and `..` at positions 0 and 1, registers
    /// every child path, and starts at position `offset`; the cursor of the
    /// entry at position `j` is `j + 1`. The registry afterwards is exactly
    /// the sequential registration of every child path, and every replied
    /// child inode resolves to its joined path.
    pub fn readdir(&mut self, ino: u64, children: &Vec<DirEntryIn>, offset: usize) -> (r: Result<
        Vec<DirEntryOut>,
        FsError,
    >)
        requires
            old(self).wf(),
            old(self).counter() + children@.len() <= u64::MAX,
            children@.len() + 2 <= i64::MAX,
        ensures
            final(self).wf(),
            final(self).key_view() == old(self).key_view(),
            final(self).source_view() == old(self).source_view(),
            r is Err ==> r == Err::<Vec<DirEntryOut>, FsError>(FsError::NotFound)
                && final(self).entries() == old(self).entries()
                && final(self).counter() == old(self).counter()
                && path_of(old(self).entries(), ino) is None,
            path_of(old(self).entries(), ino) is None ==> r is Err,
            r matches Ok(out) ==> ({
                let dir = path_of(old(self).entries(), ino).unwrap();
                let paths = child_paths(dir, children@);
                &&& path_of(old(self).entries(), ino) is Some
                &&& (final(self).entries(), final(self).counter()) == registered_all(
                    old(self).entries(),
                    old(self).counter(),
                    paths,
                )
                &&& out@.len() == (if offset <= children@.len() + 2 {
                    children@.len() + 2 - offset
                } else {
                    0int
                })
                &&& forall|m: int|
                    0 <= m < out@.len() ==> ({
                        let j = m + offset;
                        &&& (#[trigger] out@[m]).cursor == j + 1
                        &&& (j == 0 ==> out@[m].ino == ino && out@[m].is_dir && out@[m].name@
                            == seq![46u8])
                        &&& (j == 1 ==> out@[m].ino == ino && out@[m].is_dir && out@[m].name@
                            == seq![46u8, 46u8])
                        &&& (j >= 2 ==> out@[m].is_dir == children@[j - 2].is_dir && out@[m].name@
                            == children@[j - 2].name@ && path_of(final(self).entries(), out@[m].ino)
                            == Some(paths[j - 2]))
                    })
            }),
    {
        let dir = match self.path_for(ino) {
            Some(p) => p,
            None => {
                return Err(FsError::NotFound);
            },
        };
        let mut out: Vec<DirEntryOut> = Vec::new();
        if offset == 0 {
            let mut dot: Vec<u8> = Vec::new();
            dot.push(46u8);
            out.push(DirEntryOut { ino, cursor: 1, is_dir: true, name: dot });
        }
        if offset <= 1 {
            let mut dotdot: Vec<u8> = Vec::new();
            dotdot.push(46u8);
            dotdot.push(46u8);
            out.push(DirEntryOut { ino, cursor: 2, is_dir: true, name: dotdot });
        }
        let ghost s0 = self.entries();
        let ghost n0 = self.counter();
        let ghost paths = child_paths(dir@, children@);
        let mut k: usize = 0;
        while k < children.len()
            invariant
                self.wf(),
                self.key_view() == old(self).key_view(),
                self.source_view() == old(self).source_view(),
                s0 == old(self).entries(),
                n0 == old(self).counter(),
                n0 + children@.len() <= u64::MAX,
                children@.len() + 2 <= i64::MAX,
                paths == child_paths(dir@, children@),
                0 <= k <= children@.len(),
                (self.entries(), self.counter()) == registered_all(s0, n0, paths.take(k as int)),
                self.counter() <= n0 + k,
                out@.len() == (if offset <= k + 2 {
                    k + 2 - offset
                } else {
                    0int
                }),
                forall|m: int|
                    0 <= m < out@.len() ==> ({
                        let j = m + offset;
                        &&& (#[trigger] out@[m]).cursor == j + 1
                        &&& (j == 0 ==> out@[m].ino == ino && out@[m].is_dir && out@[m].name@
                            == seq![46u8])
                        &&& (j == 1 ==> out@[m].ino == ino && out@[m].is_dir && out@[m].name@
                            == seq![46u8, 46u8])
                        &&& (j >= 2 ==> out@[m].is_dir == children@[j - 2].is_dir && out@[m].name@
                            == children@[j - 2].name@ && path_of(self.entries(), out@[m].ino)
                            == Some(paths[j - 2]))
                    }),
            decreases children@.len() - k,
        {
            let name = copy_bytes(&children[k].name);
            let path = join_path(&dir, &name);
            let ghost sp = self.entries();
            let ghost np = self.counter();
            let ghost outp = out@;
            let child_ino = self.register(path);
            proof {
                lemma_registered_all_snoc(s0, n0, paths.take(k as int), paths[k as int]);
                assert(paths.take((k + 1) as int) =~= paths.take(k as int).push(paths[k as int]));
                assert((self.entries(), self.counter()) == registered_all(
                    s0,
                    n0,
                    paths.take((k + 1) as int),
                ));
                assert forall|m: int|
                    0 <= m < outp.len() && m + offset >= 2 implies path_of(
                    self.entries(),
                    outp[m].ino,
                ) == Some(paths[m + offset - 2]) by {
                    lemma_registered_preserves(sp, np, paths[k as int], outp[m].ino);
                }
            }
            if offset <= 2 || k >= offset - 2 {
                out.push(
                    DirEntryOut {
                        ino: child_ino,
                        cursor: (k as i64) + 3,
                        is_dir: children[k].is_dir,
                        name,
                    },
                );
            }
            k += 1;
        }
        proof {
            assert(paths.take(children@.len() as int) =~= paths);
        }
        Ok(out)
    }
}

/// Join a backing path with a child name.
pub fn join_path(parent: &Vec<u8>, name: &Vec<u8>) -> (r: Vec<u8>)
    ensures
        r@ == joined(parent@, name@),
{
    let mut out = copy_bytes(parent);
    if !(parent.len() > 0 && parent[parent.len() - 1] == 47u8) {
        out.push(47u8);
    }
    let mut i: usize = 0;
    while i < name.len()
        invariant
            0 <= i <= name@.len(),
            out@ == (if parent@.len() > 0 && parent@[parent@.len() - 1] == 47u8 {
                parent@
            } else {
                parent@ + seq![47u8]
            }) + name@.subrange(0, i as int),
        decreases name@.len() - i,
    {
        out.push(name[i]);
        proof {
            assert(name@.subrange(0, (i + 1) as int) =~= name@.subrange(0, i as int).push(
                name@[i as int],
            ));
        }
        i += 1;
    }
    proof {
        assert(name@.subrange(0, name@.len() as int) =~= name@);
        assert(out@ =~= joined(parent@, name@));
    }
    out
}

/// Copy the range `[start, end)` of a byte vector.
fn copy_range(v: &Vec<u8>, start: usize, end: usize) -> (r: Vec<u8>)
    requires
        start <= end <= v@.len(),
    ensures
        r@ == v@.subrange(start as int, end as int),
{
    let mut out: Vec<u8> = Vec::new();
    let mut i: usize = start;
    while i < end
        invariant
            start <= i <= end <= v@.len(),
            out@ == v@.subrange(start as int, i as int),
        decreases end - i,
    {
        out.push(v[i]);
        proof {
            assert(v@.subrange(start as int, (i + 1) as int) =~= v@.subrange(
                start as int,
                i as int,
            ).push(v@[i as int]));
        }
        i += 1;
    }
    out
}

/// Compare two byte vectors for equality of contents.
fn bytes_eq(a: &Vec<u8>, b: &Vec<u8>) -> (r: bool)
    ensures
        r <==> a@ == b@,
{
    if a.len() != b.len() {
        return false;
    }
    let mut i: usize = 0;
    while i < a.len()
        invariant
            a@.len() == b@.len(),
            0 <= i <= a@.len(),
            forall|k: int| 0 <= k < i ==> a@[k] == b@[k],
        decreases a@.len() - i,
    {
        if a[i] != b[i] {
            return false;
        }
        i += 1;
    }
    proof {
        assert(a@ =~= b@);
    }
    true
}

/// Copy a byte vector.
fn copy_bytes(v: &Vec<u8>) -> (r: Vec<u8>)
    ensures
        r@ == v@,
{
    let mut out: Vec<u8> = Vec::new();
    let mut i: usize = 0;
    while i < v.len()
        invariant
            0 <= i <= v@.len(),
            out@ == v@.subrange(0, i as int),
        decreases v@.len() - i,
    {
        out.push(v[i]);
        proof {
            assert(v@.subrange(0, (i + 1) as int) =~= v@.subrange(0, i as int).push(v@[i as int]));
        }
        i += 1;
    }
    proof {
        assert(v@.subrange(0, v@.len() as int) =~= v@);
    }
    out
}

} // verus!

