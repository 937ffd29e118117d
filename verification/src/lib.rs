//! An in-memory filesystem veneer over a typed slab allocator.
//!
//! The heart of the crate is [`slab::SlabAllocator`], a fixed-element-size
//! pool that hands out reference-counted slot handles, reuses freed slots in
//! LIFO order and grows by doubling on demand. [`Proc`] is a small
//! process-like facade on top of it: a flat directory of named files whose
//! inode records are drawn from the slab, a file-descriptor table, and read,
//! write and seek operations on open files. Every inode record of a created
//! file lives in a slab slot; the directory and each open descriptor each own
//! one reference-counted handle to that slot, so a file removed from the
//! directory stays readable through descriptors still open on it.

pub mod slab;

use crate::slab::{SlabAllocator, SlabBox};
use vstd::pervasive::unreached;
use vstd::prelude::*;

verus! {

/// Where a seek of `o` bytes from the origin `whence` lands in a file of
/// `len` bytes whose cursor stands at `cur`: the target clamped into
/// `[0, len]`.
pub open spec fn seek_target(len: int, cur: int, o: int, whence: Whence) -> int {
    let base = match whence {
        Whence::SeekSet => 0,
        Whence::SeekCur => cur,
        Whence::SeekEnd => len,
    };
    if base + o < 0 {
        0
    } else if base + o > len {
        len
    } else {
        base + o
    }
}

/// The bytes of `data` after `src` is written over it at position `off`
/// (the cursor never stands past the end, so `off <= data.len()`): bytes
/// before `off` and past the written span keep their values, and the file
/// grows exactly as far as the written span reaches past its old end.
pub open spec fn write_at(data: Seq<u8>, off: int, src: Seq<u8>) -> Seq<u8> {
    Seq::new(
        if off + src.len() > data.len() {
            (off + src.len()) as nat
        } else {
            data.len()
        },
        |k: int|
            if off <= k < off + src.len() {
                src[k - off]
            } else if k < data.len() {
                data[k]
            } else {
                0u8
            },
    )
}

/// Descriptors are handed out from a bounded pool; `-1` and `-2` are open
/// errors, never descriptors.
pub type FileDescriptor = isize;

/// Open the file for reading only.
pub const O_RDONLY: u32 = 1u32 << 0;

/// Open the file for writing only.
pub const O_WRONLY: u32 = 1u32 << 1;

/// Open the file for reading and writing.
pub const O_RDWR: u32 = 1u32 << 2;

/// Do not block on the open.
pub const O_NONBLOCK: u32 = 1u32 << 3;

/// Writes go to the end of the file.
pub const O_APPEND: u32 = 1u32 << 4;

/// Create the file when the path does not resolve.
pub const O_CREAT: u32 = 1u32 << 5;

/// The origin a seek offset is measured from.
#[derive(Clone, Copy, Debug, PartialEq, Eq, Structural)]
pub enum Whence {
    /// From the start of the file.
    SeekSet,
    /// From the descriptor's current offset.
    SeekCur,
    /// From the end of the file.
    SeekEnd,
}

/// The record stored in one slab slot: the contents of one file.
pub struct Inode {
    /// The file's bytes.
    pub data: Vec<u8>,
}

impl Inode {
    /// An empty file.
    pub fn new() -> (ino: Inode)
        ensures
            ino.data@ == Seq::<u8>::empty(),
    {
        Inode { data: Vec::new() }
    }
}

/// One directory entry: a file name bound to the slab slot of its inode.
struct DirEntry {
    name: String,
    file: SlabBox,
}

/// One open descriptor: a handle on the file's inode slot and a cursor.
struct FdEntry {
    fd: FileDescriptor,
    handle: SlabBox,
    offset: usize,
}

/// Number of file descriptors a process can hold open at once.
pub const FD_POOL_SIZE: usize = 254;

/// Number of inode slots the slab arena starts with.
pub const INITIAL_INODE_SLOTS: usize = 8;

/// A process-like facade over the slab allocator: a flat working directory
/// of named data files, a file-descriptor table and a descriptor pool.
pub struct Proc {
    cwd: Vec<DirEntry>,
    fd_table: Vec<FdEntry>,
    fds: Vec<FileDescriptor>,
    arena: SlabAllocator<Inode>,
}

/// Number of entries in `s` whose handle names slot `i`.
spec fn count_dir(s: Seq<DirEntry>, i: int) -> int
    decreases s.len(),
{
    if s.len() == 0 {
        0
    } else {
        count_dir(s.drop_last(), i) + if s.last().file.id() == i {
            1int
        } else {
            0int
        }
    }
}

/// Number of open descriptors in `s` whose handle names slot `i`.
spec fn count_fd(s: Seq<FdEntry>, i: int) -> int
    decreases s.len(),
{
    if s.len() == 0 {
        0
    } else {
        count_fd(s.drop_last(), i) + if s.last().handle.id() == i {
            1int
        } else {
            0int
        }
    }
}

proof fn lemma_count_dir_remove(s: Seq<DirEntry>, j: int, i: int)
    requires
        0 <= j < s.len(),
    ensures
        count_dir(s.remove(j), i) == count_dir(s, i) - if s[j].file.id() == i {
            1int
        } else {
            0int
        },
    decreases s.len(),
{
    if j == s.len() - 1 {
        assert(s.remove(j) =~= s.drop_last());
    } else {
        assert(s.remove(j).drop_last() =~= s.drop_last().remove(j));
        assert(s.remove(j).last() == s.last());
        lemma_count_dir_remove(s.drop_last(), j, i);
    }
}

proof fn lemma_count_fd_remove(s: Seq<FdEntry>, j: int, i: int)
    requires
        0 <= j < s.len(),
    ensures
        count_fd(s.remove(j), i) == count_fd(s, i) - if s[j].handle.id() == i {
            1int
        } else {
            0int
        },
    decreases s.len(),
{
    if j == s.len() - 1 {
        assert(s.remove(j) =~= s.drop_last());
    } else {
        assert(s.remove(j).drop_last() =~= s.drop_last().remove(j));
        assert(s.remove(j).last() == s.last());
        lemma_count_fd_remove(s.drop_last(), j, i);
    }
}

proof fn lemma_count_dir_nonneg(s: Seq<DirEntry>, i: int)
    ensures
        count_dir(s, i) >= 0,
    decreases s.len(),
{
    if s.len() > 0 {
        lemma_count_dir_nonneg(s.drop_last(), i);
    }
}

proof fn lemma_count_fd_nonneg(s: Seq<FdEntry>, i: int)
    ensures
        count_fd(s, i) >= 0,
    decreases s.len(),
{
    if s.len() > 0 {
        lemma_count_fd_nonneg(s.drop_last(), i);
    }
}

proof fn lemma_count_dir_pos(s: Seq<DirEntry>, j: int, i: int)
    requires
        0 <= j < s.len(),
        s[j].file.id() == i,
    ensures
        count_dir(s, i) >= 1,
    decreases s.len(),
{
    lemma_count_dir_nonneg(s.drop_last(), i);
    if j < s.len() - 1 {
        lemma_count_dir_pos(s.drop_last(), j, i);
    }
}

proof fn lemma_count_fd_pos(s: Seq<FdEntry>, j: int, i: int)
    requires
        0 <= j < s.len(),
        s[j].handle.id() == i,
    ensures
        count_fd(s, i) >= 1,
    decreases s.len(),
{
    lemma_count_fd_nonneg(s.drop_last(), i);
    if j < s.len() - 1 {
        lemma_count_fd_pos(s.drop_last(), j, i);
    }
}

proof fn lemma_count_dir_absent(s: Seq<DirEntry>, i: int)
    requires
        forall|j: int| 0 <= j < s.len() ==> s[j].file.id() != i,
    ensures
        count_dir(s, i) == 0,
    decreases s.len(),
{
    if s.len() > 0 {
        lemma_count_dir_absent(s.drop_last(), i);
    }
}

proof fn lemma_count_fd_absent(s: Seq<FdEntry>, i: int)
    requires
        forall|j: int| 0 <= j < s.len() ==> s[j].handle.id() != i,
    ensures
        count_fd(s, i) == 0,
    decreases s.len(),
{
    if s.len() > 0 {
        lemma_count_fd_absent(s.drop_last(), i);
    }
}

proof fn lemma_count_dir_le1(s: Seq<DirEntry>, i: int)
    requires
        forall|a: int, b: int| 0 <= a < b < s.len() ==> s[a].file.id() != s[b].file.id(),
    ensures
        count_dir(s, i) <= 1,
    decreases s.len(),
{
    if s.len() > 0 {
        if s.last().file.id() == i {
            lemma_count_dir_absent(s.drop_last(), i);
        } else {
            lemma_count_dir_le1(s.drop_last(), i);
        }
    }
}

proof fn lemma_count_fd_le_len(s: Seq<FdEntry>, i: int)
    ensures
        count_fd(s, i) <= s.len(),
    decreases s.len(),
{
    if s.len() > 0 {
        lemma_count_fd_le_len(s.drop_last(), i);
    }
}

proof fn lemma_count_fd_update(s: Seq<FdEntry>, j: int, e: FdEntry, i: int)
    requires
        0 <= j < s.len(),
        e.handle.id() == s[j].handle.id(),
    ensures
        count_fd(s.update(j, e), i) == count_fd(s, i),
    decreases s.len(),
{
    if j == s.len() - 1 {
        assert(s.update(j, e).drop_last() =~= s.drop_last());
        assert(s.update(j, e).last() == e);
    } else {
        assert(s.update(j, e).drop_last() =~= s.drop_last().update(j, e));
        assert(s.update(j, e).last() == s.last());
        lemma_count_fd_update(s.drop_last(), j, e, i);
    }
}

/// The position of the entry for `fd` (meaningful while one exists).
spec fn fd_index_of(s: Seq<FdEntry>, fd: FileDescriptor) -> int {
    choose|c: int| 0 <= c < s.len() && s[c].fd == fd
}

/// The position of the entry for `name` (meaningful while one exists).
spec fn name_index_of(s: Seq<DirEntry>, name: Seq<char>) -> int {
    choose|c: int| 0 <= c < s.len() && s[c].name@ == name
}

proof fn lemma_fd_index(s: Seq<FdEntry>, fd: FileDescriptor, j: int)
    requires
        forall|a: int, b: int| 0 <= a < b < s.len() ==> s[a].fd != s[b].fd,
        0 <= j < s.len(),
        s[j].fd == fd,
    ensures
        fd_index_of(s, fd) == j,
{
    assert(0 <= j < s.len() && s[j].fd == fd);
    let c = fd_index_of(s, fd);
    assert(0 <= c < s.len() && s[c].fd == fd);
    if c < j {
        assert(s[c].fd != s[j].fd);
    } else if j < c {
        assert(s[j].fd != s[c].fd);
    }
}

proof fn lemma_name_index(s: Seq<DirEntry>, name: Seq<char>, j: int)
    requires
        forall|a: int, b: int| 0 <= a < b < s.len() ==> s[a].name@ != s[b].name@,
        0 <= j < s.len(),
        s[j].name@ == name,
    ensures
        name_index_of(s, name) == j,
{
    assert(0 <= j < s.len() && s[j].name@ == name);
    let c = name_index_of(s, name);
    assert(0 <= c < s.len() && s[c].name@ == name);
    if c < j {
        assert(s[c].name@ != s[j].name@);
    } else if j < c {
        assert(s[j].name@ != s[c].name@);
    }
}

impl Proc {
    /// A file of this name exists in the working directory.
    pub closed spec fn dir_has(&self, name: Seq<char>) -> bool {
        exists|j: int| 0 <= j < self.cwd@.len() && self.cwd@[j].name@ == name
    }

    /// The slab slot holding the named file's inode.
    pub closed spec fn dir_slot(&self, name: Seq<char>) -> int {
        self.cwd@[name_index_of(self.cwd@, name)].file.id()
    }

    /// This descriptor is open.
    pub closed spec fn fd_has(&self, fd: FileDescriptor) -> bool {
        exists|j: int| 0 <= j < self.fd_table@.len() && self.fd_table@[j].fd == fd
    }

    /// The slab slot the open descriptor reads and writes.
    pub closed spec fn fd_slot(&self, fd: FileDescriptor) -> int {
        self.fd_table@[fd_index_of(self.fd_table@, fd)].handle.id()
    }

    /// The open descriptor's cursor.
    pub closed spec fn fd_offset(&self, fd: FileDescriptor) -> int {
        self.fd_table@[fd_index_of(self.fd_table@, fd)].offset as int
    }

    /// The bytes of the file stored in slab slot `i`.
    pub closed spec fn file_data(&self, i: int) -> Seq<u8> {
        match self.arena.slot_content(i) {
            Some(ino) => ino.data@,
            None => Seq::empty(),
        }
    }

    /// Number of slab slots the inode arena has carved so far.
    pub closed spec fn slot_count(&self) -> int {
        self.arena.capacity()
    }

    /// Number of descriptors still available.
    pub closed spec fn free_fd_count(&self) -> int {
        self.fds@.len() as int
    }

    /// The descriptor the next successful open hands out.
    pub closed spec fn next_fd(&self) -> FileDescriptor {
        self.fds@.last()
    }

    /// The facade's invariant: the arena is coherent, every stored handle is
    /// valid and written, names and descriptors are unique, pooled
    /// descriptors are not open, cursors stay within their files, and no
    /// slot has fewer owners than the directory and table together hold.
    pub closed spec fn wf(&self) -> bool {
        &&& self.arena.wf()
        &&& self.arena.capacity() >= 1
        &&& self.fds@.len() + self.fd_table@.len() == FD_POOL_SIZE
        &&& (forall|j: int, k: int|
            0 <= j < k < self.cwd@.len() ==> self.cwd@[j].name@ != self.cwd@[k].name@)
        &&& (forall|j: int, k: int|
            0 <= j < k < self.cwd@.len() ==> self.cwd@[j].file.id() != self.cwd@[k].file.id())
        &&& (forall|j: int|
            0 <= j < self.cwd@.len() ==> self.arena.valid_handle(#[trigger] self.cwd@[j].file)
                && self.arena.slot_written(self.cwd@[j].file.id()))
        &&& (forall|j: int, k: int|
            0 <= j < k < self.fd_table@.len() ==> self.fd_table@[j].fd != self.fd_table@[k].fd)
        &&& (forall|j: int|
            0 <= j < self.fd_table@.len() ==> self.arena.valid_handle(
                #[trigger] self.fd_table@[j].handle,
            ) && self.arena.slot_written(self.fd_table@[j].handle.id())
                && self.fd_table@[j].offset <= self.file_data(
                self.fd_table@[j].handle.id(),
            ).len())
        &&& (forall|j: int, k: int|
            0 <= j < k < self.fds@.len() ==> self.fds@[j] != self.fds@[k])
        &&& (forall|j: int, k: int|
            0 <= j < self.fds@.len() && 0 <= k < self.fd_table@.len() ==> self.fds@[j]
                != self.fd_table@[k].fd)
        &&& (forall|i: int|
            0 <= i < self.arena.capacity() ==> #[trigger] self.arena.slot_refs(i) == count_dir(
                self.cwd@,
                i,
            ) + count_fd(self.fd_table@, i))
    }

    /// A fresh process: empty working directory, no open descriptor, the
    /// full descriptor pool, and an eagerly carved inode arena.
    pub fn new() -> (p: Proc)
        ensures
            p.wf(),
            forall|q: Seq<char>| !p.dir_has(q),
            forall|f: FileDescriptor| !p.fd_has(f),
            p.free_fd_count() == FD_POOL_SIZE,
            p.next_fd() == 3isize,
            p.slot_count() == INITIAL_INODE_SLOTS,
    {
        let mut fds: Vec<FileDescriptor> = Vec::new();
        let mut k: usize = 0;
        while k < FD_POOL_SIZE
            invariant
                k <= FD_POOL_SIZE,
                fds@.len() == k,
                forall|j: int| 0 <= j < k ==> fds@[j] == 256 - j,
            decreases FD_POOL_SIZE - k,
        {
            fds.push(256 - (k as isize));
            k = k + 1;
        }
        let p = Proc {
            cwd: Vec::new(),
            fd_table: Vec::new(),
            fds,
            arena: SlabAllocator::new(INITIAL_INODE_SLOTS),
        };
        proof {
            assert forall|i: int|
                0 <= i < p.arena.capacity() implies #[trigger] p.arena.slot_refs(i) == count_dir(
                p.cwd@,
                i,
            ) + count_fd(p.fd_table@, i) by {
                assert(count_dir(p.cwd@, i) == 0);
                assert(count_fd(p.fd_table@, i) == 0);
            }
        }
        p
    }

    /// Index of the entry for `fd` in the descriptor table.
    fn find_fd(&self, fd: FileDescriptor) -> (r: Option<usize>)
        ensures
            match r {
                Some(j) => j < self.fd_table@.len() && self.fd_table@[j as int].fd == fd
                    && self.fd_has(fd),
                None => !self.fd_has(fd),
            },
    {
        let n = self.fd_table.len();
        let mut j: usize = 0;
        while j < n
            invariant
                n == self.fd_table@.len(),
                j <= n,
                forall|k: int| 0 <= k < j ==> self.fd_table@[k].fd != fd,
            decreases n - j,
        {
            if self.fd_table[j].fd == fd {
                return Some(j);
            }
            j = j + 1;
        }
        None
    }

    /// Index of the entry for `name` in the working directory.
    fn find_dir(&self, name: &String) -> (r: Option<usize>)
        ensures
            match r {
                Some(j) => j < self.cwd@.len() && self.cwd@[j as int].name@ == name@
                    && self.dir_has(name@),
                None => !self.dir_has(name@),
            },
    {
        let n = self.cwd.len();
        let mut j: usize = 0;
        while j < n
            invariant
                n == self.cwd@.len(),
                j <= n,
                forall|k: int| 0 <= k < j ==> self.cwd@[k].name@ != name@,
            decreases n - j,
        {
            if self.cwd[j].name == *name {
                return Some(j);
            }
            j = j + 1;
        }
        None
    }

    /// The working directory reads the same in `post` as in `pre`.
    pub open spec fn dir_unchanged(pre: Self, post: Self) -> bool {
        forall|q: Seq<char>|
            #[trigger] post.dir_has(q) == pre.dir_has(q) && (pre.dir_has(q) ==> post.dir_slot(q)
                == pre.dir_slot(q))
    }

    /// Every file byte reads the same in `post` as in `pre`.
    pub open spec fn data_unchanged(pre: Self, post: Self) -> bool {
        &&& post.slot_count() == pre.slot_count()
        &&& forall|i: int|
            0 <= i < pre.slot_count() ==> #[trigger] post.file_data(i) == pre.file_data(i)
    }

    /// Every open descriptor other than `fd` reads the same in `post` as in
    /// `pre`.
    pub open spec fn fds_unchanged_except(pre: Self, post: Self, fd: FileDescriptor) -> bool {
        forall|f: FileDescriptor|
            f != fd ==> #[trigger] post.fd_has(f) == pre.fd_has(f) && (pre.fd_has(f)
                ==> post.fd_slot(f) == pre.fd_slot(f) && post.fd_offset(f) == pre.fd_offset(f))
    }

    /// Every open descriptor reads the same in `post` as in `pre`.
    pub open spec fn fds_unchanged(pre: Self, post: Self) -> bool {
        forall|f: FileDescriptor|
            #[trigger] post.fd_has(f) == pre.fd_has(f) && (pre.fd_has(f) ==> post.fd_slot(f)
                == pre.fd_slot(f) && post.fd_offset(f) == pre.fd_offset(f))
    }

    /// The descriptor pool reads the same in `post` as in `pre`.
    pub open spec fn pool_unchanged(pre: Self, post: Self) -> bool {
        &&& post.free_fd_count() == pre.free_fd_count()
        &&& (pre.free_fd_count() > 0 ==> post.next_fd() == pre.next_fd())
    }

    /// Copies bytes of the open file into the front of `dst`, starting at
    /// the descriptor's cursor; the cursor does not move. Returns how many
    /// bytes were copied: the length of `dst`, or however many bytes the
    /// file holds past the cursor, whichever is smaller. Bytes of `dst`
    /// beyond that count keep their old values.
    pub fn read(&self, fd: FileDescriptor, dst: &mut Vec<u8>) -> (n: usize)
        requires
            self.wf(),
            self.fd_has(fd),
        ensures
            final(dst)@.len() == old(dst)@.len(),
            n as int == vstd::math::min(
                old(dst)@.len() as int,
                self.file_data(self.fd_slot(fd)).len() - self.fd_offset(fd),
            ),
            forall|k: int|
                0 <= k < n ==> final(dst)@[k] == self.file_data(self.fd_slot(fd))[self.fd_offset(
                    fd,
                ) + k],
            forall|k: int| n <= k < old(dst)@.len() ==> final(dst)@[k] == old(dst)@[k],
    {
        let j = match self.find_fd(fd) {
            Some(j) => j,
            None => unreached(),
        };
        proof {
            lemma_fd_index(self.fd_table@, fd, j as int);
        }
        let off = self.fd_table[j].offset;
        let ino = self.fd_table[j].handle.borrow(&self.arena);
        let data_len = ino.data.len();
        let mut n: usize = dst.len();
        if data_len - off < n {
            n = data_len - off;
        }
        let mut k: usize = 0;
        while k < n
            invariant
                k <= n,
                n <= dst@.len(),
                dst@.len() == old(dst)@.len(),
                data_len == ino.data@.len(),
                off + n <= data_len,
                ino.data@ == self.file_data(self.fd_slot(fd)),
                off as int == self.fd_offset(fd),
                forall|t: int| 0 <= t < k ==> dst@[t] == ino.data@[off + t],
                forall|t: int| k <= t < dst@.len() ==> dst@[t] == old(dst)@[t],
            decreases n - k,
        {
            let b = ino.data[off + k];
            let slot = &mut dst[k];
            *slot = b;
            k = k + 1;
        }
        n
    }

    /// Moves the open descriptor's cursor to `o` bytes from the origin
    /// `whence` names, clamped into the file's bounds, and returns the new
    /// cursor. Nothing else changes.
    pub fn seek(&mut self, fd: FileDescriptor, o: isize, whence: Whence) -> (r: usize)
        requires
            old(self).wf(),
            old(self).fd_has(fd),
        ensures
            final(self).wf(),
            r as int == seek_target(
                old(self).file_data(old(self).fd_slot(fd)).len() as int,
                old(self).fd_offset(fd),
                o as int,
                whence,
            ),
            final(self).fd_has(fd),
            final(self).fd_offset(fd) == r as int,
            final(self).fd_slot(fd) == old(self).fd_slot(fd),
            Self::fds_unchanged_except(*old(self), *final(self), fd),
            Self::dir_unchanged(*old(self), *final(self)),
            Self::data_unchanged(*old(self), *final(self)),
            Self::pool_unchanged(*old(self), *final(self)),
    {
        let j = match self.find_fd(fd) {
            Some(j) => j,
            None => unreached(),
        };
        proof {
            lemma_fd_index(self.fd_table@, fd, j as int);
        }
        let off = self.fd_table[j].offset;
        let len = self.fd_table[j].handle.borrow(&self.arena).data.len();
        let base: usize = match whence {
            Whence::SeekSet => 0,
            Whence::SeekCur => off,
            Whence::SeekEnd => len,
        };
        let t: usize = if o >= 0 {
            let ou = o as usize;
            if ou <= len - base {
                base + ou
            } else {
                len
            }
        } else {
            let mag: usize = ((-(o + 1)) as usize) + 1;
            if mag > base {
                0
            } else {
                base - mag
            }
        };
        let ghost pre = *self;
        let entry = &mut self.fd_table[j];
        entry.offset = t;
        proof {
            let e = self.fd_table@[j as int];
            assert(self.fd_table@ == pre.fd_table@.update(j as int, e));
            assert forall|i: int| 0 <= i < self.arena.capacity() implies #[trigger] self.arena
                .slot_refs(i) == count_dir(self.cwd@, i) + count_fd(self.fd_table@, i) by {
                lemma_count_fd_update(pre.fd_table@, j as int, e, i);
            }
            assert forall|f: FileDescriptor|
                f != fd implies #[trigger] self.fd_has(f) == pre.fd_has(f) && (pre.fd_has(f)
                ==> self.fd_slot(f) == pre.fd_slot(f) && self.fd_offset(f) == pre.fd_offset(
                f,
            )) by {
                if pre.fd_has(f) {
                    let w = choose|w: int|
                        0 <= w < pre.fd_table@.len() && pre.fd_table@[w].fd == f;
                    assert(self.fd_table@[w].fd == f);
                    lemma_fd_index(pre.fd_table@, f, w);
                    lemma_fd_index(self.fd_table@, f, w);
                }
                if self.fd_has(f) {
                    let w = choose|w: int|
                        0 <= w < self.fd_table@.len() && self.fd_table@[w].fd == f;
                    assert(pre.fd_table@[w].fd == f);
                }
            }
            lemma_fd_index(self.fd_table@, fd, j as int);
        }
        t
    }

    /// The descriptor the pool hands out, which the pool's invariant keeps
    /// distinct from every open one.
    fn extract_fd(fd_opt: &Option<FileDescriptor>) -> (fd: FileDescriptor)
        requires
            fd_opt is Some,
        ensures
            *fd_opt == Some(fd),
    {
        match fd_opt {
            Some(fd) => *fd,
            None => unreached(),
        }
    }

    /// Opens the named file and returns a fresh descriptor with its cursor
    /// at the start. A name that does not resolve is created first when
    /// `flags` carries `O_CREAT` — its inode record drawn from the slab
    /// arena, its content empty — and is refused with `-2` otherwise, with
    /// nothing changed. A created file's slot aliases no other file and no
    /// open descriptor.
    pub fn open(&mut self, path: &str, flags: u32) -> (r: FileDescriptor)
        requires
            old(self).wf(),
            old(self).dir_has(path@) || (flags & O_CREAT) != 0 ==> old(self).free_fd_count() > 0,
            !old(self).dir_has(path@) && (flags & O_CREAT) != 0 ==> 2 * old(self).slot_count()
                <= usize::MAX,
        ensures
            final(self).wf(),
            !old(self).dir_has(path@) && (flags & O_CREAT) == 0 ==> r == -2 && *final(self)
                == *old(self),
            old(self).dir_has(path@) || (flags & O_CREAT) != 0 ==> {
                &&& r == old(self).next_fd()
                &&& !old(self).fd_has(r)
                &&& final(self).fd_has(r)
                &&& final(self).fd_offset(r) == 0
                &&& final(self).free_fd_count() == old(self).free_fd_count() - 1
                &&& Self::fds_unchanged_except(*old(self), *final(self), r)
            },
            old(self).dir_has(path@) ==> {
                &&& final(self).fd_slot(r) == old(self).dir_slot(path@)
                &&& Self::dir_unchanged(*old(self), *final(self))
                &&& Self::data_unchanged(*old(self), *final(self))
            },
            !old(self).dir_has(path@) && (flags & O_CREAT) != 0 ==> {
                &&& final(self).dir_has(path@)
                &&& final(self).dir_slot(path@) == final(self).fd_slot(r)
                &&& final(self).file_data(final(self).fd_slot(r)) == Seq::<u8>::empty()
                &&& forall|q: Seq<char>|
                    q != path@ ==> #[trigger] final(self).dir_has(q) == old(self).dir_has(q) && (
                    old(self).dir_has(q) ==> final(self).dir_slot(q) == old(self).dir_slot(q))
                &&& forall|q: Seq<char>|
                    q != path@ && old(self).dir_has(q) ==> #[trigger] final(self).dir_slot(q)
                        != final(self).fd_slot(r)
                &&& forall|f: FileDescriptor|
                    f != r && old(self).fd_has(f)
                        ==> #[trigger] final(self).fd_slot(f) != final(self).fd_slot(r)
                &&& old(self).slot_count() <= final(self).slot_count() <= 2 * old(self).slot_count()
                &&& forall|i: int|
                    0 <= i < old(self).slot_count() && i != final(self).fd_slot(r)
                        ==> #[trigger] final(self).file_data(i) == old(self).file_data(i)
            },
    {
        let ghost pre = *self;
        let owned: String = path.to_owned();
        let lookup = self.find_dir(&owned);
        match lookup {
            Some(j) => {
                let ghost i0 = pre.cwd@[j as int].file.id();
                proof {
                    lemma_name_index(pre.cwd@, path@, j as int);
                    lemma_count_dir_le1(pre.cwd@, i0);
                    lemma_count_fd_le_len(pre.fd_table@, i0);
                    lemma_count_dir_pos(pre.cwd@, j as int, i0);
                    lemma_count_fd_nonneg(pre.fd_table@, i0);
                }
                let handle = self.cwd[j].file.duplicate(&mut self.arena);
                let fd = Self::extract_fd(&self.fds.pop());
                self.fd_table.push(FdEntry { fd, handle, offset: 0 });
                proof {
                    let e = self.fd_table@.last();
                    let last = self.fd_table@.len() - 1;
                    assert(self.fd_table@.drop_last() =~= pre.fd_table@);
                    assert(self.fds@ == pre.fds@.drop_last());
                    assert(fd == pre.fds@[pre.fds@.len() - 1]);
                    assert(!pre.fd_has(fd)) by {
                        if pre.fd_has(fd) {
                            let w = choose|w: int|
                                0 <= w < pre.fd_table@.len() && pre.fd_table@[w].fd == fd;
                            assert(pre.fds@[pre.fds@.len() - 1] != pre.fd_table@[w].fd);
                        }
                    }
                    assert forall|a: int, b: int|
                        0 <= a < b < self.fd_table@.len() implies self.fd_table@[a].fd
                        != self.fd_table@[b].fd by {
                        if b == last {
                            assert(self.fd_table@[a] == pre.fd_table@[a]);
                            if pre.fd_table@[a].fd == fd {
                                assert(pre.fd_has(fd));
                            }
                        }
                    }
                    assert forall|i: int| 0 <= i < self.arena.capacity() implies #[trigger] self
                        .arena.slot_refs(i) == count_dir(self.cwd@, i) + count_fd(
                        self.fd_table@,
                        i,
                    ) by {
                        assert(count_fd(self.fd_table@, i) == count_fd(pre.fd_table@, i)
                            + if e.handle.id() == i {
                            1int
                        } else {
                            0int
                        });
                    }
                    assert forall|a: int, b: int|
                        0 <= a < self.fds@.len() && 0 <= b < self.fd_table@.len() implies self
                        .fds@[a] != self.fd_table@[b].fd by {
                        assert(self.fds@[a] == pre.fds@[a]);
                        if b == last {
                            assert(pre.fds@[a] != pre.fds@[pre.fds@.len() - 1]);
                        } else {
                            assert(self.fd_table@[b] == pre.fd_table@[b]);
                        }
                    }
                    assert(self.fd_has(fd)) by {
                        assert(self.fd_table@[last].fd == fd);
                    }
                    lemma_fd_index(self.fd_table@, fd, last);
                    assert(self.fd_slot(fd) == i0);
                    assert(pre.dir_slot(path@) == i0);
                    assert forall|f: FileDescriptor|
                        f != fd implies #[trigger] self.fd_has(f) == pre.fd_has(f) && (pre.fd_has(
                        f,
                    ) ==> self.fd_slot(f) == pre.fd_slot(f) && self.fd_offset(f)
                        == pre.fd_offset(f)) by {
                        if pre.fd_has(f) {
                            let w = choose|w: int|
                                0 <= w < pre.fd_table@.len() && pre.fd_table@[w].fd == f;
                            assert(self.fd_table@[w].fd == f);
                            lemma_fd_index(pre.fd_table@, f, w);
                            lemma_fd_index(self.fd_table@, f, w);
                        }
                        if self.fd_has(f) {
                            let w = choose|w: int|
                                0 <= w < self.fd_table@.len() && self.fd_table@[w].fd == f;
                            assert(w != last);
                            assert(pre.fd_table@[w].fd == f);
                        }
                    }
                    assert(Self::dir_unchanged(pre, *self));
                    assert(Self::data_unchanged(pre, *self));
                }
                fd
            },
            None => {
                if flags & O_CREAT != 0 {
                    let rcinode = self.arena.allocate(Inode::new());
                    let ghost s = rcinode.id();
                    let ghost a1 = self.arena;
                    proof {
                        if pre.arena.free_list().len() == 0 {
                            assert(s == pre.arena.capacity());
                        } else {
                            assert(pre.arena.slot_refs(s) == 0);
                        }
                        assert forall|k: int| 0 <= k < pre.cwd@.len() implies #[trigger] pre.cwd@[
                            k
                        ].file.id() != s by {
                            assert(pre.arena.valid_handle(pre.cwd@[k].file));
                        }
                        assert forall|k: int|
                            0 <= k < pre.fd_table@.len() implies #[trigger] pre.fd_table@[
                            k
                        ].handle.id() != s by {
                            assert(pre.arena.valid_handle(pre.fd_table@[k].handle));
                        }
                        lemma_count_dir_absent(pre.cwd@, s);
                        lemma_count_fd_absent(pre.fd_table@, s);
                        assert(a1.slot_refs(s) == 1);
                    }
                    let handle2 = rcinode.duplicate(&mut self.arena);
                    self.cwd.push(DirEntry { name: owned, file: rcinode });
                    let fd = Self::extract_fd(&self.fds.pop());
                    self.fd_table.push(FdEntry { fd, handle: handle2, offset: 0 });
                    proof {
                        let e = self.fd_table@.last();
                        let last = self.fd_table@.len() - 1;
                        let dlast = self.cwd@.len() - 1;
                        assert(self.fd_table@.drop_last() =~= pre.fd_table@);
                        assert(self.cwd@.drop_last() =~= pre.cwd@);
                        assert(self.fds@ == pre.fds@.drop_last());
                        assert(fd == pre.fds@[pre.fds@.len() - 1]);
                        assert(self.cwd@[dlast].name@ == path@);
                        assert(self.cwd@[dlast].file.id() == s);
                        assert(e.handle.id() == s);
                        assert(self.arena.slot_refs(s) == 2);
                        assert(self.arena.capacity() == a1.capacity());
                        assert(self.arena.slot_content(s) == a1.slot_content(s));
                        assert(self.file_data(s) == Seq::<u8>::empty());
                        // frame facts about untouched slots
                        assert forall|i: int|
                            0 <= i < pre.arena.capacity() && i != s implies self.arena.slot_refs(
                            i,
                        ) == pre.arena.slot_refs(i) && self.arena.slot_gen(i) == pre.arena
                            .slot_gen(i) && #[trigger] self.arena.slot_content(i) == pre.arena
                            .slot_content(i) by {
                            assert(a1.slot_refs(i) == pre.arena.slot_refs(i));
                        }
                        assert forall|i: int|
                            pre.arena.capacity() <= i < self.arena.capacity() && i != s implies
                        self.arena.slot_refs(i) == 0 && #[trigger] self.arena.slot_content(i)
                            is None by {
                            assert(a1.slot_refs(i) == 0);
                        }
                        // the pooled descriptor is fresh
                        assert(!pre.fd_has(fd)) by {
                            if pre.fd_has(fd) {
                                let w = choose|w: int|
                                    0 <= w < pre.fd_table@.len() && pre.fd_table@[w].fd == fd;
                                assert(pre.fds@[pre.fds@.len() - 1] != pre.fd_table@[w].fd);
                            }
                        }
                        assert forall|a: int, b: int|
                            0 <= a < b < self.fd_table@.len() implies self.fd_table@[a].fd
                            != self.fd_table@[b].fd by {
                            if b == last {
                                assert(self.fd_table@[a] == pre.fd_table@[a]);
                                if pre.fd_table@[a].fd == fd {
                                    assert(pre.fd_has(fd));
                                }
                            }
                        }
                        assert forall|a: int, b: int|
                            0 <= a < b < self.cwd@.len() implies self.cwd@[a].name@
                            != self.cwd@[b].name@ by {
                            if b == dlast {
                                assert(self.cwd@[a] == pre.cwd@[a]);
                                if pre.cwd@[a].name@ == path@ {
                                    assert(pre.dir_has(path@));
                                }
                            }
                        }
                        assert forall|a: int, b: int|
                            0 <= a < b < self.cwd@.len() implies self.cwd@[a].file.id()
                            != self.cwd@[b].file.id() by {
                            if b == dlast {
                                assert(self.cwd@[a] == pre.cwd@[a]);
                                assert(pre.cwd@[a].file.id() != s);
                            }
                        }
                        assert forall|a: int, b: int|
                            0 <= a < self.fds@.len() && 0 <= b < self.fd_table@.len() implies self
                            .fds@[a] != self.fd_table@[b].fd by {
                            assert(self.fds@[a] == pre.fds@[a]);
                            if b == last {
                                assert(pre.fds@[a] != pre.fds@[pre.fds@.len() - 1]);
                            } else {
                                assert(self.fd_table@[b] == pre.fd_table@[b]);
                            }
                        }
                        // ownership counting
                        assert forall|i: int|
                            0 <= i < self.arena.capacity() implies #[trigger] self.arena
                            .slot_refs(i) == count_dir(self.cwd@, i) + count_fd(
                            self.fd_table@,
                            i,
                        ) by {
                            assert(count_dir(self.cwd@, i) == count_dir(pre.cwd@, i) + if s == i {
                                1int
                            } else {
                                0int
                            });
                            assert(count_fd(self.fd_table@, i) == count_fd(pre.fd_table@, i) + if s
                                == i {
                                1int
                            } else {
                                0int
                            });
                            if i != s && i >= pre.arena.capacity() {
                                assert forall|k: int|
                                    0 <= k < pre.cwd@.len() implies #[trigger] pre.cwd@[k].file
                                    .id() != i by {
                                    assert(pre.arena.valid_handle(pre.cwd@[k].file));
                                }
                                assert forall|k: int|
                                    0 <= k < pre.fd_table@.len() implies #[trigger] pre
                                    .fd_table@[k].handle.id() != i by {
                                    assert(pre.arena.valid_handle(pre.fd_table@[k].handle));
                                }
                                lemma_count_dir_absent(pre.cwd@, i);
                                lemma_count_fd_absent(pre.fd_table@, i);
                            }
                        }
                        // handles stored before stay valid, the new ones are
                        assert forall|k: int| 0 <= k < self.cwd@.len() implies self.arena
                            .valid_handle(#[trigger] self.cwd@[k].file) && self.arena
                            .slot_written(self.cwd@[k].file.id()) by {
                            if k < dlast {
                                assert(self.cwd@[k] == pre.cwd@[k]);
                                assert(pre.arena.valid_handle(pre.cwd@[k].file));
                            }
                        }
                        assert forall|k: int| 0 <= k < self.fd_table@.len() implies self.arena
                            .valid_handle(#[trigger] self.fd_table@[k].handle) && self.arena
                            .slot_written(self.fd_table@[k].handle.id()) && self.fd_table@[k]
                            .offset <= self.file_data(self.fd_table@[k].handle.id()).len() by {
                            if k < last {
                                assert(self.fd_table@[k] == pre.fd_table@[k]);
                                assert(pre.arena.valid_handle(pre.fd_table@[k].handle));
                            }
                        }
                        // what open now reports
                        assert(self.fd_has(fd)) by {
                            assert(self.fd_table@[last].fd == fd);
                        }
                        lemma_fd_index(self.fd_table@, fd, last);
                        assert(self.fd_slot(fd) == s);
                        assert(self.dir_has(path@)) by {
                            assert(self.cwd@[dlast].name@ == path@);
                        }
                        lemma_name_index(self.cwd@, path@, dlast);
                        assert(self.dir_slot(path@) == s);
                        assert forall|f: FileDescriptor|
                            f != fd implies #[trigger] self.fd_has(f) == pre.fd_has(f) && (pre
                            .fd_has(f) ==> self.fd_slot(f) == pre.fd_slot(f) && self.fd_offset(f)
                            == pre.fd_offset(f)) by {
                            if pre.fd_has(f) {
                                let w = choose|w: int|
                                    0 <= w < pre.fd_table@.len() && pre.fd_table@[w].fd == f;
                                assert(self.fd_table@[w].fd == f);
                                lemma_fd_index(pre.fd_table@, f, w);
                                lemma_fd_index(self.fd_table@, f, w);
                            }
                            if self.fd_has(f) {
                                let w = choose|w: int|
                                    0 <= w < self.fd_table@.len() && self.fd_table@[w].fd == f;
                                assert(w != last);
                                assert(pre.fd_table@[w].fd == f);
                            }
                        }
                        assert forall|q: Seq<char>|
                            q != path@ implies #[trigger] self.dir_has(q) == pre.dir_has(q) && (
                        pre.dir_has(q) ==> self.dir_slot(q) == pre.dir_slot(q) && self.dir_slot(q)
                            != s) by {
                            if pre.dir_has(q) {
                                let w = choose|w: int|
                                    0 <= w < pre.cwd@.len() && pre.cwd@[w].name@ == q;
                                assert(self.cwd@[w].name@ == q);
                                lemma_name_index(pre.cwd@, q, w);
                                lemma_name_index(self.cwd@, q, w);
                                assert(pre.cwd@[w].file.id() != s);
                            }
                            if self.dir_has(q) {
                                let w = choose|w: int|
                                    0 <= w < self.cwd@.len() && self.cwd@[w].name@ == q;
                                assert(w != dlast);
                                assert(pre.cwd@[w].name@ == q);
                            }
                        }
                        assert forall|f: FileDescriptor|
                            f != fd && pre.fd_has(f) implies #[trigger] self.fd_slot(f) != s by {
                            let w = choose|w: int|
                                0 <= w < pre.fd_table@.len() && pre.fd_table@[w].fd == f;
                            lemma_fd_index(pre.fd_table@, f, w);
                            lemma_fd_index(self.fd_table@, f, w);
                            assert(pre.fd_table@[w].handle.id() != s);
                        }
                    }
                    fd
                } else {
                    -2
                }
            },
        }
    }

    /// Stores `src` into the open file at the descriptor's cursor,
    /// overwriting what is there and extending the file as needed, then
    /// advances the cursor past the written bytes. Returns how many bytes
    /// were written: all of them.
    pub fn write(&mut self, fd: FileDescriptor, src: &[u8]) -> (n: usize)
        requires
            old(self).wf(),
            old(self).fd_has(fd),
            old(self).fd_offset(fd) + src@.len() <= usize::MAX,
        ensures
            final(self).wf(),
            n == src@.len(),
            final(self).fd_has(fd),
            final(self).fd_slot(fd) == old(self).fd_slot(fd),
            final(self).file_data(old(self).fd_slot(fd)) == write_at(
                old(self).file_data(old(self).fd_slot(fd)),
                old(self).fd_offset(fd),
                src@,
            ),
            final(self).fd_offset(fd) == old(self).fd_offset(fd) + src@.len(),
            Self::fds_unchanged_except(*old(self), *final(self), fd),
            Self::dir_unchanged(*old(self), *final(self)),
            final(self).slot_count() == old(self).slot_count(),
            forall|i: int|
                0 <= i < old(self).slot_count() && i != old(self).fd_slot(fd)
                    ==> #[trigger] final(self).file_data(i) == old(self).file_data(i),
            Self::pool_unchanged(*old(self), *final(self)),
    {
        let j = match self.find_fd(fd) {
            Some(j) => j,
            None => unreached(),
        };
        proof {
            lemma_fd_index(self.fd_table@, fd, j as int);
        }
        let off = self.fd_table[j].offset;
        let ghost pre = *self;
        let ghost i0 = pre.fd_slot(fd);
        let ghost pre_data = pre.file_data(i0);
        let ino = self.fd_table[j].handle.borrow_mut(&mut self.arena);
        let data_len0 = ino.data.len();
        proof {
            assert(pre_data.len() == data_len0);
            assert(ino.data@ =~= write_at(pre_data, off as int, src@.take(0)));
        }
        let src_len = src.len();
        let mut k: usize = 0;
        while k < src_len
            invariant
                k <= src_len,
                src_len == src@.len(),
                off <= pre_data.len(),
                off + src_len <= usize::MAX,
                pre_data.len() <= usize::MAX,
                ino.data@ == write_at(pre_data, off as int, src@.take(k as int)),
            decreases src_len - k,
        {
            let b = src[k];
            let data_len = ino.data.len();
            if off + k < data_len {
                let slot = &mut ino.data[off + k];
                *slot = b;
            } else {
                proof {
                    assert(ino.data@.len() == off + k);
                }
                ino.data.push(b);
            }
            k = k + 1;
            proof {
                assert(ino.data@ =~= write_at(pre_data, off as int, src@.take(k as int)));
            }
        }
        proof {
            assert(src@.take(src_len as int) =~= src@);
        }
        let entry = &mut self.fd_table[j];
        entry.offset = off + src_len;
        proof {
            let e = self.fd_table@[j as int];
            assert(self.fd_table@ == pre.fd_table@.update(j as int, e));
            assert(self.file_data(i0) == write_at(pre_data, off as int, src@));
            assert(self.file_data(i0).len() == if off + src@.len() > pre_data.len() {
                off + src@.len()
            } else {
                pre_data.len() as int
            });
            assert forall|i: int| 0 <= i < self.arena.capacity() implies #[trigger] self.arena
                .slot_refs(i) == count_dir(self.cwd@, i) + count_fd(self.fd_table@, i) by {
                lemma_count_fd_update(pre.fd_table@, j as int, e, i);
            }
            assert forall|k2: int| 0 <= k2 < self.fd_table@.len() implies self.arena.valid_handle(
                #[trigger] self.fd_table@[k2].handle,
            ) && self.arena.slot_written(self.fd_table@[k2].handle.id())
                && self.fd_table@[k2].offset <= self.file_data(
                self.fd_table@[k2].handle.id(),
            ).len() by {
                if k2 != j as int {
                    assert(self.fd_table@[k2] == pre.fd_table@[k2]);
                    if self.fd_table@[k2].handle.id() == i0 {
                        assert(pre.fd_table@[k2].offset <= pre_data.len());
                    }
                }
            }
            assert forall|f: FileDescriptor|
                f != fd implies #[trigger] self.fd_has(f) == pre.fd_has(f) && (pre.fd_has(f)
                ==> self.fd_slot(f) == pre.fd_slot(f) && self.fd_offset(f) == pre.fd_offset(
                f,
            )) by {
                if pre.fd_has(f) {
                    let w = choose|w: int|
                        0 <= w < pre.fd_table@.len() && pre.fd_table@[w].fd == f;
                    assert(self.fd_table@[w].fd == f);
                    lemma_fd_index(pre.fd_table@, f, w);
                    lemma_fd_index(self.fd_table@, f, w);
                }
                if self.fd_has(f) {
                    let w = choose|w: int|
                        0 <= w < self.fd_table@.len() && self.fd_table@[w].fd == f;
                    assert(pre.fd_table@[w].fd == f);
                }
            }
            lemma_fd_index(self.fd_table@, fd, j as int);
        }
        src_len
    }

    /// Closes the descriptor: its table entry is dropped, its ownership of
    /// the inode slot is released back to the slab, and the descriptor
    /// returns to the pool, where it is the next one handed out. A
    /// descriptor that is not open is ignored.
    pub fn close(&mut self, fd: FileDescriptor)
        requires
            old(self).wf(),
        ensures
            final(self).wf(),
            !old(self).fd_has(fd) ==> *final(self) == *old(self),
            old(self).fd_has(fd) ==> {
                &&& !final(self).fd_has(fd)
                &&& Self::fds_unchanged_except(*old(self), *final(self), fd)
                &&& Self::dir_unchanged(*old(self), *final(self))
                &&& Self::data_unchanged(*old(self), *final(self))
                &&& final(self).free_fd_count() == old(self).free_fd_count() + 1
                &&& final(self).next_fd() == fd
            },
    {
        let j = match self.find_fd(fd) {
            Some(j) => j,
            None => { return ; },
        };
        let ghost pre = *self;
        let entry = self.fd_table.remove(j);
        let ghost i0 = entry.handle.id();
        let _ = self.arena.free(entry.handle);
        self.fds.push(fd);
        proof {
            assert(pre.arena.valid_handle(entry.handle));
            assert(self.fd_table@ == pre.fd_table@.remove(j as int));
            lemma_fd_index(pre.fd_table@, fd, j as int);
            assert(pre.fd_slot(fd) == i0);
            // the slot loses one owner and one table reference together
            assert forall|i: int| 0 <= i < self.arena.capacity() implies #[trigger] self.arena
                .slot_refs(i) == count_dir(self.cwd@, i) + count_fd(self.fd_table@, i) by {
                lemma_count_fd_remove(pre.fd_table@, j as int, i);
            }
            // every remaining handle still has an owner on its slot
            assert forall|k: int| 0 <= k < self.cwd@.len() implies self.arena.valid_handle(
                #[trigger] self.cwd@[k].file,
            ) && self.arena.slot_written(self.cwd@[k].file.id()) by {
                if self.cwd@[k].file.id() == i0 {
                    lemma_count_dir_pos(self.cwd@, k, i0);
                    lemma_count_fd_pos(pre.fd_table@, j as int, i0);
                    lemma_count_fd_remove(pre.fd_table@, j as int, i0);
                    lemma_count_fd_nonneg(self.fd_table@, i0);
                }
            }
            assert forall|k: int| 0 <= k < self.fd_table@.len() implies self.arena.valid_handle(
                #[trigger] self.fd_table@[k].handle,
            ) && self.arena.slot_written(self.fd_table@[k].handle.id()) && self.fd_table@[k].offset
                <= self.file_data(self.fd_table@[k].handle.id()).len() by {
                let kk = if k < j as int {
                    k
                } else {
                    k + 1
                };
                assert(self.fd_table@[k] == pre.fd_table@[kk]);
                if self.fd_table@[k].handle.id() == i0 {
                    lemma_count_fd_pos(self.fd_table@, k, i0);
                    lemma_count_fd_remove(pre.fd_table@, j as int, i0);
                    lemma_count_dir_nonneg(self.cwd@, i0);
                }
            }
            // the closed descriptor was not pooled, so the pool stays unique
            assert forall|a: int, b: int| 0 <= a < b < self.fds@.len() implies self.fds@[a]
                != self.fds@[b] by {
                if b == self.fds@.len() - 1 {
                    assert(self.fds@[a] == pre.fds@[a]);
                    assert(pre.fds@[a] != pre.fd_table@[j as int].fd);
                }
            }
            assert forall|a: int, b: int|
                0 <= a < self.fds@.len() && 0 <= b < self.fd_table@.len() implies self.fds@[a]
                != self.fd_table@[b].fd by {
                let bb = if b < j as int {
                    b
                } else {
                    b + 1
                };
                assert(self.fd_table@[b] == pre.fd_table@[bb]);
                if a < self.fds@.len() - 1 {
                    assert(self.fds@[a] == pre.fds@[a]);
                }
            }
            // reading the table around the removed entry
            assert(!self.fd_has(fd));
            assert forall|f: FileDescriptor|
                f != fd implies #[trigger] self.fd_has(f) == pre.fd_has(f) && (pre.fd_has(f)
                ==> self.fd_slot(f) == pre.fd_slot(f) && self.fd_offset(f) == pre.fd_offset(
                f,
            )) by {
                if pre.fd_has(f) {
                    let w = choose|w: int|
                        0 <= w < pre.fd_table@.len() && pre.fd_table@[w].fd == f;
                    let w2 = if w < j as int {
                        w
                    } else {
                        w - 1
                    };
                    assert(self.fd_table@[w2] == pre.fd_table@[w]);
                    lemma_fd_index(pre.fd_table@, f, w);
                    lemma_fd_index(self.fd_table@, f, w2);
                }
                if self.fd_has(f) {
                    let w = choose|w: int|
                        0 <= w < self.fd_table@.len() && self.fd_table@[w].fd == f;
                    let ww = if w < j as int {
                        w
                    } else {
                        w + 1
                    };
                    assert(pre.fd_table@[ww].fd == f);
                }
            }
            assert(!self.fd_has(fd));
            assert(Self::fds_unchanged_except(pre, *self, fd));
            assert(Self::dir_unchanged(pre, *self));
            assert(Self::data_unchanged(pre, *self));
            assert(self.free_fd_count() == pre.free_fd_count() + 1);
            assert(self.next_fd() == fd);
        }
    }

    /// Removes the named file from the working directory and releases the
    /// directory's ownership of its inode slot. Descriptors still open on
    /// the file keep reading and writing it. An unknown name is ignored.
    pub fn unlink(&mut self, path: &str)
        requires
            old(self).wf(),
        ensures
            final(self).wf(),
            !old(self).dir_has(path@) ==> *final(self) == *old(self),
            old(self).dir_has(path@) ==> {
                &&& !final(self).dir_has(path@)
                &&& forall|q: Seq<char>|
                    q != path@ ==> #[trigger] final(self).dir_has(q) == old(self).dir_has(q) && (
                    old(self).dir_has(q) ==> final(self).dir_slot(q) == old(self).dir_slot(q))
                &&& Self::fds_unchanged(*old(self), *final(self))
                &&& Self::data_unchanged(*old(self), *final(self))
                &&& Self::pool_unchanged(*old(self), *final(self))
            },
    {
        let owned: String = path.to_owned();
        let j = match self.find_dir(&owned) {
            Some(j) => j,
            None => { return ; },
        };
        let ghost pre = *self;
        let entry = self.cwd.remove(j);
        let ghost i0 = entry.file.id();
        let _ = self.arena.free(entry.file);
        proof {
            assert(pre.arena.valid_handle(entry.file));
            assert(self.cwd@ == pre.cwd@.remove(j as int));
            lemma_name_index(pre.cwd@, path@, j as int);
            assert forall|i: int| 0 <= i < self.arena.capacity() implies #[trigger] self.arena
                .slot_refs(i) == count_dir(self.cwd@, i) + count_fd(self.fd_table@, i) by {
                lemma_count_dir_remove(pre.cwd@, j as int, i);
            }
            assert forall|k: int| 0 <= k < self.cwd@.len() implies self.arena.valid_handle(
                #[trigger] self.cwd@[k].file,
            ) && self.arena.slot_written(self.cwd@[k].file.id()) by {
                let kk = if k < j as int {
                    k
                } else {
                    k + 1
                };
                assert(self.cwd@[k] == pre.cwd@[kk]);
                if self.cwd@[k].file.id() == i0 {
                    lemma_count_dir_pos(self.cwd@, k, i0);
                    lemma_count_dir_remove(pre.cwd@, j as int, i0);
                    lemma_count_fd_nonneg(self.fd_table@, i0);
                }
            }
            assert forall|k: int| 0 <= k < self.fd_table@.len() implies self.arena.valid_handle(
                #[trigger] self.fd_table@[k].handle,
            ) && self.arena.slot_written(self.fd_table@[k].handle.id()) && self.fd_table@[k].offset
                <= self.file_data(self.fd_table@[k].handle.id()).len() by {
                if self.fd_table@[k].handle.id() == i0 {
                    lemma_count_fd_pos(self.fd_table@, k, i0);
                    lemma_count_dir_pos(pre.cwd@, j as int, i0);
                    lemma_count_dir_remove(pre.cwd@, j as int, i0);
                    lemma_count_dir_nonneg(self.cwd@, i0);
                }
            }
            assert(!self.dir_has(path@));
            assert forall|q: Seq<char>|
                q != path@ implies #[trigger] self.dir_has(q) == pre.dir_has(q) && (pre.dir_has(q)
                ==> self.dir_slot(q) == pre.dir_slot(q)) by {
                if pre.dir_has(q) {
                    let w = choose|w: int| 0 <= w < pre.cwd@.len() && pre.cwd@[w].name@ == q;
                    let w2 = if w < j as int {
                        w
                    } else {
                        w - 1
                    };
                    assert(self.cwd@[w2] == pre.cwd@[w]);
                    lemma_name_index(pre.cwd@, q, w);
                    lemma_name_index(self.cwd@, q, w2);
                }
                if self.dir_has(q) {
                    let w = choose|w: int| 0 <= w < self.cwd@.len() && self.cwd@[w].name@ == q;
                    let ww = if w < j as int {
                        w
                    } else {
                        w + 1
                    };
                    assert(pre.cwd@[ww].name@ == q);
                }
            }
        }
    }
}

} // verus!
