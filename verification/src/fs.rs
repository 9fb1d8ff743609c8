//! The file store as the kernel sees it: a flat directory of named inodes,
//! and the table of open files that descriptors refer to.

use vstd::prelude::*;

verus! {

/// Open for reading only.
pub const O_RDONLY: u32 = 0;

/// Open for writing only.
pub const O_WRONLY: u32 = 1;

/// Open for reading and writing.
pub const O_RDWR: u32 = 2;

/// Create the file if it does not exist, and empty it if it does.
pub const O_CREATE: u32 = 0x200;

/// Empty the file.
pub const O_TRUNC: u32 = 0x400;

/// Every bit that an open flag may set.
pub const O_ALL: u32 = 0x603;

/// The mode of a regular file in a [`Stat`].
pub const STAT_MODE_FILE: u32 = 0o100000;

/// How a file is to be opened.
#[derive(Copy, Clone, Debug, PartialEq, Eq, Structural)]
pub struct OpenFlags {
    bits: u32,
}

impl OpenFlags {
    /// The flags as a number.
    pub closed spec fn spec_bits(&self) -> u32 {
        self.bits
    }

    /// The flags that `bits` holds.
    pub closed spec fn from_bits_spec(bits: u32) -> OpenFlags {
        OpenFlags { bits }
    }

    /// The flags that `bits` holds; `None` where a bit is set that is no
    /// flag.
    pub fn from_bits(bits: u32) -> (r: Option<OpenFlags>)
        ensures
            r is Some == (bits & !O_ALL == 0),
            r matches Some(f) ==> f.spec_bits() == bits && f == Self::from_bits_spec(bits),
            Self::from_bits_spec(bits).spec_bits() == bits,
    {
        if bits & !O_ALL == 0 {
            Some(OpenFlags { bits })
        } else {
            None
        }
    }

    /// The flags as a number.
    #[verifier::when_used_as_spec(spec_bits)]
    pub fn bits(&self) -> (r: u32)
        ensures
            r == self.spec_bits(),
    {
        self.bits
    }

    /// Whether the file is opened for reading, and whether for writing:
    /// reading only where neither `WRONLY` nor `RDWR` is set, writing only
    /// where `WRONLY` is set, both otherwise.
    pub open spec fn spec_read_write(&self) -> (bool, bool) {
        if self.spec_bits() & 3 == 0 {
            (true, false)
        } else if self.spec_bits() & O_WRONLY != 0 {
            (false, true)
        } else {
            (true, true)
        }
    }

    /// Whether the file is opened for reading, and whether for writing.
    #[verifier::when_used_as_spec(spec_read_write)]
    pub fn read_write(&self) -> (r: (bool, bool))
        ensures
            r == self.spec_read_write(),
    {
        if self.bits & 3 == 0 {
            (true, false)
        } else if self.bits & O_WRONLY != 0 {
            (false, true)
        } else {
            (true, true)
        }
    }

    /// Whether the flag `CREATE` is set.
    pub fn create(&self) -> (r: bool)
        ensures
            r == (self.spec_bits() & O_CREATE != 0),
    {
        self.bits & O_CREATE != 0
    }

    /// Whether the flag `TRUNC` is set.
    pub fn truncate(&self) -> (r: bool)
        ensures
            r == (self.spec_bits() & O_TRUNC != 0),
    {
        self.bits & O_TRUNC != 0
    }
}

/// What `fstat` reports of a file.
#[derive(Copy, Clone, Debug, PartialEq, Eq, Structural)]
pub struct Stat {
    /// The device that holds the file; always zero.
    pub dev: u64,
    /// The number of the inode.
    pub ino: u64,
    /// The kind of the file.
    pub mode: u32,
    /// The number of names that the file has.
    pub nlink: u32,
}

/// An inode: how many names it has, and its bytes.
pub struct Inode {
    pub nlink: u32,
    pub data: Vec<u8>,
}

/// An entry of the directory: a name and the number of the inode that it
/// names.
pub struct DirEntry {
    pub name: Vec<u8>,
    pub inode: u32,
}

/// Whether the two slices hold the same bytes.
pub fn bytes_eq(a: &[u8], b: &[u8]) -> (r: bool)
    ensures
        r == (a@ == b@),
{
    if a.len() != b.len() {
        return false;
    }
    let mut i: usize = 0;
    while i < a.len()
        invariant
            0 <= i <= a@.len(),
            a@.len() == b@.len(),
            forall|j: int| 0 <= j < i ==> a@[j] == b@[j],
        decreases a@.len() - i,
    {
        if a[i] != b[i] {
            return false;
        }
        i = i + 1;
    }
    assert(a@ =~= b@);
    true
}

/// A copy of the bytes.
pub fn bytes_to_vec(a: &[u8]) -> (r: Vec<u8>)
    ensures
        r@ == a@,
{
    vstd::slice::slice_to_vec(a)
}

/// The file store: the inodes by number and the one directory.
pub struct FileSystem {
    inodes: Vec<Option<Inode>>,
    dirents: Vec<DirEntry>,
}

impl FileSystem {
    /// The names of the directory with the inodes that they name, in the
    /// order of the entries.
    pub closed spec fn entries(&self) -> Seq<(Seq<u8>, u32)> {
        Seq::new(self.dirents@.len(), |i: int| (self.dirents@[i].name@, self.dirents@[i].inode))
    }

    /// The number of inode slots.
    pub closed spec fn slots(&self) -> nat {
        self.inodes@.len()
    }

    /// Whether the inode `id` exists.
    pub closed spec fn live(&self, id: u32) -> bool {
        id < self.inodes@.len() && self.inodes@[id as int] is Some
    }

    /// The number of names of the inode `id`.
    pub closed spec fn nlink(&self, id: u32) -> u32 {
        self.inodes@[id as int]->0.nlink
    }

    /// The bytes of the inode `id`.
    pub closed spec fn data(&self, id: u32) -> Seq<u8> {
        self.inodes@[id as int]->0.data@
    }

    /// The position of the first entry named `name`, or the number of
    /// entries where there is none.
    pub open spec fn position(&self, name: Seq<u8>) -> int
        decreases self.entries().len(),
    {
        Self::position_in(self.entries(), name)
    }

    /// The position of the first entry named `name` in `entries`, or their
    /// number where there is none.
    pub open spec fn position_in(entries: Seq<(Seq<u8>, u32)>, name: Seq<u8>) -> int
        decreases entries.len(),
    {
        if entries.len() == 0 {
            0
        } else if entries[0].0 == name {
            0
        } else {
            1 + Self::position_in(entries.drop_first(), name)
        }
    }

    /// The inode that `name` names: that of the first entry of that name,
    /// provided that the inode exists.
    pub open spec fn lookup(&self, name: Seq<u8>) -> Option<u32> {
        let k = self.position(name);
        if k < self.entries().len() && self.live(self.entries()[k].1) {
            Some(self.entries()[k].1)
        } else {
            None
        }
    }

    /// The position that [`FileSystem::position_in`] gives is that of the
    /// first entry of the name, and lies within the entries or just past
    /// them.
    pub proof fn lemma_position(entries: Seq<(Seq<u8>, u32)>, name: Seq<u8>)
        ensures
            0 <= Self::position_in(entries, name) <= entries.len(),
            Self::position_in(entries, name) < entries.len() ==> entries[Self::position_in(
                entries,
                name,
            )].0 == name,
            forall|j: int|
                0 <= j < Self::position_in(entries, name) ==> (#[trigger] entries[j]).0 != name,
        decreases entries.len(),
    {
        if entries.len() == 0 {
        } else if entries[0].0 == name {
        } else {
            Self::lemma_position(entries.drop_first(), name);
            let k = Self::position_in(entries.drop_first(), name);
            assert forall|j: int| 0 <= j < 1 + k implies (#[trigger] entries[j]).0 != name by {
                if j > 0 {
                    assert(entries.drop_first()[j - 1] == entries[j]);
                }
            }
            if k < entries.drop_first().len() {
                assert(entries.drop_first()[k] == entries[k + 1]);
            }
        }
    }

    /// A position that holds the name, with none before it that does, is
    /// the position that [`FileSystem::position_in`] gives.
    pub proof fn lemma_position_is(entries: Seq<(Seq<u8>, u32)>, name: Seq<u8>, k: int)
        requires
            0 <= k <= entries.len(),
            k < entries.len() ==> entries[k].0 == name,
            forall|j: int| 0 <= j < k ==> (#[trigger] entries[j]).0 != name,
        ensures
            Self::position_in(entries, name) == k,
    {
        Self::lemma_position(entries, name);
        let p = Self::position_in(entries, name);
        if p < k {
            assert(entries[p].0 != name);
        } else if k < p {
            assert(entries[k].0 != name);
        }
    }

    /// The empty file store: the directory has no entry and no inode
    /// exists, so no name is found and a file of any name can be made.
    pub fn new() -> (r: FileSystem)
        ensures
            r.entries() == Seq::<(Seq<u8>, u32)>::empty(),
            r.slots() == 0,
            forall|id: u32| !#[trigger] r.live(id),
            forall|name: Seq<u8>| #[trigger] r.lookup(name) is None,
            forall|name: Seq<u8>| #[trigger] r.can_create(name),
    {
        let r = FileSystem { inodes: Vec::new(), dirents: Vec::new() };
        assert(r.entries() =~= Seq::<(Seq<u8>, u32)>::empty());
        assert forall|name: Seq<u8>| #[trigger] r.can_create(name) by {
            assert(0u32 <= r.slots() && !r.live(0u32));
        }
        r
    }

    /// The position of the first entry named `name`.
    fn find_position(&self, name: &[u8]) -> (r: usize)
        ensures
            r == self.position(name@),
            r <= self.entries().len(),
    {
        let mut i: usize = 0;
        while i < self.dirents.len()
            invariant
                0 <= i <= self.dirents@.len(),
                forall|j: int| 0 <= j < i ==> (#[trigger] self.entries()[j]).0 != name@,
            decreases self.dirents@.len() - i,
        {
            if bytes_eq(self.dirents[i].name.as_slice(), name) {
                proof {
                    Self::lemma_position_is(self.entries(), name@, i as int);
                }
                return i;
            }
            i = i + 1;
        }
        proof {
            Self::lemma_position_is(self.entries(), name@, i as int);
        }
        i
    }

    /// The inode that `name` names.
    pub fn find(&self, name: &[u8]) -> (r: Option<u32>)
        ensures
            r == self.lookup(name@),
    {
        let k = self.find_position(name);
        if k < self.dirents.len() {
            let id = self.dirents[k].inode;
            if (id as usize) < self.inodes.len() && self.inodes[id as usize].is_some() {
                return Some(id);
            }
        }
        None
    }

    /// The number of names of the inode `id`, if it exists.
    pub fn link_count(&self, id: u32) -> (r: Option<u32>)
        ensures
            r == if self.live(id) {
                Some(self.nlink(id))
            } else {
                None::<u32>
            },
    {
        if (id as usize) < self.inodes.len() {
            match &self.inodes[id as usize] {
                Some(inode) => Some(inode.nlink),
                None => None,
            }
        } else {
            None
        }
    }

    /// The number of bytes of the inode `id`, if it exists.
    pub fn size(&self, id: u32) -> (r: Option<usize>)
        ensures
            r == if self.live(id) {
                Some(self.data(id).len() as usize)
            } else {
                None::<usize>
            },
            self.live(id) ==> self.data(id).len() <= usize::MAX,
    {
        if (id as usize) < self.inodes.len() {
            match &self.inodes[id as usize] {
                Some(inode) => Some(inode.data.len()),
                None => None,
            }
        } else {
            None
        }
    }

    /// What `fstat` reports of the inode `id`, if it exists.
    pub fn stat(&self, id: u32) -> (r: Option<Stat>)
        ensures
            r == if self.live(id) {
                Some(Stat { dev: 0, ino: id as u64, mode: STAT_MODE_FILE, nlink: self.nlink(id) })
            } else {
                None::<Stat>
            },
    {
        match self.link_count(id) {
            Some(nlink) => Some(Stat { dev: 0, ino: id as u64, mode: STAT_MODE_FILE, nlink }),
            None => None,
        }
    }

    /// Whether every inode but `id` is as it is in `pre`.
    pub open spec fn others_same(&self, pre: &FileSystem, id: u32) -> bool {
        &&& self.slots() == pre.slots()
        &&& forall|j: u32|
            j != id ==> #[trigger] self.live(j) == pre.live(j) && (self.live(j) ==> self.nlink(j)
                == pre.nlink(j) && self.data(j) == pre.data(j))
    }

    /// Whether a file named `name` can be made: no entry has the name, and
    /// an inode number is left.
    pub open spec fn can_create(&self, name: Seq<u8>) -> bool {
        self.position(name) == self.entries().len() && (exists|j: u32|
            j <= self.slots() && !self.live(j))
    }

    /// Makes a file named `name` with one name and no bytes, in the first
    /// free inode slot. `None` where the name exists already or no inode
    /// number is left.
    pub fn create(&mut self, name: &[u8]) -> (r: Option<u32>)
        ensures
            r is Some == old(self).can_create(name@),
            r is None ==> *final(self) == *old(self),
            r matches Some(id) ==> {
                &&& !old(self).live(id)
                &&& id <= old(self).slots()
                &&& forall|j: u32| j < id ==> old(self).live(j)
                &&& final(self).live(id)
                &&& final(self).nlink(id) == 1
                &&& final(self).data(id) == Seq::<u8>::empty()
                &&& final(self).entries() == old(self).entries().push((name@, id))
                &&& forall|j: u32|
                    j != id ==> #[trigger] final(self).live(j) == old(self).live(j) && (final(self).live(j) ==> final(self).nlink(j) == old(self).nlink(j) && final(self).data(j)
                        == old(self).data(j))
            },
    {
        let k = self.find_position(name);
        if k < self.dirents.len() {
            return None;
        }
        let mut i: usize = 0;
        while i < self.inodes.len() && self.inodes[i].is_some()
            invariant
                0 <= i <= self.inodes@.len(),
                *self == *old(self),
                forall|j: u32| j < i ==> self.live(j),
            decreases self.inodes@.len() - i,
        {
            i = i + 1;
        }
        if i > u32::MAX as usize {
            proof {
                assert forall|j: u32| j <= old(self).slots() implies old(self).live(j) by {}
            }
            return None;
        }
        let id: u32 = i as u32;
        proof {
            assert(!old(self).live(id));
        }
        let inode = Inode { nlink: 1, data: Vec::new() };
        if i < self.inodes.len() {
            self.inodes[i] = Some(inode);
        } else {
            self.inodes.push(Some(inode));
        }
        self.dirents.push(DirEntry { name: bytes_to_vec(name), inode: id });
        proof {
            assert(self.entries() =~= old(self).entries().push((name@, id)));
        }
        Some(id)
    }

    /// Empties the inode `id`. Nothing happens where it does not exist.
    pub fn clear(&mut self, id: u32)
        ensures
            final(self).entries() == old(self).entries(),
            final(self).others_same(old(self), id),
            final(self).live(id) == old(self).live(id),
            old(self).live(id) ==> final(self).nlink(id) == old(self).nlink(id) && final(self).data(id) == Seq::<u8>::empty(),
    {
        if (id as usize) < self.inodes.len() {
            match &mut self.inodes[id as usize] {
                Some(inode) => {
                    inode.data = Vec::new();
                },
                None => {},
            }
        }
        proof {
            assert(self.entries() =~= old(self).entries());
        }
    }

    /// The bytes of the inode `id` from `offset` on, at most `len` of them.
    /// No bytes where the inode does not exist or `offset` lies past its
    /// end.
    pub open spec fn spec_read_at(&self, id: u32, offset: usize, len: usize) -> Seq<u8> {
        if self.live(id) && offset <= self.data(id).len() {
            let end = if self.data(id).len() - offset < len {
                self.data(id).len() as int
            } else {
                offset + len
            };
            self.data(id).subrange(offset as int, end)
        } else {
            Seq::<u8>::empty()
        }
    }

    /// Reads at most `len` bytes of the inode `id` from `offset` on.
    pub fn read_at(&self, id: u32, offset: usize, len: usize) -> (r: Vec<u8>)
        ensures
            r@ == self.spec_read_at(id, offset, len),
            r@.len() <= len,
            offset + r@.len() <= usize::MAX,
    {
        if (id as usize) < self.inodes.len() {
            match &self.inodes[id as usize] {
                Some(inode) => {
                    let size = inode.data.len();
                    if offset <= size {
                        let end: usize = if size - offset < len {
                            size
                        } else {
                            offset + len
                        };
                        let part = vstd::slice::slice_subrange(inode.data.as_slice(), offset, end);
                        return bytes_to_vec(part);
                    }
                },
                None => {},
            }
        }
        Vec::new()
    }

    /// The bytes of a file that held `before` after `src` was written at
    /// `offset`: the file grows with zero bytes up to `offset` where it was
    /// shorter, and keeps what lay past the end of `src`.
    pub open spec fn written(before: Seq<u8>, offset: usize, src: Seq<u8>) -> Seq<u8> {
        let end = offset + src.len();
        let len = if before.len() >= end {
            before.len()
        } else {
            end as nat
        };
        Seq::new(
            len,
            |i: int|
                if offset <= i < end {
                    src[i - offset]
                } else if i < before.len() {
                    before[i]
                } else {
                    0u8
                },
        )
    }

    /// Writes `src` into the inode `id` at `offset`. `false` comes back, and
    /// nothing happens, where the inode does not exist or the end of the
    /// write does not fit in a machine word.
    pub fn write_at(&mut self, id: u32, offset: usize, src: &[u8]) -> (r: bool)
        ensures
            r == (old(self).live(id) && offset + src@.len() <= usize::MAX),
            !r ==> *final(self) == *old(self),
            r ==> {
                &&& final(self).entries() == old(self).entries()
                &&& final(self).others_same(old(self), id)
                &&& final(self).live(id)
                &&& final(self).nlink(id) == old(self).nlink(id)
                &&& final(self).data(id) == Self::written(old(self).data(id), offset, src@)
            },
    {
        if (id as usize) >= self.inodes.len() || self.inodes[id as usize].is_none() {
            return false;
        }
        if src.len() > usize::MAX - offset {
            return false;
        }
        let ghost before = self.data(id);
        match &mut self.inodes[id as usize] {
            Some(inode) => {
                while inode.data.len() < offset
                    invariant
                        inode.nlink == old(self).nlink(id),
                        before.len() <= inode.data@.len(),
                        inode.data@.len() <= offset || inode.data@.len() == before.len(),
                        forall|k: int| 0 <= k < before.len() ==> inode.data@[k] == before[k],
                        forall|k: int| before.len() <= k < inode.data@.len() ==> inode.data@[k] == 0,
                    decreases offset - inode.data@.len(),
                {
                    inode.data.push(0u8);
                }
                let mut i: usize = 0;
                while i < src.len()
                    invariant
                        0 <= i <= src@.len(),
                        offset + src@.len() <= usize::MAX,
                        inode.nlink == old(self).nlink(id),
                        inode.data@.len() >= offset + i || inode.data@.len() >= before.len(),
                        inode.data@.len() >= offset,
                        inode.data@.len() == if before.len() >= offset + i {
                            before.len()
                        } else {
                            (offset + i) as nat
                        },
                        forall|k: int|
                            0 <= k < inode.data@.len() ==> inode.data@[k] == if offset <= k
                                < offset + i {
                                src@[k - offset]
                            } else if k < before.len() {
                                before[k]
                            } else {
                                0u8
                            },
                    decreases src@.len() - i,
                {
                    if offset + i < inode.data.len() {
                        inode.data[offset + i] = src[i];
                    } else {
                        inode.data.push(src[i]);
                    }
                    i = i + 1;
                }
                proof {
                    assert(inode.data@ =~= Self::written(before, offset, src@));
                }
            },
            None => {},
        }
        proof {
            assert(self.entries() =~= old(self).entries());
        }
        true
    }

    /// Gives the inode `id` one more name, `name`, as the last entry of the
    /// directory. `false` comes back, and nothing happens, where the inode
    /// does not exist or has as many names as can be counted.
    pub fn link(&mut self, id: u32, name: &[u8]) -> (r: bool)
        ensures
            r == (old(self).live(id) && old(self).nlink(id) < u32::MAX),
            !r ==> *final(self) == *old(self),
            r ==> {
                &&& final(self).entries() == old(self).entries().push((name@, id))
                &&& final(self).others_same(old(self), id)
                &&& final(self).live(id)
                &&& final(self).nlink(id) == old(self).nlink(id) + 1
                &&& final(self).data(id) == old(self).data(id)
            },
    {
        match self.link_count(id) {
            Some(n) => {
                if n == u32::MAX {
                    return false;
                }
            },
            None => {
                return false;
            },
        }
        match &mut self.inodes[id as usize] {
            Some(inode) => {
                inode.nlink = inode.nlink + 1;
            },
            None => {},
        }
        self.dirents.push(DirEntry { name: bytes_to_vec(name), inode: id });
        proof {
            assert(self.entries() =~= old(self).entries().push((name@, id)));
        }
        true
    }

    /// Takes the name `name` away: the inode that it names loses one name
    /// and, when that was its last, ceases to exist; the first entry of the
    /// name leaves the directory. `false` comes back, and nothing happens,
    /// where the name names no inode.
    pub fn unlink(&mut self, name: &[u8]) -> (r: bool)
        ensures
            r == old(self).lookup(name@) is Some,
            !r ==> *final(self) == *old(self),
            r ==> {
                let id = old(self).lookup(name@)->0;
                &&& final(self).entries() == old(self).entries().remove(old(self).position(name@))
                &&& final(self).others_same(old(self), id)
                &&& final(self).live(id) == (old(self).nlink(id) > 1)
                &&& final(self).live(id) ==> final(self).nlink(id) == old(self).nlink(id) - 1
                    && final(self).data(id) == old(self).data(id)
            },
    {
        let k = self.find_position(name);
        if k >= self.dirents.len() {
            return false;
        }
        let id = self.dirents[k].inode;
        let count = match self.link_count(id) {
            Some(n) => n,
            None => {
                return false;
            },
        };
        if count > 1 {
            match &mut self.inodes[id as usize] {
                Some(inode) => {
                    inode.nlink = inode.nlink - 1;
                },
                None => {},
            }
        } else {
            self.inodes[id as usize] = None;
        }
        let _ = self.dirents.remove(k);
        proof {
            assert(self.entries() =~= old(self).entries().remove(k as int));
        }
        true
    }
}

/// What an open file is.
#[derive(Copy, Clone, Debug, PartialEq, Eq, Structural)]
pub enum FileKind {
    /// The console, for reading.
    Stdin,
    /// The console, for writing.
    Stdout,
    /// A file of the file store.
    Inode,
}

/// An open file: what it is, for a file of the file store its inode and the
/// position of the next read or write, whether it was opened for reading and
/// for writing, and how many descriptors refer to it.
#[derive(Copy, Clone, Debug, PartialEq, Eq, Structural)]
pub struct OpenFile {
    pub kind: FileKind,
    pub inode: u32,
    pub offset: usize,
    pub readable: bool,
    pub writable: bool,
    pub refs: usize,
}

/// The table of open files. A descriptor of a task holds the position of an
/// entry; the descriptors of a parent and of the child that it forked hold
/// the same positions, and so share the entries.
pub struct FileTable {
    slots: Vec<Option<OpenFile>>,
}

impl FileTable {
    /// The entries by position.
    pub closed spec fn view(&self) -> Seq<Option<OpenFile>> {
        self.slots@
    }

    /// The position of the first free entry of `slots`, or their number
    /// where none is free.
    pub open spec fn first_free(slots: Seq<Option<OpenFile>>) -> int
        decreases slots.len(),
    {
        if slots.len() == 0 {
            0
        } else if slots[0] is None {
            0
        } else {
            1 + Self::first_free(slots.drop_first())
        }
    }

    /// A position that is free, or lies just past the entries, with no free
    /// entry before it, is the first free position.
    pub proof fn lemma_first_free_is(slots: Seq<Option<OpenFile>>, k: int)
        requires
            0 <= k <= slots.len(),
            k < slots.len() ==> slots[k] is None,
            forall|j: int| 0 <= j < k ==> (#[trigger] slots[j]) is Some,
        ensures
            Self::first_free(slots) == k,
        decreases slots.len(),
    {
        if slots.len() == 0 {
        } else if k == 0 {
        } else {
            assert(slots[0] is Some);
            assert forall|j: int| 0 <= j < k - 1 implies (#[trigger] slots.drop_first()[j]) is Some by {
                assert(slots.drop_first()[j] == slots[j + 1]);
            }
            Self::lemma_first_free_is(slots.drop_first(), k - 1);
        }
    }

    /// The first free position lies within the entries or just past them,
    /// and is free where it lies within.
    pub proof fn lemma_first_free_bounds(slots: Seq<Option<OpenFile>>)
        ensures
            0 <= Self::first_free(slots) <= slots.len(),
            Self::first_free(slots) < slots.len() ==> slots[Self::first_free(slots)] is None,
        decreases slots.len(),
    {
        if slots.len() > 0 && slots[0] is Some {
            Self::lemma_first_free_bounds(slots.drop_first());
            let k = Self::first_free(slots.drop_first());
            if k < slots.drop_first().len() {
                assert(slots.drop_first()[k] == slots[k + 1]);
            }
        }
    }

    /// The table with no open file.
    pub fn new() -> (r: FileTable)
        ensures
            r@ == Seq::<Option<OpenFile>>::empty(),
    {
        FileTable { slots: Vec::new() }
    }

    /// The entry at the position `handle`, if there is one.
    pub fn get(&self, handle: usize) -> (r: Option<OpenFile>)
        ensures
            r == if handle < self@.len() {
                self@[handle as int]
            } else {
                None::<OpenFile>
            },
    {
        if handle < self.slots.len() {
            self.slots[handle]
        } else {
            None
        }
    }

    /// Enters `file` at the first free position, with one descriptor
    /// referring to it, and hands the position back.
    pub fn open(&mut self, file: OpenFile) -> (r: usize)
        ensures
            r == Self::first_free(old(self)@),
            final(self)@ == if r < old(self)@.len() {
                old(self)@.update(r as int, Some(OpenFile { refs: 1, ..file }))
            } else {
                old(self)@.push(Some(OpenFile { refs: 1, ..file }))
            },
    {
        let mut i: usize = 0;
        while i < self.slots.len() && self.slots[i].is_some()
            invariant
                0 <= i <= self.slots@.len(),
                *self == *old(self),
                forall|j: int| 0 <= j < i ==> (#[trigger] self.slots@[j]) is Some,
            decreases self.slots@.len() - i,
        {
            i = i + 1;
        }
        proof {
            Self::lemma_first_free_is(self.slots@, i as int);
        }
        let entry = OpenFile { refs: 1, ..file };
        if i < self.slots.len() {
            self.slots[i] = Some(entry);
        } else {
            self.slots.push(Some(entry));
        }
        i
    }

    /// Counts one more descriptor for the entry at `handle`. `false` comes
    /// back, and nothing happens, where there is no such entry or its count
    /// is as high as it can be.
    pub fn retain(&mut self, handle: usize) -> (r: bool)
        ensures
            r == (handle < old(self)@.len() && old(self)@[handle as int] is Some && old(
                self,
            )@[handle as int]->0.refs < usize::MAX),
            !r ==> *final(self) == *old(self),
            r ==> final(self)@ == old(self)@.update(
                handle as int,
                Some(
                    OpenFile {
                        refs: (old(self)@[handle as int]->0.refs + 1) as usize,
                        ..old(self)@[handle as int]->0
                    },
                ),
            ),
    {
        match self.get(handle) {
            Some(f) => {
                if f.refs == usize::MAX {
                    return false;
                }
                self.slots[handle] = Some(OpenFile { refs: f.refs + 1, ..f });
                true
            },
            None => false,
        }
    }

    /// Counts one descriptor less for the entry at `handle`; the entry
    /// becomes free when none is left. Nothing happens where there is no
    /// such entry.
    pub fn release(&mut self, handle: usize)
        ensures
            final(self)@ == if handle < old(self)@.len() && old(self)@[handle as int] is Some {
                old(self)@.update(
                    handle as int,
                    if old(self)@[handle as int]->0.refs > 1 {
                        Some(
                            OpenFile {
                                refs: (old(self)@[handle as int]->0.refs - 1) as usize,
                                ..old(self)@[handle as int]->0
                            },
                        )
                    } else {
                        None::<OpenFile>
                    },
                )
            } else {
                old(self)@
            },
    {
        match self.get(handle) {
            Some(f) => {
                if f.refs > 1 {
                    self.slots[handle] = Some(OpenFile { refs: f.refs - 1, ..f });
                } else {
                    self.slots[handle] = None;
                }
            },
            None => {},
        }
    }

    /// Sets the position of the next read or write of the entry at
    /// `handle`. Nothing happens where there is no such entry.
    pub fn set_offset(&mut self, handle: usize, offset: usize)
        ensures
            final(self)@ == if handle < old(self)@.len() && old(self)@[handle as int] is Some {
                old(self)@.update(
                    handle as int,
                    Some(OpenFile { offset, ..old(self)@[handle as int]->0 }),
                )
            } else {
                old(self)@
            },
    {
        match self.get(handle) {
            Some(f) => {
                self.slots[handle] = Some(OpenFile { offset, ..f });
            },
            None => {},
        }
    }
}

} // verus!
