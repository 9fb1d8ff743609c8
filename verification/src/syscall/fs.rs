//! The system calls that act on files.

use vstd::prelude::*;
use vstd::bytes::{spec_u32_to_le_bytes, spec_u64_to_le_bytes, u32_to_le_bytes, u64_to_le_bytes};
use crate::fs::{FileKind, FileSystem, FileTable, OpenFile, OpenFlags, Stat};
use crate::mm::user_buffer::{
    check_user_range,
    maps_range,
    read_user,
    str_at,
    translated_str,
    user_bytes,
    write_user,
    written_user,
};
use crate::syscall::process::as_result;
use crate::task::descriptors::{
    entry_refs,
    lemma_opened_refs,
    lemma_refs_in_push,
    lemma_refs_in_update,
    lemma_released_refs,
    refs_in,
};
use crate::task::lifecycle::released;
use crate::task::processor::Kernel;
use crate::task::task::TaskControlBlock;

verus! {

/// A descriptor of the running task that is in use refers to an open file:
/// no other task can take the file away by closing its own descriptors, by
/// exiting or by being collected, because the entry counts the descriptors
/// of every task.
pub proof fn lemma_descriptor_in_use(kernel: &Kernel, fd: usize)
    requires
        kernel.wf(),
        kernel.current is Some,
        fd < kernel.cur().fd_table@.len(),
        kernel.cur().fd_table@[fd as int] is Some,
    ensures
        file_of(kernel, fd) matches Some((handle, file)) && handle == kernel.cur().fd_table@[fd as int]->0
            && file.refs >= 1,
{
    kernel.lemma_descriptor_refers(kernel.current->0, fd as int);
}

/// The open file that the descriptor `fd` of the running task refers to,
/// with its position in the table of open files.
pub open spec fn file_of(kernel: &Kernel, fd: usize) -> Option<(usize, OpenFile)> {
    if fd < kernel.cur().fd_table@.len() && kernel.cur().fd_table@[fd as int] is Some {
        let handle = kernel.cur().fd_table@[fd as int]->0;
        if handle < kernel.files@.len() && kernel.files@[handle as int] is Some {
            Some((handle, kernel.files@[handle as int]->0))
        } else {
            None
        }
    } else {
        None
    }
}

/// The open file that the descriptor `fd` of the running task refers to.
pub open spec fn open_file_of(kernel: &Kernel, fd: usize) -> OpenFile {
    let (handle, file) = file_of(kernel, fd)->0;
    file
}

/// Looks the open file of a descriptor up.
fn lookup_fd(kernel: &Kernel, fd: usize) -> (r: Option<(usize, OpenFile)>)
    requires
        kernel.wf(),
        kernel.current is Some,
    ensures
        r == file_of(kernel, fd),
{
    let c = kernel.current.unwrap();
    let handle = match &kernel.tasks[c] {
        Some(task) => {
            if fd >= task.fd_table.len() {
                return None;
            }
            match task.fd_table[fd] {
                Some(h) => h,
                None => {
                    return None;
                },
            }
        },
        None => {
            return None;
        },
    };
    match kernel.files.get(handle) {
        Some(file) => Some((handle, file)),
        None => None,
    }
}

/// The bytes of what `fstat` reports as user space reads it: the device
/// and the inode in 8 bytes each, the mode and the number of names in 4
/// bytes each, every number low byte first, and 56 bytes of padding.
pub open spec fn stat_bytes(stat: Stat) -> Seq<u8> {
    spec_u64_to_le_bytes(stat.dev) + spec_u64_to_le_bytes(stat.ino) + spec_u32_to_le_bytes(
        stat.mode,
    ) + spec_u32_to_le_bytes(stat.nlink) + Seq::new(56, |i: int| 0u8)
}

/// The bytes of what `fstat` reports.
pub fn stat_to_bytes(stat: &Stat) -> (r: Vec<u8>)
    ensures
        r@ == stat_bytes(*stat),
        r@.len() == 80,
{
    proof {
        vstd::bytes::lemma_auto_spec_u64_to_from_le_bytes();
        vstd::bytes::lemma_auto_spec_u32_to_from_le_bytes();
    }
    let mut out = u64_to_le_bytes(stat.dev);
    let mut ino = u64_to_le_bytes(stat.ino);
    out.append(&mut ino);
    let mut mode = u32_to_le_bytes(stat.mode);
    out.append(&mut mode);
    let mut nlink = u32_to_le_bytes(stat.nlink);
    out.append(&mut nlink);
    let ghost head = out@;
    let mut i: usize = 0;
    while i < 56
        invariant
            0 <= i <= 56,
            out@ == head + Seq::new(i as nat, |k: int| 0u8),
        decreases 56 - i,
    {
        out.push(0u8);
        proof {
            assert(out@ =~= head + Seq::new((i + 1) as nat, |k: int| 0u8));
        }
        i = i + 1;
    }
    out
}

/// Whether `len` bytes at `buf` can be written to the file of the
/// descriptor `fd`: the descriptor refers to an open file that was opened
/// for writing, the bytes lie in memory that frames back, and the file is
/// the console or a file of the file store that exists and can grow so
/// far.
pub open spec fn write_admissible(kernel: &Kernel, fd: usize, buf: usize, len: usize) -> bool {
    match file_of(kernel, fd) {
        Some((handle, file)) => file.writable && maps_range(
            &kernel.cur().memory_set,
            buf as u64,
            len,
        ) && (match file.kind {
            FileKind::Stdout => true,
            FileKind::Inode => kernel.fs.live(file.inode) && file.offset + len <= usize::MAX,
            FileKind::Stdin => false,
        }),
        None => false,
    }
}

/// Whether up to `len` bytes can be read from the file of the descriptor
/// `fd` into `buf`: the descriptor refers to an open file that was opened
/// for reading, `buf` lies in memory that frames back, and the file is a
/// file of the file store or, where `len` is 1, the console.
pub open spec fn read_admissible(kernel: &Kernel, fd: usize, buf: usize, len: usize) -> bool {
    match file_of(kernel, fd) {
        Some((handle, file)) => file.readable && maps_range(
            &kernel.cur().memory_set,
            buf as u64,
            len,
        ) && (match file.kind {
            FileKind::Stdin => len == 1,
            FileKind::Inode => true,
            FileKind::Stdout => false,
        }),
        None => false,
    }
}

/// Whether the file that the string at `path` names can be opened as
/// `flags` say: there is such a string, `flags` holds no bit that is no
/// flag, and the file exists or is to be made and can be.
pub open spec fn open_admissible(kernel: &Kernel, path: usize, flags: u32) -> bool {
    match str_at(&kernel.cur().memory_set, path as u64) {
        Some(name) => flags & !crate::fs::O_ALL == 0 && (kernel.fs.lookup(name) is Some || (flags
            & crate::fs::O_CREATE != 0 && kernel.fs.can_create(name))),
        None => false,
    }
}

/// Writes `len` bytes from `buf` in the memory of the running task to the
/// file of the descriptor `fd`: to the console, or into a file of the file
/// store at the position of the open file, which moves on. The result is
/// the number of bytes written, or -1, with nothing changed, where the
/// descriptor refers to no open file, the file was not opened for writing,
/// the bytes do not lie in memory that frames back, or the file cannot grow
/// so far.
pub fn sys_write(kernel: &mut Kernel, fd: usize, buf: usize, len: usize) -> (r: isize)
    requires
        old(kernel).wf(),
        old(kernel).frames_wf(),
        old(kernel).current is Some,
    ensures
        final(kernel).wf(),
        final(kernel).frames_wf(),
        final(kernel).frames == old(kernel).frames,
        final(kernel).pids == old(kernel).pids,
        final(kernel).tasks == old(kernel).tasks,
        final(kernel).manager == old(kernel).manager,
        final(kernel).current == old(kernel).current,
        final(kernel).console_in == old(kernel).console_in,
        r == -1 ==> *final(kernel) == *old(kernel),
        r != -1 <==> write_admissible(old(kernel), fd, buf, len),
        r != -1 ==> {
            let (handle, file) = file_of(old(kernel), fd)->0;
            let bytes = user_bytes(&old(kernel).cur().memory_set, buf as u64, len);
            &&& file.writable
            &&& r == if len <= isize::MAX {
                len as int
            } else {
                isize::MAX as int
            }
            &&& match file.kind {
                FileKind::Stdout => {
                    &&& final(kernel).console_out@ == old(kernel).console_out@ + bytes
                    &&& final(kernel).fs == old(kernel).fs
                    &&& final(kernel).files == old(kernel).files
                },
                FileKind::Inode => {
                    &&& final(kernel).console_out == old(kernel).console_out
                    &&& old(kernel).fs.live(file.inode)
                    &&& final(kernel).fs.entries() == old(kernel).fs.entries()
                    &&& final(kernel).fs.others_same(&old(kernel).fs, file.inode)
                    &&& final(kernel).fs.data(file.inode) == FileSystem::written(
                        old(kernel).fs.data(file.inode),
                        file.offset,
                        bytes,
                    )
                    &&& final(kernel).files@ == old(kernel).files@.update(
                        handle as int,
                        Some(OpenFile { offset: (file.offset + len) as usize, ..file }),
                    )
                },
                FileKind::Stdin => false,
            }
        },
{
    let (handle, file) = match lookup_fd(kernel, fd) {
        Some(found) => found,
        None => {
            return -1;
        },
    };
    if !file.writable {
        return -1;
    }
    let c = kernel.current.unwrap();
    let bytes = match &kernel.tasks[c] {
        Some(task) => match read_user(&task.memory_set, buf as u64, len) {
            Some(bytes) => bytes,
            None => {
                return -1;
            },
        },
        None => {
            return -1;
        },
    };
    match file.kind {
        FileKind::Stdout => {
            let ghost before = kernel.console_out@;
            let mut i: usize = 0;
            while i < bytes.len()
                invariant
                    0 <= i <= bytes@.len(),
                    kernel.console_out@ == before + bytes@.take(i as int),
                    *kernel == (Kernel { console_out: kernel.console_out, ..*old(kernel) }),
                decreases bytes@.len() - i,
            {
                kernel.console_out.push(bytes[i]);
                proof {
                    assert(bytes@.take(i + 1) =~= bytes@.take(i as int).push(bytes@[i as int]));
                    assert(kernel.console_out@ =~= before + bytes@.take(i + 1));
                }
                i = i + 1;
            }
            proof {
                assert(bytes@.take(bytes@.len() as int) =~= bytes@);
                Kernel::lemma_wf_frames(old(kernel), kernel);
                Kernel::lemma_frames_same(old(kernel), kernel);
            }
            as_result(len)
        },
        FileKind::Inode => {
            if len > usize::MAX - file.offset {
                return -1;
            }
            if !kernel.fs.write_at(file.inode, file.offset, bytes.as_slice()) {
                return -1;
            }
            kernel.files.set_offset(handle, file.offset + len);
            proof {
                Kernel::lemma_wf_frames(old(kernel), kernel);
                Kernel::lemma_frames_same(old(kernel), kernel);
            }
            as_result(len)
        },
        FileKind::Stdin => -1,
    }
}

/// Reads up to `len` bytes from the file of the descriptor `fd` into `buf`
/// in the memory of the running task. From the console one byte is read,
/// the oldest that was typed, or none when nothing was typed; `len` must be
/// 1 there. From a file of the file store the bytes at the position of the
/// open file are read, as many as there are up to `len`, and the position
/// moves on. The result is the number of bytes read, or -1, with nothing
/// changed, where the descriptor refers to no open file, the file was not
/// opened for reading, or `buf` does not lie in memory that frames back.
pub fn sys_read(kernel: &mut Kernel, fd: usize, buf: usize, len: usize) -> (r: isize)
    requires
        old(kernel).wf(),
        old(kernel).frames_wf(),
        old(kernel).current is Some,
    ensures
        final(kernel).wf(),
        final(kernel).frames_wf(),
        final(kernel).same_but_task(
            &(Kernel {
                files: final(kernel).files,
                console_in: final(kernel).console_in,
                ..*old(kernel)
            }),
            old(kernel).current->0,
        ),
        final(kernel).frames == old(kernel).frames,
        r == -1 ==> *final(kernel) == *old(kernel),
        r != -1 <==> read_admissible(old(kernel), fd, buf, len),
        r != -1 ==> {
            let (handle, file) = file_of(old(kernel), fd)->0;
            &&& file.readable
            &&& final(kernel).cur() == (TaskControlBlock {
                memory_set: final(kernel).cur().memory_set,
                ..old(kernel).cur()
            })
            &&& match file.kind {
                FileKind::Stdin => {
                    &&& len == 1
                    &&& final(kernel).files == old(kernel).files
                    &&& if old(kernel).console_in@.len() == 0 {
                        r == 0 && *final(kernel) == *old(kernel)
                    } else {
                        &&& r == 1
                        &&& final(kernel).console_in@ == old(kernel).console_in@.drop_first()
                        &&& written_user(
                            &old(kernel).cur().memory_set,
                            &final(kernel).cur().memory_set,
                            buf as u64,
                            seq![old(kernel).console_in@[0]],
                        )
                    }
                },
                FileKind::Inode => {
                    let data = old(kernel).fs.spec_read_at(file.inode, file.offset, len);
                    &&& r == if data.len() <= isize::MAX {
                        data.len() as int
                    } else {
                        isize::MAX as int
                    }
                    &&& final(kernel).console_in == old(kernel).console_in
                    &&& written_user(
                        &old(kernel).cur().memory_set,
                        &final(kernel).cur().memory_set,
                        buf as u64,
                        data,
                    )
                    &&& final(kernel).files@ == old(kernel).files@.update(
                        handle as int,
                        Some(OpenFile { offset: (file.offset + data.len()) as usize, ..file }),
                    )
                },
                FileKind::Stdout => false,
            }
        },
{
    let ghost pre = *kernel;
    proof {
        let cur = kernel.current->0;
        assert(pre.tasks@ =~= pre.tasks@.update(cur as int, pre.tasks@[cur as int]));
    }
    let (handle, file) = match lookup_fd(kernel, fd) {
        Some(found) => found,
        None => {
            return -1;
        },
    };
    if !file.readable {
        return -1;
    }
    let c = kernel.current.unwrap();
    let mapped = match &kernel.tasks[c] {
        Some(task) => check_user_range(&task.memory_set, buf as u64, len),
        None => false,
    };
    if !mapped {
        return -1;
    }
    proof {
        assert(pre.tasks@ =~= pre.tasks@.update(c as int, pre.tasks@[c as int]));
    }
    match file.kind {
        FileKind::Stdin => {
            if len != 1 {
                return -1;
            }
            if kernel.console_in.len() == 0 {
                return 0;
            }
            let ch: u8 = kernel.console_in.remove(0);
            let one: [u8; 1] = [ch];
            match &mut kernel.tasks[c] {
                Some(task) => {
                    let _ = write_user(&mut task.memory_set, buf as u64, one.as_slice());
                },
                None => {},
            }
            proof {
                assert(one@ =~= seq![pre.console_in@[0]]);
                assert(kernel.console_in@ =~= pre.console_in@.drop_first());
                assert(kernel.tasks@ =~= pre.tasks@.update(c as int, kernel.tasks@[c as int]));
                Kernel::lemma_wf_update(&pre, kernel, c);
                Kernel::lemma_frames_step(&pre, kernel, c);
            }
            1
        },
        FileKind::Inode => {
            let data = kernel.fs.read_at(file.inode, file.offset, len);
            let n: usize = data.len();
            match &mut kernel.tasks[c] {
                Some(task) => {
                    let _ = write_user(&mut task.memory_set, buf as u64, data.as_slice());
                },
                None => {},
            }
            kernel.files.set_offset(handle, file.offset + n);
            proof {
                assert(kernel.tasks@ =~= pre.tasks@.update(c as int, kernel.tasks@[c as int]));
                Kernel::lemma_wf_update(&pre, kernel, c);
                Kernel::lemma_frames_step(&pre, kernel, c);
            }
            as_result(n)
        },
        FileKind::Stdout => -1,
    }
}

/// Closes the descriptor `fd` of the running task: the descriptor is free
/// again, and the open file counts one descriptor less. The result is 0, or
/// -1, with nothing changed, where the descriptor is not in use.
pub fn sys_close(kernel: &mut Kernel, fd: usize) -> (r: isize)
    requires
        old(kernel).wf(),
        old(kernel).frames_wf(),
        old(kernel).current is Some,
    ensures
        final(kernel).wf(),
        final(kernel).frames_wf(),
        final(kernel).frames == old(kernel).frames,
        r == if fd < old(kernel).cur().fd_table@.len() && old(kernel).cur().fd_table@[fd as int] is Some {
            0isize
        } else {
            -1isize
        },
        r == -1 ==> *final(kernel) == *old(kernel),
        r == 0 ==> {
            &&& final(kernel).same_but_task(
                &(Kernel { files: final(kernel).files, ..*old(kernel) }),
                old(kernel).current->0,
            )
            &&& final(kernel).cur() == (TaskControlBlock {
                fd_table: final(kernel).cur().fd_table,
                ..old(kernel).cur()
            })
            &&& final(kernel).cur().fd_table@ == old(kernel).cur().fd_table@.update(
                fd as int,
                None,
            )
            &&& final(kernel).files@ == released(
                old(kernel).files@,
                old(kernel).cur().fd_table@[fd as int]->0,
            )
        },
{
    let ghost pre = *kernel;
    let c = kernel.current.unwrap();
    let handle = match &kernel.tasks[c] {
        Some(task) => {
            if fd >= task.fd_table.len() {
                return -1;
            }
            match task.fd_table[fd] {
                Some(h) => h,
                None => {
                    return -1;
                },
            }
        },
        None => {
            return -1;
        },
    };
    match &mut kernel.tasks[c] {
        Some(task) => {
            task.fd_table[fd] = None;
        },
        None => {},
    }
    kernel.files.release(handle);
    proof {
        assert(kernel.tasks@ =~= pre.tasks@.update(c as int, kernel.tasks@[c as int]));
        pre.lemma_descriptor_refers(c, fd as int);
        assert forall|h: usize|
            #[trigger] entry_refs(kernel.files@, h) + refs_in(pre.task(c).fd_table@, h)
                == entry_refs(pre.files@, h) + refs_in(kernel.task(c).fd_table@, h) && refs_in(
                kernel.task(c).fd_table@,
                h,
            ) <= 1 by {
            lemma_refs_in_update(pre.task(c).fd_table@, fd as int, None, h);
            lemma_released_refs(pre.files@, handle, h);
            pre.lemma_task_refs(c, h);
        }
        assert forall|h: usize| #[trigger] refs_in(kernel.task(c).fd_table@, h) <= 1 by {
            lemma_refs_in_update(pre.task(c).fd_table@, fd as int, None, h);
            pre.lemma_task_refs(c, h);
        }
        Kernel::lemma_wf_descriptors(&pre, kernel, c);
        Kernel::lemma_frames_step(&pre, kernel, c);
    }
    0
}

/// The file store after the file `name` was opened with `flags`, and the
/// inode that was opened; `None` where the file cannot be opened. With
/// `CREATE`, a file that exists is emptied and one that does not is made;
/// without it the file must exist, and `TRUNC` empties it.
pub open spec fn opened(pre: &FileSystem, post: &FileSystem, name: Seq<u8>, flags: OpenFlags) -> Option<
    u32,
> {
    if flags.spec_bits() & crate::fs::O_CREATE != 0 {
        match pre.lookup(name) {
            Some(id) => Some(id),
            None => if post.lookup(name) is Some && post.entries() == pre.entries().push(
                (name, post.lookup(name)->0),
            ) {
                post.lookup(name)
            } else {
                None
            },
        }
    } else {
        pre.lookup(name)
    }
}

/// Opens the file that the string at `path` names, as `flags` say, under
/// the lowest free descriptor of the running task. The result is the
/// descriptor, or -1 where there is no such string, `flags` holds a bit
/// that is no flag, or the file does not exist and is not to be made.
pub fn sys_open(kernel: &mut Kernel, path: usize, flags: u32) -> (r: isize)
    requires
        old(kernel).wf(),
        old(kernel).frames_wf(),
        old(kernel).current is Some,
    ensures
        final(kernel).wf(),
        final(kernel).frames_wf(),
        final(kernel).frames == old(kernel).frames,
        final(kernel).console_in == old(kernel).console_in,
        final(kernel).console_out == old(kernel).console_out,
        final(kernel).pids == old(kernel).pids,
        final(kernel).manager == old(kernel).manager,
        final(kernel).current == old(kernel).current,
        str_at(&old(kernel).cur().memory_set, path as u64) is None || flags & !crate::fs::O_ALL != 0
            ==> r == -1 && *final(kernel) == *old(kernel),
        r != -1 <==> open_admissible(old(kernel), path, flags),
        r == -1 ==> final(kernel).tasks == old(kernel).tasks && final(kernel).files == old(kernel).files,
        r != -1 ==> {
            let name = str_at(&old(kernel).cur().memory_set, path as u64)->0;
            let fd = old(kernel).cur().lowest_free_fd();
            let handle = FileTable::first_free(old(kernel).files@);
            let f = OpenFlags::from_bits_spec(flags);
            &&& flags & !crate::fs::O_ALL == 0
            &&& r == if fd <= isize::MAX {
                fd
            } else {
                isize::MAX as int
            }
            &&& final(kernel).live(old(kernel).current->0)
            &&& final(kernel).tasks@ == old(kernel).tasks@.update(
                old(kernel).current->0 as int,
                final(kernel).tasks@[old(kernel).current->0 as int],
            )
            &&& final(kernel).cur() == (TaskControlBlock {
                fd_table: final(kernel).cur().fd_table,
                ..old(kernel).cur()
            })
            &&& final(kernel).cur().fd_table@ == (if fd < old(kernel).cur().fd_table@.len() {
                old(kernel).cur().fd_table@
            } else {
                old(kernel).cur().fd_table@.push(None)
            }).update(fd, Some(handle as usize))
            &&& handle < final(kernel).files@.len()
            &&& final(kernel).files@[handle] matches Some(file) && {
                &&& file.kind is Inode
                &&& file.offset == 0
                &&& file.refs == 1
                &&& (file.readable, file.writable) == f.spec_read_write()
                &&& final(kernel).fs.live(file.inode)
                &&& final(kernel).fs.lookup(name) == Some(file.inode)
                &&& f.spec_bits() & crate::fs::O_CREATE != 0 || f.spec_bits() & crate::fs::O_TRUNC
                    != 0 ==> final(kernel).fs.data(file.inode) == Seq::<u8>::empty()
                &&& f.spec_bits() & crate::fs::O_CREATE == 0 && f.spec_bits() & crate::fs::O_TRUNC
                    == 0 ==> final(kernel).fs == old(kernel).fs
                &&& old(kernel).fs.lookup(name) matches Some(id) ==> file.inode == id
            }
        },
{
    let ghost pre = *kernel;
    let c = kernel.current.unwrap();
    let name = match &kernel.tasks[c] {
        Some(task) => match translated_str(&task.memory_set, path as u64) {
            Some(s) => s,
            None => {
                return -1;
            },
        },
        None => {
            return -1;
        },
    };
    let open_flags = match OpenFlags::from_bits(flags) {
        Some(f) => f,
        None => {
            return -1;
        },
    };
    let (readable, writable) = open_flags.read_write();
    let found = kernel.fs.find(name.as_slice());
    let inode: u32 = if open_flags.create() {
        match found {
            Some(id) => {
                kernel.fs.clear(id);
                id
            },
            None => match kernel.fs.create(name.as_slice()) {
                Some(id) => {
                    proof {
                        FileSystem::lemma_position(pre.fs.entries(), name@);
                        FileSystem::lemma_position_is(
                            kernel.fs.entries(),
                            name@,
                            pre.fs.entries().len() as int,
                        );
                    }
                    id
                },
                None => {
                    proof {
                        Kernel::lemma_wf_frames(old(kernel), kernel);
                        Kernel::lemma_frames_same(old(kernel), kernel);
                    }
                    return -1;
                },
            },
        }
    } else {
        match found {
            Some(id) => {
                if open_flags.truncate() {
                    kernel.fs.clear(id);
                }
                id
            },
            None => {
                return -1;
            },
        }
    };
    proof {
        FileTable::lemma_first_free_bounds(kernel.files@);
    }
    let handle = kernel.files.open(
        OpenFile { kind: FileKind::Inode, inode, offset: 0, readable, writable, refs: 1 },
    );
    let ghost opened_files = kernel.files@;
    let fd = match &mut kernel.tasks[c] {
        Some(task) => {
            let fd = task.alloc_fd();
            task.fd_table[fd] = Some(handle);
            fd
        },
        None => 0,
    };
    proof {
        assert(kernel.tasks@ =~= pre.tasks@.update(c as int, kernel.tasks@[c as int]));
        let file = OpenFile { kind: FileKind::Inode, inode, offset: 0, readable, writable, refs: 1 };
        let before = pre.task(c).fd_table@;
        let room = if fd < before.len() {
            before
        } else {
            before.push(None)
        };
        assert(kernel.task(c).fd_table@ == room.update(fd as int, Some(handle)));
        assert forall|h: usize|
            #[trigger] entry_refs(kernel.files@, h) + refs_in(pre.task(c).fd_table@, h)
                == entry_refs(pre.files@, h) + refs_in(kernel.task(c).fd_table@, h) && refs_in(
                kernel.task(c).fd_table@,
                h,
            ) <= 1 by {
            lemma_opened_refs(pre.files@, kernel.files@, file, handle, h);
            lemma_refs_in_push(before, None, h);
            lemma_refs_in_update(room, fd as int, Some(handle), h);
            pre.lemma_task_refs(c, h);
        }
        assert forall|h: usize| #[trigger] refs_in(kernel.task(c).fd_table@, h) <= 1 by {
            lemma_opened_refs(pre.files@, kernel.files@, file, handle, h);
            lemma_refs_in_push(before, None, h);
            lemma_refs_in_update(room, fd as int, Some(handle), h);
            pre.lemma_task_refs(c, h);
        }
        Kernel::lemma_wf_descriptors(&pre, kernel, c);
        Kernel::lemma_frames_step(&pre, kernel, c);
    }
    as_result(fd)
}

/// Whether `fstat` can report of the descriptor `fd` to the structure at
/// `st`: the descriptor refers to an open file of the file store whose inode
/// exists, and the structure lies in memory that frames back.
pub open spec fn fstat_admissible(kernel: &Kernel, fd: usize, st: usize) -> bool {
    match file_of(kernel, fd) {
        Some((handle, file)) => file.kind is Inode && kernel.fs.live(file.inode) && maps_range(
            &kernel.cur().memory_set,
            st as u64,
            80,
        ),
        None => false,
    }
}

/// Whether the file that the string at `old_name` names can get the string
/// at `new_name` as one more name.
pub open spec fn link_admissible(kernel: &Kernel, old_name: usize, new_name: usize) -> bool {
    match str_at(&kernel.cur().memory_set, old_name as u64) {
        Some(from) => str_at(&kernel.cur().memory_set, new_name as u64) is Some && (
        match kernel.fs.lookup(from) {
            Some(id) => kernel.fs.nlink(id) < u32::MAX,
            None => false,
        }),
        None => false,
    }
}

/// Whether the string at `name` names a file.
pub open spec fn unlink_admissible(kernel: &Kernel, name: usize) -> bool {
    match str_at(&kernel.cur().memory_set, name as u64) {
        Some(s) => kernel.fs.lookup(s) is Some,
        None => false,
    }
}

/// Writes what is known of the file of the descriptor `fd` to the structure
/// at `st` in the memory of the running task. The result is 0, or -1, with
/// nothing changed, where the descriptor refers to no open file of the file
/// store, the file is gone, or the structure does not lie in memory that
/// frames back.
pub fn sys_fstat(kernel: &mut Kernel, fd: usize, st: usize) -> (r: isize)
    requires
        old(kernel).wf(),
        old(kernel).frames_wf(),
        old(kernel).current is Some,
    ensures
        final(kernel).wf(),
        final(kernel).frames_wf(),
        final(kernel).same_but_task(old(kernel), old(kernel).current->0),
        final(kernel).frames == old(kernel).frames,
        r == if fstat_admissible(old(kernel), fd, st) {
            0isize
        } else {
            -1isize
        },
        r == -1 ==> *final(kernel) == *old(kernel),
        r == 0 ==> written_user(
            &old(kernel).cur().memory_set,
            &final(kernel).cur().memory_set,
            st as u64,
            stat_bytes(
                Stat {
                    dev: 0,
                    ino: open_file_of(old(kernel), fd).inode as u64,
                    mode: crate::fs::STAT_MODE_FILE,
                    nlink: old(kernel).fs.nlink(open_file_of(old(kernel), fd).inode),
                },
            ),
        ) && final(kernel).cur() == (TaskControlBlock {
            memory_set: final(kernel).cur().memory_set,
            ..old(kernel).cur()
        }),
{
    let ghost pre = *kernel;
    proof {
        let c = kernel.current->0;
        assert(pre.tasks@ =~= pre.tasks@.update(c as int, pre.tasks@[c as int]));
    }
    let (handle, file) = match lookup_fd(kernel, fd) {
        Some(found) => found,
        None => {
            return -1;
        },
    };
    match file.kind {
        FileKind::Inode => {},
        _ => {
            return -1;
        },
    }
    let stat = match kernel.fs.stat(file.inode) {
        Some(stat) => stat,
        None => {
            return -1;
        },
    };
    let bytes = stat_to_bytes(&stat);
    let c = kernel.current.unwrap();
    let mapped = match &kernel.tasks[c] {
        Some(task) => check_user_range(&task.memory_set, st as u64, 80),
        None => false,
    };
    if !mapped {
        return -1;
    }
    match &mut kernel.tasks[c] {
        Some(task) => {
            let _ = write_user(&mut task.memory_set, st as u64, bytes.as_slice());
        },
        None => {},
    }
    proof {
        assert(kernel.tasks@ =~= pre.tasks@.update(c as int, kernel.tasks@[c as int]));
        Kernel::lemma_wf_update(&pre, kernel, c);
        Kernel::lemma_frames_step(&pre, kernel, c);
    }
    0
}

/// Gives the file that the string at `old_name` names one more name, the
/// string at `new_name`: the inode counts one more name, and the directory
/// gets a last entry of the new name for the same inode. A name that exists
/// already is not refused. The result is 0, or -1, with nothing changed,
/// where one of the strings is missing, no file has the old name, or the
/// inode has as many names as can be counted.
pub fn sys_linkat(kernel: &mut Kernel, old_name: usize, new_name: usize) -> (r: isize)
    requires
        old(kernel).wf(),
        old(kernel).frames_wf(),
        old(kernel).current is Some,
    ensures
        final(kernel).wf(),
        final(kernel).frames_wf(),
        *final(kernel) == (Kernel { fs: final(kernel).fs, ..*old(kernel) }),
        r == -1 ==> *final(kernel) == *old(kernel),
        r == if link_admissible(old(kernel), old_name, new_name) {
            0isize
        } else {
            -1isize
        },
        r == 0 ==> {
            let from = str_at(&old(kernel).cur().memory_set, old_name as u64)->0;
            let to = str_at(&old(kernel).cur().memory_set, new_name as u64)->0;
            let id = old(kernel).fs.lookup(from)->0;
            &&& final(kernel).fs.entries() == old(kernel).fs.entries().push((to, id))
            &&& final(kernel).fs.others_same(&old(kernel).fs, id)
            &&& final(kernel).fs.live(id)
            &&& final(kernel).fs.nlink(id) == old(kernel).fs.nlink(id) + 1
            &&& final(kernel).fs.data(id) == old(kernel).fs.data(id)
        },
{
    let c = kernel.current.unwrap();
    let from = match &kernel.tasks[c] {
        Some(task) => match translated_str(&task.memory_set, old_name as u64) {
            Some(s) => s,
            None => {
                return -1;
            },
        },
        None => {
            return -1;
        },
    };
    let id = match kernel.fs.find(from.as_slice()) {
        Some(id) => id,
        None => {
            return -1;
        },
    };
    let to = match &kernel.tasks[c] {
        Some(task) => match translated_str(&task.memory_set, new_name as u64) {
            Some(s) => s,
            None => {
                return -1;
            },
        },
        None => {
            return -1;
        },
    };
    if !kernel.fs.link(id, to.as_slice()) {
        return -1;
    }
    proof {
        Kernel::lemma_wf_frames(old(kernel), kernel);
        Kernel::lemma_frames_same(old(kernel), kernel);
    }
    0
}

/// Takes the name that the string at `name` holds away from its file: the
/// inode counts one name less and, when that was its last, is freed with
/// its bytes; the first entry of the name leaves the directory. The result
/// is 0, or -1, with nothing changed, where the string is missing or names
/// no file.
pub fn sys_unlinkat(kernel: &mut Kernel, name: usize) -> (r: isize)
    requires
        old(kernel).wf(),
        old(kernel).frames_wf(),
        old(kernel).current is Some,
    ensures
        final(kernel).wf(),
        final(kernel).frames_wf(),
        *final(kernel) == (Kernel { fs: final(kernel).fs, ..*old(kernel) }),
        r == -1 ==> *final(kernel) == *old(kernel),
        r == if unlink_admissible(old(kernel), name) {
            0isize
        } else {
            -1isize
        },
        r == 0 ==> {
            let s = str_at(&old(kernel).cur().memory_set, name as u64)->0;
            let id = old(kernel).fs.lookup(s)->0;
            &&& final(kernel).fs.entries() == old(kernel).fs.entries().remove(
                old(kernel).fs.position(s),
            )
            &&& final(kernel).fs.others_same(&old(kernel).fs, id)
            &&& final(kernel).fs.live(id) == (old(kernel).fs.nlink(id) > 1)
            &&& final(kernel).fs.live(id) ==> final(kernel).fs.nlink(id) == old(kernel).fs.nlink(
                id,
            ) - 1 && final(kernel).fs.data(id) == old(kernel).fs.data(id)
        },
{
    let c = kernel.current.unwrap();
    let s = match &kernel.tasks[c] {
        Some(task) => match translated_str(&task.memory_set, name as u64) {
            Some(s) => s,
            None => {
                return -1;
            },
        },
        None => {
            return -1;
        },
    };
    if !kernel.fs.unlink(s.as_slice()) {
        return -1;
    }
    proof {
        Kernel::lemma_wf_frames(old(kernel), kernel);
        Kernel::lemma_frames_same(old(kernel), kernel);
    }
    0
}

} // verus!
