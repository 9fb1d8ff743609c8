use os_core::fs::{bytes_eq, FileKind, FileSystem, FileTable, OpenFile, OpenFlags, Stat, O_CREATE, O_RDONLY, O_RDWR, O_TRUNC, O_WRONLY};
use os_core::mm::address::PhysPageNum;
use os_core::mm::user_buffer::{read_user, write_user};
use os_core::syscall::fs::{stat_to_bytes, sys_close, sys_fstat, sys_linkat, sys_open, sys_read, sys_unlinkat, sys_write};
use os_core::syscall::process::{sys_exit, sys_fork, sys_mmap, sys_waitpid, sys_yield};
use os_core::task::processor::Kernel;

const BUF: usize = 0x10_0000;

fn tiny_program() -> Vec<u8> {
    let mut out = vec![0u8; 64];
    out[0..4].copy_from_slice(&[0x7f, b'E', b'L', b'F']);
    out[32..40].copy_from_slice(&64u64.to_le_bytes());
    out
}

fn boot() -> Kernel {
    let mut k = Kernel::new(PhysPageNum(0x8000), PhysPageNum(0x8100), 0, 0, 0);
    assert_eq!(k.spawn(&tiny_program(), None), Ok(0));
    k.run_next(0);
    assert_eq!(sys_mmap(&mut k, BUF, 0x3000, 3), 0);
    k
}

fn poke(k: &mut Kernel, addr: usize, bytes: &[u8]) {
    let c = k.current.unwrap();
    assert!(write_user(&mut k.tasks[c].as_mut().unwrap().memory_set, addr as u64, bytes));
}

fn peek(k: &Kernel, addr: usize, len: usize) -> Vec<u8> {
    let c = k.current.unwrap();
    read_user(&k.tasks[c].as_ref().unwrap().memory_set, addr as u64, len).unwrap()
}

fn stat_of(k: &mut Kernel, fd: usize) -> (u64, u32) {
    assert_eq!(sys_fstat(k, fd, BUF + 0x2000), 0);
    let b = peek(k, BUF + 0x2000, 80);
    assert_eq!(b[0..8], [0; 8]);
    assert_eq!(b[16..20], 0o100000u32.to_le_bytes());
    assert!(b[24..].iter().all(|x| *x == 0));
    (
        u64::from_le_bytes(b[8..16].try_into().unwrap()),
        u32::from_le_bytes(b[20..24].try_into().unwrap()),
    )
}

#[test]
fn open_flags_decide_reading_and_writing() {
    assert_eq!(OpenFlags::from_bits(O_RDONLY).unwrap().read_write(), (true, false));
    assert_eq!(OpenFlags::from_bits(O_WRONLY).unwrap().read_write(), (false, true));
    assert_eq!(OpenFlags::from_bits(O_RDWR).unwrap().read_write(), (true, true));
    assert_eq!(OpenFlags::from_bits(O_CREATE | O_WRONLY).unwrap().read_write(), (false, true));
    assert_eq!(OpenFlags::from_bits(O_CREATE).unwrap().read_write(), (true, false));
    assert!(OpenFlags::from_bits(O_CREATE).unwrap().create());
    assert!(!OpenFlags::from_bits(O_CREATE).unwrap().truncate());
    assert!(OpenFlags::from_bits(O_TRUNC | O_RDWR).unwrap().truncate());
    assert_eq!(OpenFlags::from_bits(0x603).unwrap().bits(), 0x603);
    assert!(OpenFlags::from_bits(4).is_none());
    assert!(OpenFlags::from_bits(0x1000).is_none());
}

#[test]
fn the_file_store_keeps_names_links_and_bytes() {
    let mut fs = FileSystem::new();
    assert_eq!(fs.find(b"a"), None);
    assert_eq!(fs.create(b"a"), Some(0));
    assert_eq!(fs.create(b"b"), Some(1));
    assert_eq!(fs.create(b"a"), None);
    assert_eq!(fs.find(b"b"), Some(1));
    assert_eq!(fs.link_count(1), Some(1));
    assert!(fs.write_at(1, 3, &[1, 2, 3]));
    assert_eq!(fs.size(1), Some(6));
    assert_eq!(fs.read_at(1, 0, 100), vec![0, 0, 0, 1, 2, 3]);
    assert!(fs.write_at(1, 4, &[9]));
    assert_eq!(fs.read_at(1, 2, 3), vec![0, 1, 9]);
    assert_eq!(fs.read_at(1, 6, 3), Vec::<u8>::new());
    assert_eq!(fs.read_at(1, 7, 3), Vec::<u8>::new());
    assert_eq!(fs.read_at(5, 0, 3), Vec::<u8>::new());
    assert!(!fs.write_at(5, 0, &[1]));
    assert!(fs.link(1, b"c"));
    assert!(!fs.link(9, b"d"));
    assert_eq!(fs.find(b"c"), Some(1));
    assert_eq!(fs.stat(1), Some(Stat { dev: 0, ino: 1, mode: 0o100000, nlink: 2 }));
    assert!(fs.unlink(b"b"));
    assert_eq!(fs.find(b"b"), None);
    assert_eq!(fs.link_count(1), Some(1));
    assert_eq!(fs.read_at(1, 3, 1), vec![1]);
    assert!(fs.unlink(b"c"));
    assert_eq!(fs.link_count(1), None);
    assert!(!fs.unlink(b"c"));
    // the freed inode is the next to be used
    assert_eq!(fs.create(b"d"), Some(1));
    assert_eq!(fs.size(1), Some(0));
    fs.clear(0);
    fs.clear(77);
    assert!(bytes_eq(b"abc", b"abc") && !bytes_eq(b"abc", b"abd") && !bytes_eq(b"ab", b"abc"));
}

#[test]
fn open_files_are_counted() {
    let mut t = FileTable::new();
    let f = OpenFile { kind: FileKind::Inode, inode: 4, offset: 0, readable: true, writable: false, refs: 9 };
    assert_eq!(t.open(f), 0);
    assert_eq!(t.open(f), 1);
    assert_eq!(t.get(0).unwrap().refs, 1);
    assert!(t.retain(0));
    assert!(!t.retain(5));
    assert_eq!(t.get(0).unwrap().refs, 2);
    t.set_offset(0, 77);
    t.release(0);
    assert_eq!(t.get(0), Some(OpenFile { offset: 77, refs: 1, ..f }));
    t.release(0);
    assert_eq!(t.get(0), None);
    t.release(0);
    t.set_offset(0, 1);
    assert_eq!(t.get(0), None);
    assert_eq!(t.open(f), 0);
    assert_eq!(t.open(f), 2);
    assert_eq!(t.get(9), None);
}

#[test]
fn open_hands_out_the_lowest_free_descriptor() {
    let mut k = boot();
    poke(&mut k, BUF, b"a\0b\0");
    assert_eq!(sys_open(&mut k, BUF, O_RDONLY), -1);
    assert_eq!(sys_open(&mut k, BUF, 4), -1);
    assert_eq!(sys_open(&mut k, 0x7000_0000, O_CREATE), -1);
    assert_eq!(sys_open(&mut k, BUF, O_CREATE | O_WRONLY), 3);
    assert_eq!(sys_open(&mut k, BUF + 2, O_CREATE | O_RDWR), 4);
    assert_eq!(sys_open(&mut k, BUF, O_RDONLY), 5);
    assert_eq!(sys_close(&mut k, 4), 0);
    assert_eq!(sys_close(&mut k, 4), -1);
    assert_eq!(sys_close(&mut k, 99), -1);
    assert_eq!(sys_open(&mut k, BUF + 2, O_RDONLY), 4);
    assert_eq!(sys_close(&mut k, 0), 0);
    assert_eq!(sys_open(&mut k, BUF, O_RDWR), 0);
    assert_eq!(k.fs.find(b"a"), Some(0));
    assert_eq!(k.fs.find(b"b"), Some(1));
}

#[test]
fn write_and_read_move_the_position_of_the_open_file() {
    let mut k = boot();
    poke(&mut k, BUF, b"log\0");
    poke(&mut k, BUF + 0x100, b"0123456789");
    let w = sys_open(&mut k, BUF, O_CREATE | O_WRONLY) as usize;
    assert_eq!(sys_write(&mut k, w, BUF + 0x100, 4), 4);
    assert_eq!(sys_write(&mut k, w, BUF + 0x106, 4), 4);
    assert_eq!(k.fs.read_at(0, 0, 100), b"01236789".to_vec());
    assert_eq!(sys_read(&mut k, w, BUF + 0x200, 4), -1);
    assert_eq!(sys_write(&mut k, w, 0x7000_0000, 4), -1);
    assert_eq!(sys_write(&mut k, 9, BUF, 1), -1);
    let r = sys_open(&mut k, BUF, O_RDONLY) as usize;
    assert_eq!(sys_write(&mut k, r, BUF + 0x100, 4), -1);
    assert_eq!(sys_read(&mut k, r, BUF + 0x200, 5), 5);
    assert_eq!(peek(&k, BUF + 0x200, 6), b"01236\0".to_vec());
    assert_eq!(sys_read(&mut k, r, BUF + 0x200, 5), 3);
    assert_eq!(peek(&k, BUF + 0x200, 6), b"78936\0".to_vec());
    assert_eq!(sys_read(&mut k, r, BUF + 0x200, 5), 0);
    assert_eq!(sys_read(&mut k, r, 0x7000_0000, 5), -1);
    // opening with TRUNC or CREATE empties the file
    let t = sys_open(&mut k, BUF, O_TRUNC | O_RDWR) as usize;
    assert_eq!(k.fs.size(0), Some(0));
    assert_eq!(sys_read(&mut k, t, BUF + 0x200, 5), 0);
    assert_eq!(sys_write(&mut k, t, BUF + 0x100, 2), 2);
    assert!(sys_open(&mut k, BUF, O_CREATE) >= 0);
    assert_eq!(k.fs.size(0), Some(0));
}

#[test]
fn the_console_is_written_and_read_byte_by_byte() {
    let mut k = boot();
    poke(&mut k, BUF, b"hi there");
    assert_eq!(sys_write(&mut k, 1, BUF, 2), 2);
    assert_eq!(sys_write(&mut k, 2, BUF + 2, 6), 6);
    assert_eq!(sys_write(&mut k, 1, BUF, 0), 0);
    assert_eq!(k.console_out, b"hi there".to_vec());
    assert_eq!(sys_write(&mut k, 0, BUF, 2), -1);
    assert_eq!(sys_read(&mut k, 1, BUF, 1), -1);
    assert_eq!(sys_read(&mut k, 0, BUF + 0x10, 1), 0);
    k.console_in.extend_from_slice(b"xy");
    assert_eq!(sys_read(&mut k, 0, BUF + 0x10, 2), -1);
    assert_eq!(sys_read(&mut k, 0, BUF + 0x10, 1), 1);
    assert_eq!(peek(&k, BUF + 0x10, 2), b"x\0".to_vec());
    assert_eq!(sys_read(&mut k, 0, BUF + 0x11, 1), 1);
    assert_eq!(peek(&k, BUF + 0x10, 2), b"xy".to_vec());
    assert_eq!(k.console_in, Vec::<u8>::new());
    assert_eq!(sys_read(&mut k, 0, BUF + 0x10, 1), 0);
    assert_eq!(sys_fstat(&mut k, 1, BUF), -1);
}

#[test]
fn linkat_and_unlinkat() {
    let mut k = boot();
    poke(&mut k, BUF, b"a\0b\0c\0");
    poke(&mut k, BUF + 0x100, b"payload");
    let fa = sys_open(&mut k, BUF, O_CREATE | O_WRONLY) as usize;
    assert_eq!(sys_write(&mut k, fa, BUF + 0x100, 7), 7);
    assert_eq!(sys_linkat(&mut k, BUF + 4, BUF + 2), -1);
    assert_eq!(sys_linkat(&mut k, BUF, 0x7000_0000), -1);
    assert_eq!(stat_of(&mut k, fa), (0, 1));
    assert_eq!(sys_linkat(&mut k, BUF, BUF + 2), 0);
    let fb = sys_open(&mut k, BUF + 2, O_RDONLY) as usize;
    assert_eq!(stat_of(&mut k, fa), (0, 2));
    assert_eq!(stat_of(&mut k, fb), (0, 2));
    assert_eq!(sys_unlinkat(&mut k, BUF), 0);
    assert_eq!(stat_of(&mut k, fb), (0, 1));
    assert_eq!(sys_open(&mut k, BUF, O_RDONLY), -1);
    assert_eq!(sys_read(&mut k, fb, BUF + 0x200, 100), 7);
    assert_eq!(peek(&k, BUF + 0x200, 7), b"payload".to_vec());
    assert_eq!(sys_unlinkat(&mut k, BUF), -1);
    assert_eq!(sys_unlinkat(&mut k, 0x7000_0000), -1);
    assert_eq!(sys_unlinkat(&mut k, BUF + 2), 0);
    assert_eq!(k.fs.find(b"b"), None);
    assert_eq!(k.fs.link_count(0), None);
    assert_eq!(sys_fstat(&mut k, fb, BUF + 0x2000), -1);
    assert_eq!(sys_open(&mut k, BUF + 2, O_RDONLY), -1);
    assert_eq!(sys_fstat(&mut k, 77, BUF), -1);
    assert_eq!(sys_fstat(&mut k, fa, 0x7000_0000), -1);
    assert_eq!(stat_to_bytes(&Stat { dev: 1, ino: 2, mode: 3, nlink: 4 }).len(), 80);
}

#[test]
fn a_forked_child_shares_the_open_files_of_its_parent() {
    let mut k = boot();
    poke(&mut k, BUF, b"f\0");
    poke(&mut k, BUF + 0x100, b"abcdef");
    let fd = sys_open(&mut k, BUF, O_CREATE | O_RDWR) as usize;
    assert_eq!(sys_write(&mut k, fd, BUF + 0x100, 6), 6);
    let handle = k.tasks[0].as_ref().unwrap().fd_table[fd].unwrap();
    k.files.set_offset(handle, 0);
    assert_eq!(sys_fork(&mut k), 1);
    assert_eq!(k.files.get(handle).unwrap().refs, 2);
    assert_eq!(sys_read(&mut k, fd, BUF + 0x200, 2), 2);
    sys_yield(&mut k, 0);
    assert_eq!(k.current, Some(1));
    // the child reads on from where the parent stopped
    assert_eq!(sys_read(&mut k, fd, BUF + 0x200, 2), 2);
    assert_eq!(peek(&k, BUF + 0x200, 2), b"cd".to_vec());
    assert_eq!(sys_close(&mut k, fd), 0);
    assert_eq!(k.files.get(handle).unwrap().refs, 1);
    assert_eq!(sys_read(&mut k, fd, BUF + 0x200, 2), -1);
    sys_yield(&mut k, 0);
    assert_eq!(k.current, Some(0));
    assert_eq!(sys_read(&mut k, fd, BUF + 0x200, 2), 2);
    assert_eq!(peek(&k, BUF + 0x200, 2), b"ef".to_vec());
    assert_eq!(sys_close(&mut k, fd), 0);
    assert_eq!(k.files.get(handle), None);
}

fn descriptors_for(k: &Kernel, handle: usize) -> usize {
    k.tasks
        .iter()
        .flatten()
        .map(|t| t.fd_table.iter().filter(|fd| **fd == Some(handle)).count())
        .sum()
}

fn books_in_order(k: &Kernel) {
    for handle in 0..8 {
        let counted = k.files.get(handle).map_or(0, |f| f.refs);
        assert_eq!(counted, descriptors_for(k, handle));
    }
}

#[test]
fn an_open_file_stays_while_a_task_holds_a_descriptor() {
    let mut k = boot();
    books_in_order(&k);
    poke(&mut k, BUF, b"f\0");
    poke(&mut k, BUF + 0x100, b"abcdef");
    let fd = sys_open(&mut k, BUF, O_CREATE | O_RDWR) as usize;
    let handle = k.tasks[0].as_ref().unwrap().fd_table[fd].unwrap();
    books_in_order(&k);
    assert_eq!(sys_fork(&mut k), 1);
    assert_eq!(sys_fork(&mut k), 2);
    books_in_order(&k);
    assert_eq!(k.files.get(handle).unwrap().refs, 3);
    // the first child closes the file, the second exits with the file open
    sys_yield(&mut k, 0);
    assert_eq!(k.current, Some(1));
    assert_eq!(sys_close(&mut k, fd), 0);
    books_in_order(&k);
    sys_yield(&mut k, 0);
    assert_eq!(k.current, Some(2));
    sys_exit(&mut k, 3, 0);
    books_in_order(&k);
    assert_eq!(k.files.get(handle).unwrap().refs, 2);
    while k.current != Some(0) {
        sys_yield(&mut k, 0);
    }
    assert_eq!(sys_waitpid(&mut k, 2, BUF + 0x200), 2);
    books_in_order(&k);
    assert_eq!(k.files.get(handle).unwrap().refs, 1);
    assert_eq!(sys_write(&mut k, fd, BUF + 0x100, 6), 6);
    assert_eq!(sys_close(&mut k, fd), 0);
    books_in_order(&k);
    assert_eq!(k.files.get(handle), None);
}
