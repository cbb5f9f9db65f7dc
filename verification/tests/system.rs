use octopos::abi::{SysError, Syscall};
use octopos::console::Console;
use octopos::exec::{ElfHeader, ExecError, ProgramHeader};
use octopos::file::{FileTable, Files, OpenFlag};
use octopos::fs::{Fs, FsError, InodeType, Path};
use octopos::kalloc::{Kmem, Source};
use octopos::log::Store;
use octopos::memlayout::{KERNBASE, TRAMPOLINE, TRAPFRAME};
use octopos::mkfs::{Image, FSSIZE};
use octopos::param::{NOFILE, NPROC, ROOTDEV};
use octopos::proc::boot::{fork_ret, user_init};
use octopos::proc::{copy_from_user, copy_to_user, grow, Channel, Code, Pid, ProcState, ProcTable};
use octopos::riscv::{Exception, Interrupt, Trap, PGSIZE, PTE_R, PTE_W};
use octopos::sync::OnceLock;
use octopos::syscall::dispatch::{Kernel, Outcome};
use octopos::trap::{InterruptType, Leave, Message};
use octopos::virtio_disk::Disk;
use octopos::vm::kvm::Kvm;
use octopos::vm::{PA, VA};
use std::collections::HashMap;

const CREATE_RW: u64 = OpenFlag::CREATE | OpenFlag::READ_WRITE | OpenFlag::TRUNCATE;

const CODE: Code = Code { trampoline: KERNBASE, fork_ret: 0x8000_1234 };

/// A program of one section at `vaddr` with the given contents.
fn program(vaddr: u64, flags: u32, contents: &[u8], memsz: u64) -> Vec<u8> {
    let mut elf = vec![0u8; 120];
    elf[0..4].copy_from_slice(&[0x7f, b'E', b'L', b'F']);
    elf[24..32].copy_from_slice(&(vaddr + 4).to_le_bytes());
    elf[32..40].copy_from_slice(&64u64.to_le_bytes());
    elf[56..58].copy_from_slice(&1u16.to_le_bytes());
    elf[64..68].copy_from_slice(&1u32.to_le_bytes());
    elf[68..72].copy_from_slice(&flags.to_le_bytes());
    elf[72..80].copy_from_slice(&120u64.to_le_bytes());
    elf[80..88].copy_from_slice(&vaddr.to_le_bytes());
    elf[96..104].copy_from_slice(&(contents.len() as u64).to_le_bytes());
    elf[104..112].copy_from_slice(&memsz.to_le_bytes());
    elf.extend_from_slice(contents);
    elf
}

fn frames(n: u64) -> Kmem {
    let list: Vec<u64> = (0..n).map(|i| KERNBASE + 0x10_0000 + i * PGSIZE).collect();
    Kmem::new(Source::Reserve(list))
}

fn frames_left(mut kmem: Kmem) -> u64 {
    let mut n = 0;
    while kmem.allocate_page().is_some() {
        n += 1;
    }
    n
}

fn disk_with(files: &[(&[u8], &[u8])]) -> Disk {
    let mut image = Image::new().unwrap();
    for (name, data) in files {
        image.add_file(name, data).unwrap();
    }
    image.finish();
    let mut disk = Disk::new();
    for b in 0..FSSIZE {
        let mut block = image.read_sector(b);
        disk.rw(ROOTDEV, b, &mut block, true);
    }
    disk
}

struct Machine {
    k: Kernel,
    /// Memory of the current process for arguments
    buf: u64,
}

impl Machine {
    fn boot(n: u64) -> Machine {
        let init = program(PGSIZE, 5, b"the text of init", 0x1000);
        let big: Vec<u8> = (0..30_000u32).map(|i| (i % 251) as u8).collect();
        let disk = disk_with(&[(b"init", &init), (b"big", &big), (b"junk", b"no program")]);
        let mut k = Kernel {
            procs: ProcTable::new(),
            kmem: frames(n),
            files: Files {
                table: FileTable::new(),
                pipes: HashMap::new(),
                console: Console::new(),
                fs: Fs::new(Store::new(disk, 1)),
            },
            ticks: 0,
            code: CODE,
            kvm: OnceLock::new(),
        };
        let id = user_init(&mut k.procs, &mut k.kmem, &mut k.files.fs, CODE);
        assert_eq!(id, 0);
        assert_eq!(k.procs.scheduler(0), Some(0));
        let r = fork_ret(
            true,
            &mut k.procs.table[0].data,
            &mut k.kmem,
            &mut k.files.fs,
            CODE.trampoline,
        );
        assert_eq!(r, Ok(()));
        let mut m = Machine { k, buf: 0 };
        m.buf = m.call(0, Syscall::Sbrk, 0x2000, 0, 0).unwrap();
        m
    }

    /// A machine whose first process has the console open three times.
    fn new() -> Machine {
        let mut m = Machine::boot(200);
        let p = m.text(0, b"/console");
        m.call(0, Syscall::Mknod, p, 1, 1).unwrap();
        assert_eq!(m.open(0, b"/console", OpenFlag::READ_WRITE), Ok(0));
        assert_eq!(m.call(0, Syscall::Dup, 0, 0, 0), Ok(1));
        assert_eq!(m.call(0, Syscall::Dup, 0, 0, 0), Ok(2));
        m
    }

    fn outcome(&mut self, id: usize, sys: Syscall, a0: u64, a1: u64, a2: u64, done: u64) -> Outcome {
        let frame = self.k.procs.table[id].data.trapframe_mut();
        frame.a0 = a0;
        frame.a1 = a1;
        frame.a2 = a2;
        frame.a7 = sys.to_u64();
        let r = self.k.syscall(id, done);
        if let Outcome::Done(result) = r {
            let word = self.k.procs.table[id].data.trapframe().a0;
            assert_eq!(SysError::decode_result(word), result);
        }
        r
    }

    fn call(&mut self, id: usize, sys: Syscall, a0: u64, a1: u64, a2: u64) -> Result<u64, SysError> {
        match self.outcome(id, sys, a0, a1, a2, 0) {
            Outcome::Done(r) => r,
            other => panic!("{:?}", other),
        }
    }

    /// Puts bytes into the memory of the process: pages that it shares are copied first.
    fn poke(&mut self, id: usize, at: u64, bytes: &[u8]) {
        let data = &mut self.k.procs.table[id].data;
        copy_to_user(data, &mut self.k.kmem, bytes, VA(at)).unwrap();
    }

    fn peek(&mut self, id: usize, at: u64, n: usize) -> Vec<u8> {
        let mut v = Vec::new();
        let data = &mut self.k.procs.table[id].data;
        copy_from_user(data, &mut self.k.kmem, VA(at), &mut v, n).unwrap();
        v
    }

    /// Puts a string into the memory of the process.
    fn text(&mut self, id: usize, s: &[u8]) -> u64 {
        let at = self.buf + 0x800;
        let mut v = s.to_vec();
        v.push(0);
        self.poke(id, at, &v);
        at
    }

    fn open(&mut self, id: usize, path: &[u8], mode: u64) -> Result<u64, SysError> {
        let p = self.text(id, path);
        self.call(id, Syscall::Open, p, mode, 0)
    }

    fn unlink(&mut self, id: usize, path: &[u8]) -> Result<u64, SysError> {
        let p = self.text(id, path);
        self.call(id, Syscall::Unlink, p, 0, 0)
    }

    fn mkdir(&mut self, id: usize, path: &[u8]) -> Result<u64, SysError> {
        let p = self.text(id, path);
        self.call(id, Syscall::Mkdir, p, 0, 0)
    }

    fn chdir(&mut self, id: usize, path: &[u8]) -> Result<u64, SysError> {
        let p = self.text(id, path);
        self.call(id, Syscall::Chdir, p, 0, 0)
    }

    fn link(&mut self, id: usize, from: &[u8], to: &[u8]) -> Result<u64, SysError> {
        let p = self.text(id, from);
        let q = self.buf + 0xc00;
        let mut v = to.to_vec();
        v.push(0);
        self.poke(id, q, &v);
        self.call(id, Syscall::Link, p, q, 0)
    }

    fn close(&mut self, id: usize, fd: u64) -> Result<u64, SysError> {
        self.call(id, Syscall::Close, fd, 0, 0)
    }

    fn write(&mut self, id: usize, fd: u64, bytes: &[u8]) -> Result<u64, SysError> {
        let at = self.buf;
        self.poke(id, at, bytes);
        self.call(id, Syscall::Write, fd, at, bytes.len() as u64)
    }

    fn read(&mut self, id: usize, fd: u64, n: u64) -> Result<Vec<u8>, SysError> {
        let at = self.buf;
        self.poke(id, at, &vec![0; n as usize]);
        match self.call(id, Syscall::Read, fd, at, n) {
            Ok(got) => Ok(self.peek(id, at, got as usize)),
            Err(e) => Err(e),
        }
    }

    fn pipe(&mut self, id: usize) -> (u64, u64) {
        let at = self.buf;
        self.poke(id, at, &[0; 16]);
        assert_eq!(self.call(id, Syscall::Pipe, at, 0, 0), Ok(0));
        let b = self.peek(id, at, 16);
        (
            u64::from_le_bytes(b[0..8].try_into().unwrap()),
            u64::from_le_bytes(b[8..16].try_into().unwrap()),
        )
    }

    /// Type, number of links and size of an open file.
    fn fstat(&mut self, id: usize, fd: u64) -> (u16, u16, u64) {
        let at = self.buf;
        self.poke(id, at, &[0; 24]);
        assert_eq!(self.call(id, Syscall::Fstat, fd, at, 0), Ok(0));
        let b = self.peek(id, at, 24);
        (
            u16::from_le_bytes([b[8], b[9]]),
            u16::from_le_bytes([b[10], b[11]]),
            u64::from_le_bytes(b[16..24].try_into().unwrap()),
        )
    }

    /// Forks, and gives the PID and the slot of the child.
    fn fork(&mut self, id: usize) -> (u64, usize) {
        let pid = self.call(id, Syscall::Fork, 0, 0, 0).unwrap();
        let slot = (0..NPROC).find(|&i| self.k.procs.table[i].inner.pid == Pid(pid)).unwrap();
        assert_eq!(self.k.procs.table[slot].inner.state, ProcState::Runnable);
        assert_eq!(self.k.procs.table[slot].data.trapframe().a0, 0);
        (pid, slot)
    }

    fn exit(&mut self, id: usize, code: u64) {
        assert_eq!(self.outcome(id, Syscall::Exit, code, 0, 0, 0), Outcome::Exited);
        assert_eq!(self.k.procs.table[id].inner.state, ProcState::Zombie);
    }

    /// Waits for a child: its PID and status.
    fn wait(&mut self, id: usize) -> Result<(u64, i64), SysError> {
        let at = self.buf;
        self.poke(id, at, &[0; 8]);
        let pid = self.call(id, Syscall::Wait, at, 0, 0)?;
        let b = self.peek(id, at, 8);
        Ok((pid, i64::from_le_bytes(b[0..8].try_into().unwrap())))
    }
}

#[test]
fn boots_and_runs_init() {
    let m = Machine::boot(60);
    let p = &m.k.procs.table[0];
    assert_eq!(p.data.name, b"init".to_vec());
    assert_eq!(p.data.trapframe().epc, PGSIZE + 4);
    assert_eq!(p.inner.pid, Pid(1));
    assert_eq!(m.k.procs.init, 0);
}

#[test]
fn init_gets_its_name() {
    let mut m = Machine::boot(60);
    let sp = m.k.procs.table[0].data.trapframe().sp;
    let b = m.peek(0, sp, 16);
    let arg = u64::from_le_bytes(b[0..8].try_into().unwrap());
    assert_eq!(&b[8..16], &[0u8; 8]);
    assert_eq!(m.peek(0, arg, 5), b"init\0".to_vec());
    assert_eq!(m.peek(0, PGSIZE, 16), b"the text of init".to_vec());
}

#[test]
fn fork_ret_later_does_nothing() {
    let mut m = Machine::boot(60);
    let before = *m.k.procs.table[0].data.trapframe();
    let r = fork_ret(
        false,
        &mut m.k.procs.table[0].data,
        &mut m.k.kmem,
        &mut m.k.files.fs,
        CODE.trampoline,
    );
    assert_eq!(r, Ok(()));
    assert_eq!(m.k.procs.table[0].data.trapframe().a0, before.a0);
    assert_eq!(m.k.procs.table[0].data.trapframe().epc, before.epc);
}

// files

#[test]
fn create_write_read() {
    let mut m = Machine::new();
    let fd = m.open(0, b"/fs_rw", CREATE_RW).unwrap();
    assert_eq!(m.write(0, fd, b"hello, octopos!"), Ok(15));
    m.close(0, fd).unwrap();
    let fd = m.open(0, b"/fs_rw", OpenFlag::READ_ONLY).unwrap();
    assert_eq!(m.read(0, fd, 15), Ok(b"hello, octopos!".to_vec()));
    m.close(0, fd).unwrap();
    assert_eq!(m.unlink(0, b"/fs_rw"), Ok(0));
}

#[test]
fn open_nonexistent() {
    let mut m = Machine::new();
    assert_eq!(m.open(0, b"/fs_does_not_exist", OpenFlag::READ_ONLY), Err(SysError::NoEntry));
}

#[test]
fn stat() {
    let mut m = Machine::new();
    let fd = m.open(0, b"/fs_stat", CREATE_RW).unwrap();
    m.write(0, fd, b"hello").unwrap();
    assert_eq!(m.fstat(0, fd), (InodeType::File.to_u16(), 1, 5));
    m.close(0, fd).unwrap();
    m.unlink(0, b"/fs_stat").unwrap();
}

#[test]
fn truncate() {
    let mut m = Machine::new();
    let fd = m.open(0, b"/fs_trunc", CREATE_RW).unwrap();
    m.write(0, fd, b"some data").unwrap();
    m.close(0, fd).unwrap();
    let fd = m.open(0, b"/fs_trunc", OpenFlag::WRITE_ONLY | OpenFlag::TRUNCATE).unwrap();
    m.close(0, fd).unwrap();
    let fd = m.open(0, b"/fs_trunc", OpenFlag::READ_ONLY).unwrap();
    assert_eq!(m.read(0, fd, 16), Ok(vec![]));
    m.close(0, fd).unwrap();
    m.unlink(0, b"/fs_trunc").unwrap();
}

#[test]
fn link_and_unlink() {
    let mut m = Machine::new();
    let fd = m.open(0, b"/fs_link_a", CREATE_RW).unwrap();
    m.write(0, fd, b"linked").unwrap();
    m.close(0, fd).unwrap();
    assert_eq!(m.link(0, b"/fs_link_a", b"/fs_link_b"), Ok(0));
    let fd = m.open(0, b"/fs_link_b", OpenFlag::READ_ONLY).unwrap();
    assert_eq!(m.fstat(0, fd).1, 2);
    m.close(0, fd).unwrap();
    m.unlink(0, b"/fs_link_a").unwrap();
    let fd = m.open(0, b"/fs_link_b", OpenFlag::READ_ONLY).unwrap();
    assert_eq!(m.fstat(0, fd).1, 1);
    assert_eq!(m.read(0, fd, 6), Ok(b"linked".to_vec()));
    m.close(0, fd).unwrap();
    m.unlink(0, b"/fs_link_b").unwrap();
    assert_eq!(m.open(0, b"/fs_link_b", OpenFlag::READ_ONLY), Err(SysError::NoEntry));
}

#[test]
fn directories() {
    let mut m = Machine::new();
    assert_eq!(m.mkdir(0, b"/fs_dir"), Ok(0));
    let fd = m.open(0, b"/fs_dir", OpenFlag::READ_ONLY).unwrap();
    assert_eq!(m.fstat(0, fd).0, InodeType::Directory.to_u16());
    m.close(0, fd).unwrap();
    let fd = m.open(0, b"/fs_dir/inner", CREATE_RW).unwrap();
    m.write(0, fd, b"inner").unwrap();
    m.close(0, fd).unwrap();
    assert_eq!(m.unlink(0, b"/fs_dir"), Err(SysError::NotEmpty));
    m.unlink(0, b"/fs_dir/inner").unwrap();
    assert_eq!(m.unlink(0, b"/fs_dir"), Ok(0));
    assert_eq!(m.chdir(0, b"/fs_dir"), Err(SysError::NoEntry));
}

#[test]
fn relative_paths() {
    let mut m = Machine::new();
    m.mkdir(0, b"/a").unwrap();
    m.mkdir(0, b"/a/b").unwrap();
    assert_eq!(m.chdir(0, b"/a/b"), Ok(0));
    let fd = m.open(0, b"file", CREATE_RW).unwrap();
    m.write(0, fd, b"x").unwrap();
    m.close(0, fd).unwrap();
    assert_eq!(m.chdir(0, b".."), Ok(0));
    let fd = m.open(0, b"b//file", OpenFlag::READ_ONLY).unwrap();
    assert_eq!(m.read(0, fd, 4), Ok(b"x".to_vec()));
    m.close(0, fd).unwrap();
    assert_eq!(m.chdir(0, b"/init"), Err(SysError::NotDirectory));
}

#[test]
fn read_at_end_of_file() {
    let mut m = Machine::new();
    let fd = m.open(0, b"/fs_eof", CREATE_RW).unwrap();
    m.write(0, fd, b"eof").unwrap();
    m.close(0, fd).unwrap();
    let fd = m.open(0, b"/fs_eof", OpenFlag::READ_ONLY).unwrap();
    assert_eq!(m.read(0, fd, 16), Ok(b"eof".to_vec()));
    assert_eq!(m.read(0, fd, 16), Ok(vec![]));
}

#[test]
fn open_flags() {
    let mut m = Machine::new();
    let fd = m.open(0, b"/fs_flags", CREATE_RW).unwrap();
    m.write(0, fd, b"content").unwrap();
    m.close(0, fd).unwrap();
    let fd = m.open(0, b"/fs_flags", OpenFlag::READ_ONLY).unwrap();
    assert_eq!(m.write(0, fd, b"nope"), Err(SysError::BadDescriptor));
    m.close(0, fd).unwrap();
    let fd = m.open(0, b"/fs_flags", OpenFlag::WRITE_ONLY).unwrap();
    assert_eq!(m.read(0, fd, 8), Err(SysError::BadDescriptor));
}

#[test]
fn link_errors() {
    let mut m = Machine::new();
    assert_eq!(m.link(0, b"/nothing", b"/x"), Err(SysError::NoEntry));
    m.mkdir(0, b"/d").unwrap();
    assert_eq!(m.link(0, b"/d", b"/x"), Err(SysError::NotPermitted));
    assert_eq!(m.link(0, b"/init", b"/junk"), Err(SysError::AlreadyExists));
    assert_eq!(m.unlink(0, b"/nothing"), Err(SysError::NoEntry));
    assert_eq!(m.unlink(0, b"/d/."), Err(SysError::InvalidArgument));
}

#[test]
fn directory_cannot_be_written() {
    let mut m = Machine::new();
    m.mkdir(0, b"/d").unwrap();
    assert_eq!(m.open(0, b"/d", OpenFlag::READ_WRITE), Err(SysError::IsDirectory));
}

#[test]
fn image_is_read_back() {
    let mut m = Machine::new();
    let fd = m.open(0, b"/big", OpenFlag::READ_ONLY).unwrap();
    assert_eq!(m.fstat(0, fd), (InodeType::File.to_u16(), 1, 30_000));
    let mut all = Vec::new();
    loop {
        let part = m.read(0, fd, 2000).unwrap();
        if part.is_empty() {
            break;
        }
        all.extend_from_slice(&part);
    }
    assert_eq!(all.len(), 30_000);
    assert!(all.iter().enumerate().all(|(i, &b)| b == (i % 251) as u8));
}

#[test]
fn written_through_the_indirect_block() {
    let mut m = Machine::new();
    let fd = m.open(0, b"/large", CREATE_RW).unwrap();
    for i in 0..20u8 {
        assert_eq!(m.write(0, fd, &[i; 1000]), Ok(1000));
    }
    m.close(0, fd).unwrap();
    let fd = m.open(0, b"/large", OpenFlag::READ_ONLY).unwrap();
    for i in 0..20u8 {
        assert_eq!(m.read(0, fd, 1000), Ok(vec![i; 1000]));
    }
    assert_eq!(m.read(0, fd, 1000), Ok(vec![]));
    m.close(0, fd).unwrap();
    m.unlink(0, b"/large").unwrap();
}

#[test]
fn path_resolution() {
    let mut m = Machine::new();
    let cwd = m.k.procs.table[0].data.cwd;
    let root = Path::new(b"/").resolve(&mut m.k.files.fs, &cwd).unwrap();
    assert_eq!(root.inum, 1);
    let init = Path::new(b"///init").resolve(&mut m.k.files.fs, &cwd).unwrap();
    assert_eq!(init.inum, 2);
    let (parent, name) = Path::new(b"/x/").resolve_parent(&mut m.k.files.fs, &cwd).unwrap();
    assert_eq!(parent.inum, 1);
    assert_eq!(name, b"x");
}

#[test]
fn parent_and_path_agree() {
    let mut m = Machine::new();
    m.mkdir(0, b"/d").unwrap();
    let fd = m.open(0, b"/d/f", CREATE_RW).unwrap();
    m.close(0, fd).unwrap();
    let cwd = m.k.procs.table[0].data.cwd;
    let fs = &mut m.k.files.fs;
    let file = Path::new(b"/d/f").resolve(fs, &cwd).unwrap();
    let (dir, name) = Path::new(b"/d/f").resolve_parent(fs, &cwd).unwrap();
    assert_eq!(Path::new(name).resolve(fs, &dir).unwrap(), file);
    let refs = |fs: &Fs| fs.itable.meta.iter().map(|m| m.refs).collect::<Vec<_>>();
    let before = refs(fs);
    assert_eq!(Path::new(b"//").resolve_parent(fs, &cwd).err(), Some(FsError::Resolve));
    assert_eq!(Path::new(b"/d/none").resolve(fs, &cwd).err(), Some(FsError::Resolve));
    assert_eq!(Path::new(b"/d/f/x").resolve(fs, &cwd).err(), Some(FsError::Resolve));
    assert_eq!(Path::new(b"/d/f/x").resolve_parent(fs, &cwd).err(), Some(FsError::Resolve));
    assert_eq!(refs(fs), before);
    assert!(Path::new(b"/d/none").resolve_parent(fs, &cwd).is_ok());
}

#[test]
fn blocks_of_a_file() {
    let mut m = Machine::new();
    let cwd = m.k.procs.table[0].data.cwd;
    let fs = &mut m.k.files.fs;
    let sb = fs.superblock();
    fs.begin_op();
    let inode = Path::new(b"/junk").resolve(fs, &cwd).unwrap();
    let mut guard = inode.lock(fs);
    let direct = inode.map(&mut fs.store, &sb, &mut guard, 3).unwrap();
    let indirect = inode.map(&mut fs.store, &sb, &mut guard, 12).unwrap();
    let other = inode.map(&mut fs.store, &sb, &mut guard, 13).unwrap();
    assert!(direct != 0 && indirect != 0 && other != 0);
    assert!(direct != indirect && indirect != other && direct != other);
    assert_eq!(inode.map(&mut fs.store, &sb, &mut guard, 3), Ok(direct));
    assert_eq!(inode.map(&mut fs.store, &sb, &mut guard, 12), Ok(indirect));
    assert_eq!(inode.map(&mut fs.store, &sb, &mut guard, 268), Err(FsError::OutOfRange));
    inode.unlock_put(fs, guard);
    fs.end_op();
}

#[test]
fn directory_grows_by_an_entry() {
    let mut m = Machine::new();
    m.mkdir(0, b"/d").unwrap();
    let d = m.open(0, b"/d", OpenFlag::READ_ONLY).unwrap();
    assert_eq!(m.fstat(0, d).2, 32);
    m.link(0, b"/junk", b"/d/a").unwrap();
    assert_eq!(m.fstat(0, d).2, 48);
    m.link(0, b"/junk", b"/d/b").unwrap();
    assert_eq!(m.fstat(0, d).2, 64);
    // a name that is there already is refused, and nothing changes
    assert!(m.link(0, b"/junk", b"/d/a").is_err());
    assert_eq!(m.fstat(0, d).2, 64);
    // the place of an entry that was removed is used again
    m.unlink(0, b"/d/a").unwrap();
    m.link(0, b"/junk", b"/d/c").unwrap();
    assert_eq!(m.fstat(0, d).2, 64);
    assert!(m.open(0, b"/d/b", OpenFlag::READ_ONLY).is_ok());
}

// descriptors

#[test]
fn dup_shares_the_offset() {
    let mut m = Machine::new();
    let fd = m.open(0, b"/fd_dup_off", CREATE_RW).unwrap();
    m.write(0, fd, b"abcdef").unwrap();
    m.close(0, fd).unwrap();
    let fd = m.open(0, b"/fd_dup_off", OpenFlag::READ_ONLY).unwrap();
    let fd2 = m.call(0, Syscall::Dup, fd, 0, 0).unwrap();
    assert_eq!(m.read(0, fd, 3), Ok(b"abc".to_vec()));
    assert_eq!(m.read(0, fd2, 3), Ok(b"def".to_vec()));
    m.close(0, fd).unwrap();
    m.close(0, fd2).unwrap();
}

#[test]
fn dup_keeps_the_write_end_open() {
    let mut m = Machine::new();
    let (r, w) = m.pipe(0);
    let w2 = m.call(0, Syscall::Dup, w, 0, 0).unwrap();
    m.close(0, w).unwrap();
    assert_eq!(m.write(0, w2, b"hello"), Ok(5));
    m.close(0, w2).unwrap();
    assert_eq!(m.read(0, r, 8), Ok(b"hello".to_vec()));
    assert_eq!(m.read(0, r, 8), Ok(vec![]));
    m.close(0, r).unwrap();
}

#[test]
fn descriptors_are_inherited() {
    let mut m = Machine::new();
    let fd = m.open(0, b"/fd_inherit", CREATE_RW).unwrap();
    m.write(0, fd, b"inherited").unwrap();
    m.close(0, fd).unwrap();
    let fd = m.open(0, b"/fd_inherit", OpenFlag::READ_ONLY).unwrap();
    let (pid, child) = m.fork(0);
    assert_eq!(m.read(child, fd, 9), Ok(b"inherited".to_vec()));
    m.close(child, fd).unwrap();
    m.exit(child, 0);
    m.close(0, fd).unwrap();
    assert_eq!(m.wait(0), Ok((pid, 0)));
}

#[test]
fn offset_is_inherited() {
    let mut m = Machine::new();
    let fd = m.open(0, b"/fd_shared_off", CREATE_RW).unwrap();
    m.write(0, fd, b"ABCDEF").unwrap();
    m.close(0, fd).unwrap();
    let fd = m.open(0, b"/fd_shared_off", OpenFlag::READ_ONLY).unwrap();
    assert_eq!(m.read(0, fd, 3), Ok(b"ABC".to_vec()));
    let (_, child) = m.fork(0);
    assert_eq!(m.read(child, fd, 3), Ok(b"DEF".to_vec()));
}

#[test]
fn descriptors_run_out() {
    let mut m = Machine::new();
    let fd = m.open(0, b"/fd_limit", CREATE_RW).unwrap();
    m.close(0, fd).unwrap();
    let mut fds = vec![];
    loop {
        match m.open(0, b"/fd_limit", OpenFlag::READ_ONLY) {
            Ok(fd) => fds.push(fd),
            Err(e) => {
                assert_eq!(e, SysError::TooManyFiles);
                break;
            }
        }
    }
    assert_eq!(fds.len(), NOFILE - 3);
    for fd in fds {
        m.close(0, fd).unwrap();
    }
    assert_eq!(m.open(0, b"/fd_limit", OpenFlag::READ_ONLY), Ok(3));
}

#[test]
fn bad_descriptors() {
    let mut m = Machine::new();
    assert_eq!(m.close(0, 7), Err(SysError::BadDescriptor));
    assert_eq!(m.close(0, 99), Err(SysError::BadDescriptor));
    assert_eq!(m.call(0, Syscall::Dup, 5, 0, 0), Err(SysError::BadDescriptor));
}

#[test]
fn child_gives_files_back() {
    let mut m = Machine::new();
    let fd = m.open(0, b"/counted", CREATE_RW).unwrap();
    let counts = |m: &Machine| -> Vec<u64> {
        m.k.files.table.meta.iter().map(|meta| meta.ref_count).collect()
    };
    let before = counts(&m);
    let (_, child) = m.fork(0);
    // the console is open three times, the file once
    assert_eq!(counts(&m)[0], before[0] + 3);
    assert_eq!(counts(&m)[1], before[1] + 1);
    m.exit(child, 0);
    assert_eq!(counts(&m), before);
    m.close(0, fd).unwrap();
    assert_eq!(counts(&m)[1], before[1] - 1);
}

// pipes

#[test]
fn pipe_read_write() {
    let mut m = Machine::new();
    let (r, w) = m.pipe(0);
    assert_eq!((r, w), (3, 4));
    assert_eq!(m.write(0, w, b"pipe test data"), Ok(14));
    m.close(0, w).unwrap();
    assert_eq!(m.read(0, r, 32), Ok(b"pipe test data".to_vec()));
    assert_eq!(m.read(0, r, 32), Ok(vec![]));
    m.close(0, r).unwrap();
    assert!(m.k.files.pipes.is_empty());
}

#[test]
fn pipe_read_sleeps_until_write() {
    let mut m = Machine::new();
    let (r, w) = m.pipe(0);
    let (pid, child) = m.fork(0);
    m.close(0, w).unwrap();
    let at = m.buf;
    let slept = m.outcome(0, Syscall::Read, r, at, 8, 0);
    assert!(matches!(slept, Outcome::Sleep(0, Channel::PipeRead(_))));
    assert_eq!(m.k.procs.table[0].inner.state, ProcState::Sleeping);
    m.close(child, r).unwrap();
    m.write(child, w, b"hello").unwrap();
    assert_eq!(m.k.procs.table[0].inner.state, ProcState::Runnable);
    m.exit(child, 0);
    // it goes on in its call, and sleeps on nothing any more
    assert!(m.k.procs.table[0].inner.channel.is_some());
    assert_eq!(m.k.resume(0, 0), Leave::Return { turn: false });
    assert_eq!(m.k.procs.table[0].inner.channel, None);
    assert_eq!(m.k.procs.table[0].data.trapframe().a0, 5);
    assert_eq!(m.peek(0, at, 5), b"hello".to_vec());
    assert_eq!(m.wait(0), Ok((pid, 0)));
}

#[test]
fn broken_pipe() {
    let mut m = Machine::new();
    let (r, w) = m.pipe(0);
    m.close(0, r).unwrap();
    assert_eq!(m.write(0, w, b"data"), Err(SysError::BrokenPipe));
}

#[test]
fn parent_writes_child_reads() {
    let mut m = Machine::new();
    let (r, w) = m.pipe(0);
    let (pid, child) = m.fork(0);
    m.close(0, r).unwrap();
    m.write(0, w, b"octopos").unwrap();
    m.close(0, w).unwrap();
    m.close(child, w).unwrap();
    assert_eq!(m.read(child, r, 16), Ok(b"octopos".to_vec()));
    m.exit(child, 0);
    assert_eq!(m.wait(0), Ok((pid, 0)));
}

#[test]
fn pipe_fills_up() {
    let mut m = Machine::new();
    let (r, w) = m.pipe(0);
    let at = m.buf;
    m.poke(0, at, &[0xab; 600]);
    // there is room for 512 bytes
    let slept = m.outcome(0, Syscall::Write, w, at, 600, 0);
    assert!(matches!(slept, Outcome::Sleep(512, Channel::PipeWrite(_))));
    let (_, child) = m.fork(0);
    assert_eq!(m.read(child, r, 64), Ok(vec![0xab; 64]));
    assert_eq!(m.read(child, r, 64), Ok(vec![0xab; 64]));
    // and the call goes on where it was
    assert_eq!(m.outcome(0, Syscall::Write, w, at, 600, 512), Outcome::Done(Ok(600)));
    m.close(0, w).unwrap();
    m.close(child, w).unwrap();
    let mut total = 128;
    loop {
        let part = m.read(child, r, 64).unwrap();
        if part.is_empty() {
            break;
        }
        assert!(part.iter().all(|&b| b == 0xab));
        total += part.len();
    }
    assert_eq!(total, 600);
}

// processes

#[test]
fn child_has_another_pid() {
    let mut m = Machine::new();
    let parent = m.call(0, Syscall::Getpid, 0, 0, 0).unwrap();
    assert!(parent > 0);
    let (pid, child) = m.fork(0);
    assert_eq!(m.call(child, Syscall::Getpid, 0, 0, 0), Ok(pid));
    assert!(pid != parent);
}

#[test]
fn wait_without_children() {
    let mut m = Machine::new();
    assert_eq!(m.wait(0), Err(SysError::NoChildren));
}

#[test]
fn many_children() {
    let mut m = Machine::new();
    let mut pids = vec![];
    for i in 0..4u64 {
        let (pid, child) = m.fork(0);
        pids.push((pid, i + 1, child));
    }
    for &(_, code, child) in pids.iter().rev() {
        m.exit(child, code);
    }
    let mut seen = vec![];
    for _ in 0..4 {
        seen.push(m.wait(0).unwrap());
    }
    for (pid, code, _) in pids {
        assert_eq!(seen.iter().filter(|&&s| s == (pid, code as i64)).count(), 1);
    }
    assert_eq!(m.wait(0), Err(SysError::NoChildren));
}

#[test]
fn wait_sleeps_until_exit() {
    let mut m = Machine::new();
    let (pid, child) = m.fork(0);
    let at = m.buf;
    let slept = m.outcome(0, Syscall::Wait, at, 0, 0, 0);
    assert!(matches!(slept, Outcome::Sleep(_, _)));
    assert_eq!(m.k.procs.table[0].inner.state, ProcState::Sleeping);
    m.exit(child, 3);
    assert_eq!(m.k.procs.table[0].inner.state, ProcState::Runnable);
    assert_eq!(m.wait(0), Ok((pid, 3)));
    assert_eq!(m.k.procs.table[child].inner.state, ProcState::Unused);
}

#[test]
fn killed_child() {
    let mut m = Machine::new();
    let (pid, child) = m.fork(0);
    let slept = m.outcome(child, Syscall::Sleep, 100, 0, 0, 0);
    assert!(matches!(slept, Outcome::Sleep(_, Channel::Ticks)));
    assert_eq!(m.call(0, Syscall::Kill, pid, 0, 0), Ok(0));
    assert_eq!(m.k.procs.table[child].inner.state, ProcState::Runnable);
    assert!(m.k.procs.table[child].inner.killed);
    // it goes on, and is ended on its way to user space
    assert_eq!(m.k.resume(child, 0), Leave::Exited);
    assert_eq!(m.wait(0), Ok((pid, -1)));
}

#[test]
fn kill_invalid_pid() {
    let mut m = Machine::new();
    assert_eq!(m.call(0, Syscall::Kill, 0, 0, 0), Err(SysError::NoProcess));
    assert_eq!(m.call(0, Syscall::Kill, 77, 0, 0), Err(SysError::NoProcess));
}

#[test]
fn only_own_children() {
    let mut m = Machine::new();
    let (shell_pid, shell) = m.fork(0);
    let (pid, child) = m.fork(shell);
    let (grand_pid, grandchild) = m.fork(child);
    m.exit(child, 0);
    assert_eq!(m.wait(shell), Ok((pid, 0)));
    assert_eq!(m.wait(shell), Err(SysError::NoChildren));
    // the first process has adopted the grandchild
    assert_eq!(m.k.procs.parents[grandchild], Some(0));
    m.exit(grandchild, 9);
    assert_eq!(m.wait(0), Ok((grand_pid, 9)));
    m.exit(shell, 2);
    assert_eq!(m.wait(0), Ok((shell_pid, 2)));
}

#[test]
fn unknown_call() {
    let mut m = Machine::new();
    m.k.procs.table[0].data.trapframe_mut().a7 = 999;
    assert_eq!(m.k.syscall(0, 0), Outcome::Done(Err(SysError::NotImplemented)));
}

#[test]
fn uptime_and_sleep() {
    let mut m = Machine::new();
    assert_eq!(m.call(0, Syscall::Uptime, 0, 0, 0), Ok(0));
    let started = match m.outcome(0, Syscall::Sleep, 2, 0, 0, 0) {
        Outcome::Sleep(started, Channel::Ticks) => started,
        other => panic!("{:?}", other),
    };
    m.k.clock_intr(0, 1000, None);
    assert_eq!(m.k.procs.table[0].inner.state, ProcState::Runnable);
    assert!(matches!(
        m.outcome(0, Syscall::Sleep, 2, 0, 0, started),
        Outcome::Sleep(_, Channel::Ticks)
    ));
    m.k.clock_intr(0, 2000, None);
    assert_eq!(m.outcome(0, Syscall::Sleep, 2, 0, 0, started), Outcome::Done(Ok(0)));
    assert_eq!(m.call(0, Syscall::Uptime, 0, 0, 0), Ok(2));
}

#[test]
fn poweroff() {
    let mut m = Machine::new();
    assert!(matches!(m.outcome(0, Syscall::Poweroff, 0, 0, 0, 0), Outcome::Poweroff(_)));
}

// memory

#[test]
fn copy_on_write() {
    let mut m = Machine::new();
    let at = m.buf;
    m.poke(0, at, &42u32.to_le_bytes());
    let (pid, child) = m.fork(0);
    m.poke(child, at, &99u32.to_le_bytes());
    assert_eq!(m.peek(child, at, 4), 99u32.to_le_bytes().to_vec());
    assert_eq!(m.peek(0, at, 4), 42u32.to_le_bytes().to_vec());
    m.exit(child, 0);
    assert_eq!(m.call(0, Syscall::Wait, 0, 0, 0), Ok(pid));
    assert_eq!(m.peek(0, at, 4), 42u32.to_le_bytes().to_vec());
}

#[test]
fn kernel_writes_copy_shared_pages() {
    let mut m = Machine::new();
    let (r, w) = m.pipe(0);
    let at = m.buf;
    m.poke(0, at, b"before..");
    let (pid, child) = m.fork(0);
    m.poke(0, at + 0x1000, b"hello");
    assert_eq!(m.call(0, Syscall::Write, w, at + 0x1000, 5), Ok(5));
    // the page at `at` is still shared when the kernel writes to it for the child
    assert_eq!(m.call(child, Syscall::Read, r, at, 5), Ok(5));
    assert_eq!(m.peek(child, at, 8), b"helloe..".to_vec());
    assert_eq!(m.peek(0, at, 8), b"before..".to_vec());
    let (_, other) = m.fork(0);
    m.exit(child, 7);
    assert_eq!(m.call(0, Syscall::Wait, at, 0, 0), Ok(pid));
    assert_eq!(m.peek(0, at, 8), 7u64.to_le_bytes().to_vec());
    assert_eq!(m.peek(other, at, 8), b"before..".to_vec());
}

#[test]
fn pids_start_at_one() {
    let mut m = Machine::new();
    assert_eq!(m.call(0, Syscall::Getpid, 0, 0, 0), Ok(1));
    let (a, _) = m.fork(0);
    let (b, _) = m.fork(0);
    assert_eq!((a, b), (2, 3));
}

#[test]
fn fork_chain() {
    let mut m = Machine::new();
    let at = m.buf;
    m.poke(0, at, &[0]);
    for i in 1..5u8 {
        let (pid, child) = m.fork(0);
        m.poke(child, at, &[i]);
        assert_eq!(m.peek(child, at, 1), vec![i]);
        m.exit(child, 0);
        assert_eq!(m.call(0, Syscall::Wait, 0, 0, 0), Ok(pid));
    }
    assert_eq!(m.peek(0, at, 1), vec![0]);
}

#[test]
fn full_page() {
    let mut m = Machine::new();
    let base = m.call(0, Syscall::Sbrk, 0x1000, 0, 0).unwrap();
    let pattern: Vec<u8> = (0..0x1000u32).map(|i| (i & 0xff) as u8).collect();
    m.poke(0, base, &pattern);
    let (_, child) = m.fork(0);
    assert_eq!(m.peek(child, base, 0x1000), pattern);
    m.poke(child, base, &[0xff; 0x1000]);
    assert_eq!(m.peek(0, base, 0x1000), pattern);
    assert_eq!(m.peek(child, base, 0x1000), vec![0xff; 0x1000]);
}

#[test]
fn lazy_page() {
    let mut m = Machine::new();
    let base = m.call(0, Syscall::Sbrk, 0x1000, 0, 0).unwrap();
    let (_, child) = m.fork(0);
    m.poke(child, base, &[42]);
    assert_eq!(m.peek(child, base, 1), vec![42]);
    assert_eq!(m.peek(0, base, 1), vec![0]);
}

#[test]
fn memory_is_given_back() {
    let mut m = Machine::new();
    let (_, child) = m.fork(0);
    m.exit(child, 0);
    m.wait(0).unwrap();
    let before = frames_left(m.k.kmem);
    let mut m = Machine::new();
    for _ in 0..5 {
        let (_, child) = m.fork(0);
        let at = m.buf;
        m.poke(child, at, &[1; 0x400]);
        m.exit(child, 0);
        m.wait(0).unwrap();
    }
    assert_eq!(before, frames_left(m.k.kmem));
}

#[test]
fn sbrk_grows_and_shrinks() {
    let mut m = Machine::new();
    let size = m.k.procs.table[0].data.size;
    assert_eq!(m.call(0, Syscall::Sbrk, 100, 0, 0), Ok(size));
    assert_eq!(m.k.procs.table[0].data.size, size + 100);
    assert_eq!(m.call(0, Syscall::Sbrk, (-100i64) as u64, 0, 0), Ok(size + 100));
    assert_eq!(m.k.procs.table[0].data.size, size);
    let data = &mut m.k.procs.table[0].data;
    assert!(grow(data, &mut m.k.kmem, 0x1000, false).is_ok());
    assert_eq!(m.peek(0, size, 4), vec![0; 4]);
}

#[test]
fn shrinking_too_much() {
    let mut m = Machine::new();
    let size = m.k.procs.table[0].data.size as i64;
    let r = m.call(0, Syscall::Sbrk, (-(size + 1)) as u64, 0, 0);
    assert_eq!(r, Err(SysError::OutOfMemory));
    assert_eq!(m.k.procs.table[0].data.size as i64, size);
}

#[test]
fn protected_page() {
    let mut m = Machine::new();
    let addr = m.call(0, Syscall::Sbrk, 0x1000, 0, 0).unwrap();
    m.poke(0, addr, &[0xff]);
    assert_eq!(m.call(0, Syscall::Mprotect, addr, 0, 0), Ok(0));
    assert_eq!(m.peek(0, addr, 1), vec![0xff]);
    let data = &mut m.k.procs.table[0].data;
    assert!(copy_to_user(data, &mut m.k.kmem, &[1], VA(addr)).is_err());
    assert_eq!(m.call(0, Syscall::Munprotect, addr, 0, 0), Ok(0));
    m.poke(0, addr, &[2]);
    assert_eq!(m.peek(0, addr, 1), vec![2]);
    // not at the start of a page, and beyond the memory of the process
    assert_eq!(m.call(0, Syscall::Mprotect, 1, 0, 0), Err(SysError::InvalidArgument));
    let far = m.call(0, Syscall::Mprotect, 32 * 1024 * 1024, 0, 0);
    assert!(far == Err(SysError::InvalidArgument) || far == Err(SysError::BadAddress));
}

#[test]
fn writing_a_protected_page_kills() {
    let mut m = Machine::new();
    let (pid, child) = m.fork(0);
    let addr = m.call(child, Syscall::Sbrk, 0x1000, 0, 0).unwrap();
    m.poke(child, addr, &[0xaa]);
    m.call(child, Syscall::Mprotect, addr, 0, 0).unwrap();
    let (left, message) =
        m.k.usertrap(child, 0, Trap::Exception(Exception::StorePageFault), 0x1000, addr, None);
    assert_eq!(left, Leave::Exited);
    assert!(message.is_some());
    assert_eq!(m.wait(0), Ok((pid, -1)));
}

#[test]
fn null_pointer_kills() {
    let mut m = Machine::new();
    let (pid, child) = m.fork(0);
    let (left, message) =
        m.k.usertrap(child, 0, Trap::Exception(Exception::LoadPageFault), 0x1000, 0, None);
    assert_eq!(left, Leave::Exited);
    assert_eq!(message, Some(Message::Segfault));
    assert_eq!(m.wait(0), Ok((pid, -1)));
}

#[test]
fn used_memory() {
    let mut m = Machine::new();
    let r = m.call(0, Syscall::Getusedmem, 0, 0, 0);
    assert_eq!(r, Err(SysError::ResourceUnavailable));
}

// traps

#[test]
fn call_through_a_trap() {
    let mut m = Machine::new();
    let frame = m.k.procs.table[0].data.trapframe_mut();
    frame.a7 = Syscall::Getpid.to_u64();
    let (left, message) =
        m.k.usertrap(0, 0, Trap::Exception(Exception::EnvironmentCall), 0x1000, 0, None);
    assert_eq!(left, Leave::Return { turn: false });
    assert_eq!(message, None);
    let frame = m.k.procs.table[0].data.trapframe();
    assert_eq!(frame.a0, 1);
    assert_eq!(frame.epc, 0x1004);
}

#[test]
fn timer_takes_the_cpu_away() {
    let mut m = Machine::new();
    let trap = Trap::Interrupt(Interrupt::SupervisorTimer);
    let (left, message) = m.k.usertrap(0, 0, trap, 0x1000, 0, Some(InterruptType::Timer));
    assert_eq!(left, Leave::Return { turn: true });
    assert_eq!(message, None);
    assert_eq!(m.k.procs.table[0].data.trapframe().epc, 0x1000);
}

#[test]
fn lazy_page_through_a_fault() {
    let mut m = Machine::new();
    let base = m.call(0, Syscall::Sbrk, 0x1000, 0, 0).unwrap();
    let trap = Trap::Exception(Exception::StorePageFault);
    let (left, message) = m.k.usertrap(0, 0, trap, 0x1000, base + 5, None);
    assert_eq!(left, Leave::Return { turn: false });
    assert_eq!(message, None);
    assert_eq!(m.peek(0, base, 4), vec![0; 4]);
}

#[test]
fn illegal_instruction_kills() {
    let mut m = Machine::new();
    let (pid, child) = m.fork(0);
    let trap = Trap::Exception(Exception::IllegalInstruction);
    let (left, message) = m.k.usertrap(child, 0, trap, 0x1000, 0, None);
    assert_eq!(left, Leave::Exited);
    assert_eq!(message, Some(Message::Segfault));
    assert_eq!(m.wait(0), Ok((pid, -1)));
    let (pid, child) = m.fork(0);
    let trap = Trap::Exception(Exception::Breakpoint);
    let (left, message) = m.k.usertrap(child, 0, trap, 0x1000, 0, None);
    assert_eq!((left, message), (Leave::Exited, Some(Message::Unexpected)));
    assert_eq!(m.wait(0), Ok((pid, -1)));
}

// programs

#[test]
fn exec_replaces_the_program() {
    let mut m = Machine::new();
    let (_, child) = m.fork(0);
    let path = m.text(child, b"/init");
    let argv = m.buf;
    let words = m.buf + 0x100;
    m.poke(child, words, b"one\0two\0");
    let mut v = words.to_le_bytes().to_vec();
    v.extend_from_slice(&(words + 4).to_le_bytes());
    v.extend_from_slice(&0u64.to_le_bytes());
    m.poke(child, argv, &v);
    assert_eq!(m.call(child, Syscall::Exec, path, argv, 0), Ok(2));
    let sp = m.k.procs.table[child].data.trapframe().sp;
    assert_eq!(sp % 16, 0);
    let b = m.peek(child, sp, 24);
    let second = u64::from_le_bytes(b[8..16].try_into().unwrap());
    assert_eq!(m.peek(child, second, 4), b"two\0".to_vec());
    assert_eq!(&b[16..24], &[0u8; 8]);
}

/// The frames and flags of the trampoline and the trap frame in the memory of a process.
fn reserved(m: &Machine, id: usize) -> [(u64, u64); 2] {
    let uvm = m.k.procs.table[id].data.pagetable.as_ref().unwrap();
    [TRAMPOLINE, TRAPFRAME].map(|va| {
        let pte = uvm.0.walk(&m.k.kmem, VA(va)).unwrap();
        (pte.as_pa().0, pte.flags())
    })
}

#[test]
fn reserved_pages_lead_to_their_frames() {
    let mut m = Machine::new();
    let (_, child) = m.fork(0);
    let frame = |m: &Machine, id: usize| m.k.procs.table[id].data.trapframe.as_ref().unwrap().pa;
    assert_ne!(frame(&m, 0), frame(&m, child));
    for id in [0, child] {
        assert_eq!(reserved(&m, id), [(CODE.trampoline, 0xb), (frame(&m, id), 0x7)]);
    }
    let path = m.text(child, b"/init");
    let argv = m.buf;
    m.poke(child, argv, &[0; 8]);
    assert_eq!(m.call(child, Syscall::Exec, path, argv, 0), Ok(0));
    assert_eq!(reserved(&m, child), [(CODE.trampoline, 0xb), (frame(&m, child), 0x7)]);
    m.call(0, Syscall::Sbrk, 0x3000, 0, 0).unwrap();
    assert_eq!(reserved(&m, 0), [(CODE.trampoline, 0xb), (frame(&m, 0), 0x7)]);
}

#[test]
fn program_that_is_too_large() {
    let mut m = Machine::new();
    let huge = program(PGSIZE, 5, b"text", u64::MAX - PGSIZE - 100);
    let fd = m.open(0, b"/huge", CREATE_RW).unwrap();
    m.write(0, fd, &huge).unwrap();
    m.close(0, fd).unwrap();
    let argv = m.buf;
    m.poke(0, argv, &[0; 8]);
    let path = m.text(0, b"/huge");
    assert_eq!(m.call(0, Syscall::Exec, path, argv, 0), Err(SysError::InvalidExecutable));
    assert_eq!(m.peek(0, PGSIZE, 8), b"the text".to_vec());
}

#[test]
fn entries_after_faults() {
    let mut m = Machine::new();
    let at = m.buf;
    m.poke(0, at, &[1]);
    let (_, child) = m.fork(0);
    let entry = |m: &Machine, id: usize| {
        let uvm = m.k.procs.table[id].data.pagetable.as_ref().unwrap();
        uvm.0.walk(&m.k.kmem, VA(at)).unwrap()
    };
    // shared: valid, readable, for users and to be copied
    assert_eq!(entry(&m, child), entry(&m, 0));
    assert_eq!(entry(&m, child).flags(), 0x113);
    m.poke(child, at, &[2]);
    let new = entry(&m, child);
    assert_ne!(new.as_pa(), entry(&m, 0).as_pa());
    assert_eq!(new.0, new.as_pa().as_pte().0 | 0x17);
}

#[test]
fn exec_errors() {
    let mut m = Machine::new();
    let argv = m.buf;
    m.poke(0, argv, &[0; 8]);
    let path = m.text(0, b"/junk");
    assert_eq!(m.call(0, Syscall::Exec, path, argv, 0), Err(SysError::InvalidExecutable));
    let path = m.text(0, b"/missing");
    assert_eq!(m.call(0, Syscall::Exec, path, argv, 0), Err(SysError::InvalidExecutable));
    // the process goes on as it was
    assert_eq!(m.k.procs.table[0].data.name, b"init".to_vec());
    assert_eq!(m.peek(0, PGSIZE, 8), b"the text".to_vec());
}

#[test]
fn headers_are_decoded() {
    let elf = program(0x2000, 6, b"abc", 0x500);
    let h = ElfHeader::from_bytes(&elf[0..64]);
    assert_eq!((h.entry, h.phoff, h.phnum), (0x2004, 64, 1));
    assert_eq!(h.magic, octopos::exec::ELF_MAGIC);
    let p = ProgramHeader::from_bytes(&elf[64..120]);
    assert_eq!((p.typ, p.vaddr, p.offset, p.filesz, p.memsz), (1, 0x2000, 120, 3, 0x500));
    assert_eq!(p.get_perms(), 4);
    assert_eq!(ExecError::Elf.as_str(), "invalid elf file");
}

// the console

#[test]
fn console_line() {
    let mut m = Machine::new();
    let at = m.buf;
    let slept = m.outcome(0, Syscall::Read, 0, at, 16, 0);
    assert!(matches!(slept, Outcome::Sleep(0, _)));
    for c in b"lx\x7fs -l\n" {
        m.k.files.console.handle_interrupt(*c);
    }
    assert_eq!(m.read(0, 0, 16), Ok(b"ls -l\n".to_vec()));
    assert_eq!(m.write(0, 1, b"done\n"), Ok(5));
    let out = m.k.files.console.take_output();
    assert!(out.ends_with(b"done\n"));
}

#[test]
fn kernel_page_table() {
    let mut kmem = frames(800);
    let mut kvm = Kvm::try_new(&mut kmem).unwrap();
    kvm.make(&mut kmem, KERNBASE + 0x8000, KERNBASE);
    ProcTable::new().map_stacks(&mut kvm, &mut kmem);
    let before = frames_left(kmem);
    // RAM and the devices need many tables, and every process has four pages of stack
    assert!(before < 800 - 4 * 64 - 64);
}

#[test]
fn used_pages_are_counted() {
    let mut kmem = frames(20);
    let mut kvm = Kvm::try_new(&mut kmem).unwrap();
    assert_eq!(kvm.0.walk_used(&kmem), 0);
    let perm = PTE_R | PTE_W;
    kvm.0.map_pages(&mut kmem, VA(0x20_0000 - PGSIZE), PA(KERNBASE), 3 * PGSIZE, perm).unwrap();
    assert_eq!(kvm.0.walk_used(&kmem), 3);
    kvm.0.map_pages(&mut kmem, VA(0x8000), PA(KERNBASE), PGSIZE, perm).unwrap();
    assert_eq!(kvm.0.walk_used(&kmem), 4);
}

#[test]
fn recovery_survives_a_crash() {
    for home_written in [false, true] {
        let mut fs = Fs::new(Store::new(disk_with(&[(b"init", b"x")]), 1));
        octopos::fs::init(&mut fs, ROOTDEV);
        let sb = fs.superblock();
        let home = sb.size - 1;
        let mut disk = fs.store.disk;
        // a transaction of one block was committed, and maybe copied home already
        let mut data = [7u8; 1024];
        let mut header = [0u8; 1024];
        header[0] = 1;
        header[4..8].copy_from_slice(&home.to_le_bytes());
        disk.rw(ROOTDEV, sb.logstart + 1, &mut data, true);
        disk.rw(ROOTDEV, sb.logstart, &mut header, true);
        if home_written {
            disk.rw(ROOTDEV, home, &mut data, true);
        }
        let mut fs = Fs::new(Store::new(disk, 1));
        octopos::fs::init(&mut fs, ROOTDEV);
        let mut block = [0u8; 1024];
        fs.store.disk.rw(ROOTDEV, home, &mut block, false);
        assert_eq!(block, [7u8; 1024]);
        fs.store.disk.rw(ROOTDEV, sb.logstart, &mut block, false);
        assert_eq!(block[0..4], [0; 4]);
    }
}

#[test]
fn log_survives_a_crash() {
    let mut m = Machine::new();
    let fd = m.open(0, b"/kept", CREATE_RW).unwrap();
    m.write(0, fd, b"kept").unwrap();
    // only the disk is left
    let store = m.k.files.fs.store;
    let mut fs = Fs::new(Store::new(store.disk, 1));
    octopos::fs::init(&mut fs, ROOTDEV);
    let cwd = octopos::fs::Inode::new(0, ROOTDEV, 1);
    fs.begin_op();
    let inode = Path::new(b"/kept").resolve(&mut fs, &cwd).unwrap();
    let mut guard = inode.lock(&mut fs);
    let sb = fs.superblock();
    let mut buf = [0u8; 8];
    assert_eq!(inode.read(&mut fs.store, &sb, &mut guard, 0, &mut buf), Ok(4));
    assert_eq!(&buf[0..4], b"kept");
    inode.unlock_put(&mut fs, guard);
    fs.end_op();
}
