use octopos::abi::{SysError, Syscall};
use octopos::buf::BCache;
use octopos::console::{ctrl, Console, Effect};
use octopos::error::KernelError;
use octopos::exec::ExecError;
use octopos::file::{File, FileTable, Ioctl};
use octopos::fs::{Directory, FsError, InodeType, Path, Stat, SuperBlock, FSMAGIC};
use octopos::mkfs::{Image, ImageError, BMAPSTART, NMETA};
use octopos::param::{NBUF, NFILE, NOFILE, NPROC};
use octopos::pipe::Pipe;
use octopos::plic;
use octopos::printf::{PanicBuffer, Printf};
use octopos::proc::{Channel, Context, Cpu, CpuTable, Pid, ProcInner, ProcState, ProcTable};
use octopos::riscv;
use octopos::riscv::{Exception, Interrupt, Scause, Trap};
use octopos::sleeplock::SleepLock;
use octopos::start::{start, timer_init};
use octopos::sync::OnceLock;
use octopos::sysfile::fd_alloc;
use octopos::trap::{device_interrupt, kerneltrap, Action, InterruptType};
use octopos::uart::{getc, write_sync, Transmit, Uart};
use octopos::virtio_disk::{Disk, BSIZE};
use octopos::vm::{PageTableEntry, VmError, PA, VA};

// numbers and errors

#[test]
fn error_codes() {
    assert_eq!(SysError::NoEntry.as_code(), 2);
    assert_eq!(SysError::NotEmpty.as_code(), 39);
    for code in 1..=39u16 {
        let e = SysError::from_code(code);
        if e.as_code() == code {
            assert_eq!(SysError::from_code(e.as_code()), e);
        }
    }
    assert_eq!(SysError::BrokenPipe.as_str(), "broken pipe");
    assert_eq!(SysError::NoEntry.as_str(), "no such file or directory");
}

#[test]
fn results_in_a_register() {
    assert_eq!(SysError::encode_result(Ok(7)), 7);
    assert_eq!(SysError::encode_result(Err(SysError::NoEntry)), (-2i64) as u64);
    assert_eq!(SysError::decode_result((-2i64) as u64), Err(SysError::NoEntry));
    assert_eq!(SysError::decode_result(7), Ok(7));
}

#[test]
fn call_numbers() {
    for n in 1..=26u64 {
        if let Ok(call) = Syscall::try_from(n) {
            assert_eq!(call.to_u64(), n);
        }
    }
    assert_eq!(Syscall::try_from(1), Ok(Syscall::Fork));
    assert_eq!(Syscall::try_from(0), Err(SysError::NotImplemented));
    assert_eq!(Syscall::try_from(1000), Err(SysError::NotImplemented));
}

#[test]
fn error_texts() {
    assert_eq!(VmError::InvalidPage.as_str(), "invalid page");
    assert_eq!(ExecError::Read.as_str(), "read error");
    assert_eq!(KernelError::from(VmError::Alloc), KernelError::Vm(VmError::Alloc));
    assert_eq!(SysError::from(FsError::OutOfBlock), SysError::NoSpace);
    assert!(!KernelError::Vm(VmError::Alloc).to_text().is_empty());
}

// the machine

#[test]
fn pages_are_rounded() {
    assert_eq!(riscv::pg_round_up(1), 4096);
    assert_eq!(riscv::pg_round_up(4096), 4096);
    assert_eq!(riscv::pg_round_down(8191), 4096);
    assert_eq!(VA(0x1234).round_down(), VA(0x1000));
    assert_eq!(VA(0x1234).round_up(), VA(0x2000));
}

#[test]
fn page_table_entries() {
    let pte = riscv::pa_to_pte(0x8765_4000) | riscv::PTE_V | riscv::PTE_W;
    assert_eq!(riscv::pte_to_pa(pte), 0x8765_4000);
    assert_eq!(riscv::pte_flags(pte), riscv::PTE_V | riscv::PTE_W);
    let mut e = PageTableEntry(pte);
    assert!(e.is_v() && e.is_w() && !e.is_u() && !e.is_cow());
    e.set_w(false);
    assert!(!e.is_w());
    assert_eq!(e.as_pa(), PA(0x8765_4000));
    assert_eq!(VA(0x40_3000).px(0), 3);
    assert_eq!(VA(0x40_3000).px(1), 2);
}

#[test]
fn trap_causes() {
    let timer = Scause::new(0x8000_0000_0000_0005);
    assert!(timer.is_interrupt());
    assert_eq!(timer.code(), 5);
    assert_eq!(timer.cause(), Trap::Interrupt(Interrupt::SupervisorTimer));
    assert_eq!(Scause::new(8).cause(), Trap::Exception(Exception::EnvironmentCall));
    assert_eq!(Scause::new(15).cause(), Trap::Exception(Exception::StorePageFault));
    assert!(Scause::new(15).is_exception());
    assert_eq!(Scause::new(99).cause(), Trap::Exception(Exception::Unknown));
}

#[test]
fn device_interrupts() {
    assert_eq!(
        device_interrupt(Interrupt::SupervisorExternal, 10),
        (Some(InterruptType::Device), Action::Uart, true)
    );
    assert_eq!(
        device_interrupt(Interrupt::SupervisorExternal, 1),
        (Some(InterruptType::Device), Action::Disk, true)
    );
    assert_eq!(
        device_interrupt(Interrupt::SupervisorExternal, 0),
        (Some(InterruptType::Device), Action::Nothing, false)
    );
    let (kind, action, _) = device_interrupt(Interrupt::SupervisorTimer, 0);
    assert_eq!((kind, action), (Some(InterruptType::Timer), Action::Clock));
    assert_eq!(device_interrupt(Interrupt::Unknown, 0).0, None);
}

#[test]
fn kernel_traps() {
    let timer = Trap::Interrupt(Interrupt::SupervisorTimer);
    assert!(kerneltrap(riscv::SPP, false, timer, Some(InterruptType::Timer), true));
    assert!(!kerneltrap(riscv::SPP, false, timer, Some(InterruptType::Timer), false));
    assert!(!kerneltrap(riscv::SPP, false, timer, Some(InterruptType::Device), true));
}

#[test]
fn interrupts_on_and_off() {
    let on = riscv::enable(0x20);
    assert_eq!(on, 0x22);
    assert!(riscv::get(on));
    assert!(!riscv::get(riscv::disable(on)));
}

#[test]
fn plic_registers() {
    assert_eq!(plic::claim(1), 0x0c00_0000 + 0x20_1004 + 0x2000);
    assert_eq!(plic::complete(0, 10), (0x0c20_1004, 10));
    assert_eq!(plic::init(), vec![(0x0c00_0028, 1), (0x0c00_0004, 1)]);
    assert_eq!(plic::init_hart(0), vec![(0x0c00_2080, 0x402), (0x0c20_1000, 0)]);
}

#[test]
fn starting_a_hart() {
    let t = timer_init(0, 0, 0, 10);
    assert_eq!((t.mie, t.mcounteren, t.deadline), (0x20, 2, 1_000_010));
    let s = start(0x1880, 0x8000_1000, 0, 3);
    assert_eq!((s.mstatus, s.mepc, s.satp), (0x880, 0x8000_1000, 0));
    assert_eq!((s.sie, s.tp, s.medeleg, s.pmpcfg0), (0x222, 3, 0xffff, 0xf));
}

#[test]
fn uart_sends_one_at_a_time() {
    let mut uart = Uart::new(0x1000_0000);
    assert_eq!(uart.init().len(), 7);
    assert_eq!(uart.write(b"ab", 0, false), Transmit::Send(0, b'a'));
    assert!(matches!(uart.write(b"ab", 1, false), Transmit::Sleep(_)));
    assert_eq!(uart.handle_interrupt(0), None);
    assert!(uart.handle_interrupt(0x20).is_some());
    assert_eq!(uart.write(b"ab", 1, false), Transmit::Send(0, b'b'));
    assert_eq!(uart.write(b"ab", 2, false), Transmit::Done);
    assert_eq!(uart.write(b"ab", 0, true), Transmit::Done);
    assert!(getc(1) && !getc(0x20));
    assert!(write_sync(0x20) && !write_sync(1));
}

#[test]
fn panic_message_is_cut() {
    let mut b: PanicBuffer<8> = PanicBuffer::new();
    b.write_bytes(b"panic");
    b.write_bytes(b"king");
    assert_eq!(b.as_bytes(), b"panickin".to_vec());
    let p = Printf::new();
    assert!(!p.is_panicking() && !p.is_panicked());
}

// locks and the CPU

#[test]
fn once_lock_is_set_once() {
    let mut once: OnceLock<u32> = OnceLock::new();
    assert!(!once.is_init());
    assert_eq!(once.get(), None);
    once.initialize(|| Ok::<u32, ()>(5));
    once.initialize(|| Ok::<u32, ()>(6));
    assert_eq!(once.get(), Some(&5));
}

#[test]
fn sleep_lock() {
    let mut lock = SleepLock::new(1u32, "test");
    let mut guard = lock.lock(7).unwrap();
    assert!(lock.lock(8).is_none());
    guard.data = 2;
    lock.unlock(guard);
    assert_eq!(lock.lock(8).unwrap().data, 2);
}

#[test]
fn nested_locks_keep_interrupts_off() {
    let mut cpu = Cpu::new();
    cpu.lock(true);
    cpu.lock(false);
    assert!(!cpu.unlock());
    assert_eq!(cpu.num_off, 1);
    let inner = ProcInner::new();
    assert!(cpu.sched(&inner, false));
    cpu.resched(false);
    assert!(!cpu.unlock());
    assert_eq!(CpuTable::new().0.len(), 4);
    let mut c = Context::new();
    c.ra = 5;
    c.zero();
    assert_eq!(c.ra, 0);
}

// the process table

fn table(states: &[ProcState]) -> ProcTable {
    let mut t = ProcTable::new();
    for (i, s) in states.iter().enumerate() {
        t.table[i].inner.state = *s;
        t.table[i].inner.pid = Pid(i as u64 + 1);
    }
    t
}

#[test]
fn scheduler_goes_round() {
    let mut t = table(&[ProcState::Runnable, ProcState::Sleeping, ProcState::Runnable]);
    assert_eq!(t.scheduler(0), Some(0));
    assert_eq!(t.table[0].inner.state, ProcState::Running);
    assert_eq!(t.scheduler(1), Some(2));
    t.yield_now(0);
    assert_eq!(t.scheduler(0), Some(0));
    t.yield_now(0);
    t.sleep(2, Channel::Ticks);
    assert_eq!(t.scheduler(2), None);
    assert_eq!(t.scheduler(0), Some(0));
    assert_eq!(t.dump().len(), 3);
}

#[test]
fn wakeup_wakes_sleepers_on_the_channel() {
    let mut t = table(&[ProcState::Running, ProcState::Running, ProcState::Running]);
    t.sleep(0, Channel::Ticks);
    t.sleep(1, Channel::Log);
    t.wakeup(Channel::Ticks, None);
    assert_eq!(t.table[0].inner.state, ProcState::Runnable);
    assert_eq!(t.table[1].inner.state, ProcState::Sleeping);
    assert_eq!(t.table[2].inner.state, ProcState::Running);
}

#[test]
fn kill_wakes_up() {
    let mut t = table(&[ProcState::Running, ProcState::Running]);
    t.sleep(1, Channel::Log);
    assert!(t.kill(Pid(2)));
    assert!(t.get(1).is_killed());
    assert_eq!(t.get(1).inner.state, ProcState::Runnable);
    assert!(!t.kill(Pid(40)));
}

#[test]
fn orphans_are_adopted() {
    let mut t = table(&[ProcState::Running, ProcState::Running, ProcState::Running]);
    t.parents[2] = Some(1);
    t.reparent(1, Some(1));
    assert_eq!(t.parents[2], Some(t.init));
    let mut count = 5u64;
    assert_eq!(Pid::allocate(&mut count), Pid(5));
    assert_eq!(count, 6);
    assert_eq!(t.table.len(), NPROC);
}

// files

#[test]
fn file_table() {
    let mut t = FileTable::new();
    let f = File::allocate(&mut t).unwrap();
    assert_eq!(f.id, 0);
    f.dup(&mut t);
    for i in 1..NFILE {
        assert_eq!(File::allocate(&mut t).unwrap().id, i);
    }
    assert_eq!(File::allocate(&mut t).err(), Some(FsError::OutOfFile));
}

#[test]
fn lowest_descriptor() {
    let mut t = FileTable::new();
    let f = File::allocate(&mut t).unwrap();
    let mut open: Vec<Option<File>> = (0..NOFILE).map(|_| None).collect();
    open[0] = Some(f);
    open[2] = Some(f);
    assert_eq!(fd_alloc(&mut open, f), Ok(1));
    assert_eq!(fd_alloc(&mut open, f), Ok(3));
    for slot in open.iter_mut() {
        *slot = Some(f);
    }
    assert_eq!(fd_alloc(&mut open, f), Err(SysError::TooManyFiles));
}

#[test]
fn pipe_ends() {
    let mut p = Pipe::new(0x8010_0000);
    assert_eq!(p.pipe_id(), 0x8010_0000);
    assert_eq!(p.close(true), Channel::PipeRead(0x8010_0000));
    assert!(!p.is_closed());
    assert_eq!(p.close(false), Channel::PipeWrite(0x8010_0000));
    assert!(p.is_closed());
}

#[test]
fn paths() {
    let p = Path::new(b"///a//bb/c");
    assert!(p.is_absolute() && !p.is_empty());
    let (first, rest) = p.next_component().unwrap();
    assert_eq!(first, b"a");
    assert_eq!(rest.as_bytes(), b"bb/c");
    let (second, rest) = rest.next_component().unwrap();
    assert_eq!((second, rest.as_bytes()), (&b"bb"[..], &b"c"[..]));
    let (last, rest) = rest.next_component().unwrap();
    assert_eq!((last, rest.as_bytes()), (&b"c"[..], &b""[..]));
    assert!(rest.next_component().is_none());
    assert!(Path::new(b"/").next_component().is_none());
}

#[test]
fn directory_entries() {
    let mut e = Directory::new_empty();
    e.inum = 0x102;
    e.set_name(b"file");
    assert!(e.is_name_equal(b"file"));
    assert!(!e.is_name_equal(b"fil"));
    assert!(!e.is_name_equal(b"files"));
    let b = e.as_bytes();
    assert_eq!(&b[0..7], &[2, 1, b'f', b'i', b'l', b'e', 0]);
    let back = Directory::from_bytes(&b);
    assert_eq!(back.inum, 0x102);
    assert!(back.is_name_equal(b"file"));
    // a name of full length has no terminator
    e.set_name(b"abcdefghijklmn");
    assert!(e.is_name_equal(b"abcdefghijklmn"));
}

#[test]
fn stat_layout() {
    let s = Stat { dev: 1, ino: 2, typ: InodeType::File, nlink: 3, size: 4 };
    let b = s.as_bytes();
    assert_eq!(b.len(), 24);
    assert_eq!((b[0], b[4], b[8], b[10], b[16]), (1, 2, 2, 3, 4));
    assert_eq!(InodeType::from_u16(3), InodeType::Device);
    assert_eq!(InodeType::Directory.to_u16(), 1);
}

#[test]
fn buffers_are_cached() {
    let mut disk = Disk::new();
    let mut block = [9u8; BSIZE];
    disk.rw(1, 5, &mut block, true);
    let mut cache = BCache::new();
    let mut buf = cache.read(&mut disk, 1, 5, 1).unwrap();
    assert_eq!(buf.data()[0], 9);
    assert!(cache.get(1, 5, 2).is_none());
    buf.data_mut()[0] = 7;
    cache.write(&mut disk, &mut buf);
    cache.release(buf);
    let mut back = [0u8; BSIZE];
    disk.rw(1, 5, &mut back, false);
    assert_eq!((back[0], back[1]), (7, 9));
    // the least recently used buffers are used again
    for b in 100..100 + 2 * NBUF as u32 {
        let buf = cache.read(&mut disk, 1, b, 1).unwrap();
        cache.release(buf);
    }
    let buf = cache.read(&mut disk, 1, 5, 1).unwrap();
    assert_eq!(buf.data()[0], 7);
}

#[test]
fn first_block_of_the_first_device() {
    let mut cache = BCache::new();
    let buf = cache.get(0, 0, 1).unwrap();
    assert_eq!(buf.id, 0);
    assert_eq!(cache.inner.meta[0].ref_count, 1);
    assert!(!cache.inner.meta[0].valid);
    assert!(cache.get(0, 0, 2).is_none());
    assert_eq!(cache.inner.meta[0].ref_count, 2);
}

// the console

fn typed(c: &mut Console, s: &[u8]) -> Vec<Effect> {
    s.iter().map(|&b| c.handle_interrupt(b)).collect()
}

#[test]
fn console_edits_a_line() {
    assert_eq!(ctrl(b'U'), 0x15);
    let mut c = Console::new();
    typed(&mut c, b"abc\x15xy\x08z");
    assert_eq!(c.take_output(), b"abc\x08 \x08\x08 \x08\x08 \x08xy\x08 \x08z".to_vec());
    assert_eq!(typed(&mut c, b"\n"), vec![Effect::Wake]);
    assert_eq!(typed(&mut c, b"\x10"), vec![Effect::Dump]);
}

#[test]
fn console_modes() {
    let mut c = Console::new();
    assert!(!c.is_raw());
    assert_eq!(c.ioctl(Ioctl::CONSOLE_SET_RAW, 1), Ok(0));
    assert!(c.is_raw());
    c.ioctl(Ioctl::CONSOLE_SET_RAW, 0).unwrap();
    c.ioctl(Ioctl::CONSOLE_SET_FG_PID, 12).unwrap();
    assert_eq!(typed(&mut c, b"\x03"), vec![Effect::Kill(Pid(12))]);
    assert_eq!(c.ioctl(99, 0), Err(SysError::InvalidArgument));
}

// images

#[test]
fn image_layout() {
    let mut image = Image::new().unwrap();
    assert_eq!(image.used(), NMETA + 1);
    image.add_file(b"a", &[1; 1025]).unwrap();
    assert_eq!(image.used(), NMETA + 3);
    image.finish();
    let sb = SuperBlock::from_bytes(&image.read_sector(1));
    assert_eq!((sb.magic, sb.size, sb.nblocks, sb.ninodes), (FSMAGIC, 2000, 1953, 200));
    assert_eq!((sb.nlogs, sb.logstart, sb.inodestart, sb.bmapstart), (31, 2, 33, 46));
    let map = image.read_sector(BMAPSTART);
    for b in 0..BSIZE * 8 {
        assert_eq!(map[b / 8] >> (b % 8) & 1 == 1, (b as u32) < image.used());
    }
    // the root directory: ".", ".." and the file
    let root = image.read_sector(NMETA);
    assert_eq!(&root[0..4], &[1, 0, b'.', 0]);
    assert_eq!(&root[16..21], &[1, 0, b'.', b'.', 0]);
    assert_eq!(&root[32..36], &[2, 0, b'a', 0]);
    // its inode says that it fills its block
    let inodes = image.read_sector(33);
    assert_eq!(&inodes[64..66], &[1, 0]);
    assert_eq!(&inodes[72..76], &1024u32.to_le_bytes());
    assert_eq!(&inodes[136..140], &1025u32.to_le_bytes());
}

#[test]
fn image_errors() {
    let mut image = Image::new().unwrap();
    assert_eq!(image.add_file(b"fourteen_bytes", b""), Err(ImageError::NameTooLong));
    assert_eq!(image.add_file(b"thirteen_byte", b""), Ok(()));
    let mut image = Image::new().unwrap();
    let huge = vec![0u8; 268 * 1024 + 1];
    assert_eq!(image.add_file(b"huge", &huge), Err(ImageError::FileTooLarge));
    let mut image = Image::new().unwrap();
    for i in 0..7u8 {
        assert_eq!(image.add_file(&[b'a' + i], &huge[1..]), Ok(()));
    }
    assert_eq!(image.add_file(b"h", &huge[1..]), Err(ImageError::NoBlocks));
    let mut image = Image::new().unwrap();
    for _ in 0..198 {
        image.add_file(b"x", b"").unwrap();
    }
    assert_eq!(image.add_file(b"x", b""), Err(ImageError::NoInodes));
}
