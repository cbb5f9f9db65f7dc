# octopos

A small Unix-like operating system for RISC-V: its kernel, its programs and the tool that makes its
file system, as a library whose behaviour is stated in contracts and proved.

The kernel's state is a value. A system call, a trap or an interrupt is a function from that value
to the next one. Where a process would have to sleep, the function says so, with the channel to
sleep on and how far the call has come; the same call goes on from there later.

Contracts speak of models: the blocks of the disk as a map, the memory of a process as pages with
flags and bytes, a pipe as a queue, the console as lines of input. Where the kernel would panic, the
model has no next state, and the functions ask that there is one. The same holds where the kernel
would wait inside a call for something that no channel stands for: a sleep lock that is taken, a log
that is committing or has no room for another operation, a buffer while all of the cache is in use.

Nothing runs at the same time as anything else in the model: one call or trap is done, or put to
sleep, before the next begins.

## Layout

| Where | What |
| --- | --- |
| `src/kalloc.rs` | page frames and their reference counts, on top of a buddy allocator |
| `src/vm.rs`, `src/vm/` | page tables, user memory, lazy pages, copy-on-write, the kernel's own table |
| `src/proc.rs`, `src/proc/` | processes: table, fork, exit, wait, and the memory of all of them |
| `src/virtio_disk.rs`, `src/buf.rs`, `src/log.rs` | the disk, its cache, and the log that makes operations atomic |
| `src/fs.rs`, `src/fs/` | blocks, inodes, directories, paths |
| `src/file.rs`, `src/file/`, `src/pipe.rs`, `src/console.rs` | what file descriptors stand for |
| `src/exec.rs`, `src/exec/` | running programs |
| `src/syscall.rs`, `src/syscall/`, `src/sysfile.rs`, `src/sysfile/`, `src/sysproc.rs`, `src/trap.rs` | system calls and traps |
| `src/riscv.rs`, `src/uart.rs`, `src/plic.rs`, `src/start.rs` | the machine |
| `src/user.rs`, `src/user/` | programs: the shell, its line editor, `ls`, `wc` and others |
| `src/mkfs.rs`, `src/mkfs/` | file system images |
| `app/` | `mkfs` itself, and what touches hardware and makes system calls |

Public proof functions named `law_...` state what holds over more than one call: that what is
written to a file is read back, that a crash leaves either all of an operation or nothing, that a
process does not see what others do to their memory, that its reserved pages lead to the trap code and
to its own trap frame, that the shell reads back every command.
