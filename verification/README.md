# Jungey

The logic of a capability-based AArch64 microkernel and of the programs around it,
written in Verus: every public function in `src/` has a contract, and each is
proved.

What is proved, in one line each:

- **Memory.** A frame is handed out once; the heap gives out exclusive bytes and
  takes them back whole; page tables map exactly what they were asked to, never
  writable and executable at once, and no process can reach another's memory.
- **Scheduling.** No thread runs on two cores; a waiting thread comes closer with
  every turn; a wake that arrives while a thread is about to block is not lost.
- **Authority.** A derived capability never widens; without one a system call has no
  effect; revoking one kills exactly the subtree below it; a whole task can be undone.
- **Storage.** A power cut anywhere leaves the filesystem as it was before a write or
  as it is after it; one changed byte of a checkpoint is noticed; the action log says
  who acted and names the first record that was altered; an update that never comes up
  is rolled back, and only a slot whose digest is the recorded one is run. All of it
  holds for a device that may fail at any request, once or for good.
- **Inference.** The most urgent job runs; a job that was admitted meets its deadline,
  provided that nothing more is submitted and no segment costs more than estimated; a
  model's pages are read once however many processes share it, the newest of them are
  dropped first, and they come back the same.
- **The screen.** A tap goes to the topmost window and to no other; an application can
  touch only the windows it made.

## Layout

- `src/` — the library. `mm/` is memory; `proc`, `cap`, `ipc`, `sched` and `syscall`
  are the kernel's objects; `blk`, `fs`, `audit`, `ota` and `measure` are storage and
  what is trusted to it; `tensor` and `model` are inference; `intent` is undo; `virtq`,
  `virtio`, `blkdrv`, `gpudrv`, `inputdrv`, `display`, `wm` and `app` are devices and
  the screen; `dtb`, `devices`, `gic`, `irq`, `time`, `exceptions`, `smp` and `uart` are
  the board. Files that end in `_laws` hold what relates several operations.
- `tests/` — the same claims on concrete values.
- `app/` — the kernel's entry, registers and firmware calls, and the loops that carry
  the library's decisions to the hardware.

State that is global on a machine is an ordinary value here, passed in and handed
back: a scheduler, a table of processes, a disk. What the hardware reports — the time,
a register, whether an interrupt came — is an argument.
