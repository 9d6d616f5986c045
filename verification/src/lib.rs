//! Jungey: the verified core of a small capability microkernel.
//!
//! Global state of the machine is an ordinary value here — a scheduler, a table of
//! processes, a disk — that functions take and hand back; what the hardware reports is
//! an argument. Files that end in `_laws` prove what holds across several operations.

pub mod bytes;
pub mod bytes_laws;
pub mod blk;
pub mod mm;
pub mod smp;
pub mod sched;
pub mod sched_laws;
pub mod ipc;
pub mod tensor;
pub mod tensor_laws;
pub mod elf;
pub mod elf_laws;
pub mod proc;
pub mod cap;
pub mod audit;
pub mod audit_laws;
pub mod fs;
pub mod fs_laws;
pub mod disk_laws;
pub mod file_laws;
pub mod sha256;
pub mod sha256_laws;
pub mod measure;
pub mod ota;
pub mod ota_laws;
pub mod model;
pub mod model_laws;
pub mod intent;
pub mod intent_laws;
pub mod time;
pub mod irq;
pub mod exceptions;
pub mod syscall;
pub mod authority_laws;
pub mod dtb;
pub mod dtb_laws;
pub mod devices;
pub mod uart;
pub mod gic;
pub mod machine_laws;
pub mod wm;
pub mod wm_laws;
pub mod virtq;
pub mod queue_laws;
pub mod virtio;
pub mod blkdrv;
pub mod wire_laws;
pub mod gpudrv;
pub mod display;
pub mod inputdrv;
pub mod app;
pub mod screen_laws;
pub mod user;
pub mod selftest;
pub mod selftest_laws;
pub mod report_laws;
