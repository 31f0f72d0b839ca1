//! Core of a container bootloader: a kernel-cmdline tokenizer, a boot
//! configuration resolver, the framing rules of an EFI variable store,
//! the whiteout/opaque bookkeeping of a layered image unpacker, and the
//! decision logic of the kexec driver and the boot orchestrator.
//!
//! Everything here is pure computation over plain values; the thin shell
//! that touches `/proc`, `/sys`, the network and the raw syscalls lives
//! outside the verified library and hands values in and out.

pub mod boot;
pub mod cmdline;
pub mod config;
pub mod efi;
pub mod extract;
pub mod kexec;
pub mod net;
pub mod unpacker;
