//! The user-space side of a SCSI device that the Linux kernel exports through TCMU (target core
//! module in userspace).
//!
//! The kernel and the handler share one memory region. It begins with a mailbox, holds a ring of
//! command entries, and ends with the data area that the commands read and write. This library
//! works on that region as a slice of bytes: it walks the ring, decodes each command, writes the
//! reply, and says what happens to every byte.
pub mod bytes;
pub mod data_buffer;
pub mod error;
pub mod ring;
pub mod scsi;
pub mod scsi_laws;
pub mod tcmu;
pub mod uio;
