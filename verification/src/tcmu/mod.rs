//! The layout of the memory that the kernel and the handler share, as the kernel's
//! `target_core_user.h` gives it for a 64-bit little-endian machine.
use crate::bytes::{get_le32, get_le64};
#[allow(unused_imports)]
use crate::bytes::{le32, le64, lemma_le64_halves};
use crate::error::TcmuError;
use vstd::prelude::*;

pub mod funcs;

verus! {

/// Where the mailbox holds the offset of the ring, a 32-bit integer.
pub const MAILBOX_CMDR_OFF: usize = 4;

/// Where the mailbox holds the size of the ring, a 32-bit integer.
pub const MAILBOX_CMDR_SIZE: usize = 8;

/// Where the mailbox holds the head of the ring, a 32-bit integer that the kernel writes.
pub const MAILBOX_CMD_HEAD: usize = 12;

/// Where the mailbox holds the tail of the ring, a 32-bit integer that the handler writes.
pub const MAILBOX_CMD_TAIL: usize = 64;

/// Op code of an entry that only fills the ring up to its end.
pub const TCMU_OP_PAD: u32 = 0;

/// Op code of an entry that holds a SCSI command.
pub const TCMU_OP_CMD: u32 = 1;

/// The size of an entry without its table of buffers, or of a reply, whichever is larger.
pub const ENTRY_SIZE: usize = 112;

/// Where an entry holds the number of its buffers.
pub const ENTRY_IOV_CNT: usize = 8;

/// Where an entry holds the offset of its command block.
pub const ENTRY_CDB_OFF: usize = 24;

/// Where the table of buffers of an entry begins.
pub const ENTRY_IOV: usize = 48;

/// The size of one line in the table of buffers.
pub const IOVEC_SIZE: usize = 16;

/// Where the reply to an entry holds the SCSI status. The reply lies over the request.
pub const ENTRY_SCSI_STATUS: usize = 8;

/// Where the reply to an entry holds the sense data.
pub const ENTRY_SENSE_BUFFER: usize = 16;

/// The size of the sense data in a reply.
pub const SENSE_BUFFER_SIZE: usize = 96;

/// What the mailbox says of the ring: the next entry to handle is at `cmd_tail`, and at
/// `cmd_head` there is none yet.
#[derive(Clone, Copy, Debug, PartialEq, Eq, Structural)]
pub struct Mailbox {
    pub cmd_head: u32,
    pub cmd_tail: u32,
}

/// One buffer of a command: `iov_len` bytes from offset `iov_base` of the shared region.
#[derive(Clone, Copy, Debug, PartialEq, Eq, Structural)]
pub struct IoVec {
    pub iov_base: u64,
    pub iov_len: u64,
}

/// The handler's copy of one entry of the ring.
#[derive(Clone, Copy, Debug)]
pub struct CmdEntry {
    /// Where the entry lies in the shared region.
    pub off: usize,
    /// Its length and its op code.
    pub len_op: u32,
    /// The number of its buffers.
    pub iov_cnt: u32,
    /// Where its command block lies in the shared region.
    pub cdb_off: u64,
    /// The status of the reply.
    pub scsi_status: u8,
    /// The sense data of the reply.
    pub sense_buffer: [u8; 96],
}

/// The buffer that the sixteen bytes at `at` describe.
pub open spec fn iovec_at(mem: Seq<u8>, at: int) -> IoVec {
    IoVec { iov_base: le64(mem, at) as u64, iov_len: le64(mem, at + 8) as u64 }
}

/// The table of the `cnt` buffers of the entry at `off`.
pub open spec fn iov_table(mem: Seq<u8>, off: int, cnt: nat) -> Seq<IoVec> {
    Seq::new(cnt, |k: int| iovec_at(mem, off + ENTRY_IOV + IOVEC_SIZE * k))
}

/// Whether the table of the `cnt` buffers of the entry at `off` lies inside the region.
pub open spec fn iov_table_fits(mem: Seq<u8>, off: int, cnt: nat) -> bool {
    off + ENTRY_IOV + IOVEC_SIZE * cnt <= mem.len()
}

/// The region after the status of the entry at `off` was set.
pub open spec fn with_status(mem: Seq<u8>, off: int, status: u8) -> Seq<u8> {
    mem.update(off + ENTRY_SCSI_STATUS, status)
}

/// The region after the status and the sense data of the entry at `off` were set.
pub open spec fn with_sense(mem: Seq<u8>, off: int, status: u8, sense: Seq<u8>) -> Seq<u8> {
    Seq::new(
        mem.len(),
        |i: int|
            if i == off + ENTRY_SCSI_STATUS {
                status
            } else if off + ENTRY_SENSE_BUFFER <= i < off + ENTRY_SENSE_BUFFER
                + SENSE_BUFFER_SIZE {
                sense[i - off - ENTRY_SENSE_BUFFER]
            } else {
                mem[i]
            },
    )
}

impl IoVec {
    /// Reads one line of a table of buffers.
    pub fn load(base: &[u8], at: usize) -> (v: IoVec)
        requires
            at + IOVEC_SIZE <= base.len(),
        ensures
            v == iovec_at(base@, at as int),
    {
        IoVec { iov_base: get_le64(base, at), iov_len: get_le64(base, at + 8) }
    }
}

impl CmdEntry {
    /// Whether this is a copy of the entry at `off`.
    pub open spec fn is_at(&self, mem: Seq<u8>, off: int) -> bool {
        &&& self.off == off
        &&& self.len_op == le32(mem, off)
        &&& self.iov_cnt == le32(mem, off + ENTRY_IOV_CNT)
        &&& self.cdb_off == le64(mem, off + ENTRY_CDB_OFF)
        &&& self.scsi_status == mem[off + ENTRY_SCSI_STATUS]
        &&& self.sense_buffer@ == mem.subrange(off + ENTRY_SENSE_BUFFER, off + ENTRY_SIZE)
    }

    /// Whether this is `other` with the sense data `sense`.
    pub open spec fn is_with_sense(&self, other: CmdEntry, sense: Seq<u8>) -> bool {
        &&& self.off == other.off
        &&& self.len_op == other.len_op
        &&& self.iov_cnt == other.iov_cnt
        &&& self.cdb_off == other.cdb_off
        &&& self.scsi_status == other.scsi_status
        &&& self.sense_buffer@ == sense
    }

    /// Copies the entry at `off` out of the region, if all of it lies inside.
    pub fn load(base: &[u8], off: usize) -> (r: Result<CmdEntry, TcmuError>)
        ensures
            match r {
                Ok(ent) => off + ENTRY_SIZE <= base@.len() && ent.is_at(base@, off as int),
                Err(e) => off + ENTRY_SIZE > base@.len() && e == TcmuError::OutOfBounds,
            },
    {
        if base.len() < ENTRY_SIZE || off > base.len() - ENTRY_SIZE {
            return Err(TcmuError::OutOfBounds);
        }
        let mut sense_buffer: [u8; 96] = [0; 96];
        let mut i: usize = 0;
        while i < SENSE_BUFFER_SIZE
            invariant
                i <= SENSE_BUFFER_SIZE,
                off + ENTRY_SIZE <= base.len(),
                forall|k: int|
                    0 <= k < i ==> sense_buffer@[k] == base@[off + ENTRY_SENSE_BUFFER + k],
            decreases SENSE_BUFFER_SIZE - i,
        {
            sense_buffer[i] = base[off + ENTRY_SENSE_BUFFER + i];
            i += 1;
        }
        assert(sense_buffer@ =~= base@.subrange(off + ENTRY_SENSE_BUFFER, off + ENTRY_SIZE));
        Ok(
            CmdEntry {
                off,
                len_op: get_le32(base, off),
                iov_cnt: get_le32(base, off + ENTRY_IOV_CNT),
                cdb_off: get_le64(base, off + ENTRY_CDB_OFF),
                scsi_status: base[off + ENTRY_SCSI_STATUS],
                sense_buffer,
            },
        )
    }

    /// Writes the status and the sense data of this copy into the region.
    pub fn store_sense(&self, base: &mut [u8])
        requires
            self.off + ENTRY_SIZE <= old(base)@.len(),
        ensures
            final(base)@ == with_sense(
                old(base)@,
                self.off as int,
                self.scsi_status,
                self.sense_buffer@,
            ),
    {
        let off: usize = self.off;
        assert(base.len() == base@.len());
        base[off + ENTRY_SCSI_STATUS] = self.scsi_status;
        let mut i: usize = 0;
        while i < SENSE_BUFFER_SIZE
            invariant
                i <= SENSE_BUFFER_SIZE,
                off == self.off,
                off + ENTRY_SIZE <= base.len(),
                base@.len() == old(base)@.len(),
                base@[off + ENTRY_SCSI_STATUS] == self.scsi_status,
                forall|k: int|
                    0 <= k < i ==> base@[off + ENTRY_SENSE_BUFFER + k] == self.sense_buffer@[k],
                forall|k: int|
                    0 <= k < base@.len() && k != off + ENTRY_SCSI_STATUS && !(off
                        + ENTRY_SENSE_BUFFER <= k < off + ENTRY_SENSE_BUFFER + i) ==> base@[k]
                        == old(base)@[k],
            decreases SENSE_BUFFER_SIZE - i,
        {
            base[off + ENTRY_SENSE_BUFFER + i] = self.sense_buffer[i];
            i += 1;
        }
        assert(base@ =~= with_sense(
            old(base)@,
            self.off as int,
            self.scsi_status,
            self.sense_buffer@,
        ));
    }
}

/// Where the kernel puts the fields of the mailbox: each is a word, and the tail, which the
/// handler writes, lies on a cache line of its own.
pub proof fn lemma_mailbox_layout()
    ensures
        MAILBOX_CMDR_OFF == 4,
        MAILBOX_CMDR_SIZE == 8,
        MAILBOX_CMD_HEAD == 12,
        MAILBOX_CMD_TAIL == 64,
{
}

/// A buffer begins at the whole 64-bit integer in the first half of its line of the table, and is
/// as long as the whole integer in the second half says.
pub proof fn lemma_iovec(mem: Seq<u8>, at: int)
    ensures
        iovec_at(mem, at).iov_base == le64(mem, at),
        iovec_at(mem, at).iov_len == le64(mem, at + 8),
{
    lemma_le64_halves(mem, at);
    lemma_le64_halves(mem, at + 8);
}

/// The table of an entry has a line for each buffer, one behind the other from byte 48 on, and
/// has to lie inside the region with its last line, too.
pub proof fn lemma_iov_table(mem: Seq<u8>, off: int, cnt: nat)
    ensures
        iov_table(mem, off, cnt).len() == cnt,
        forall|k: int|
            0 <= k < cnt ==> (#[trigger] iov_table(mem, off, cnt)[k]).iov_base == le64(
                mem,
                off + 48 + 16 * k,
            ),
        forall|k: int|
            0 <= k < cnt ==> (#[trigger] iov_table(mem, off, cnt)[k]).iov_len == le64(
                mem,
                off + 56 + 16 * k,
            ),
        iov_table_fits(mem, off, cnt) <==> off + 48 + 16 * cnt <= mem.len(),
{
    assert forall|k: int| 0 <= k < cnt implies (#[trigger] iov_table(mem, off, cnt)[k]).iov_base
        == le64(mem, off + 48 + 16 * k) && iov_table(mem, off, cnt)[k].iov_len == le64(
        mem,
        off + 56 + 16 * k,
    ) by {
        lemma_iovec(mem, off + 48 + 16 * k);
    }
}

/// A copy of an entry holds the header word, the number of buffers and the offset of the command
/// block that the entry holds. The status and the sense data lie over the request.
pub proof fn lemma_entry_copy(ent: CmdEntry, mem: Seq<u8>, off: int)
    requires
        ent.is_at(mem, off),
        0 <= off,
        off + 112 <= mem.len(),
    ensures
        ent.off == off,
        ent.len_op == le32(mem, off),
        ent.iov_cnt == le32(mem, off + 8),
        ent.cdb_off == le64(mem, off + 24),
        ent.scsi_status == mem[off + 8],
        forall|k: int| 0 <= k < 96 ==> #[trigger] ent.sense_buffer@[k] == mem[off + 16 + k],
{
}

/// Storing sense data changes the status at byte 8 of the entry and the 96 bytes from byte 16 on,
/// and nothing else.
pub proof fn lemma_with_sense(mem: Seq<u8>, off: int, status: u8, sense: Seq<u8>)
    requires
        0 <= off,
        off + 112 <= mem.len(),
    ensures
        with_sense(mem, off, status, sense).len() == mem.len(),
        with_sense(mem, off, status, sense)[off + 8] == status,
        forall|i: int|
            off + 16 <= i < off + 112 ==> with_sense(mem, off, status, sense)[i] == sense[i - off
                - 16],
        forall|i: int|
            0 <= i < mem.len() && i != off + 8 && !(off + 16 <= i < off + 112) ==> with_sense(
                mem,
                off,
                status,
                sense,
            )[i] == mem[i],
{
}

} // verus!
